use workassisting_scan::utils::benchmark::{color_factor, compact_name, decimal_string, inplace_style, latex_symbol, mask_for, mean_micros, result_path, scan_inplace_name, scan_name, table_thread_counts, ChartStyle, RUNS, THREAD_COUNTS};

#[test]
fn scan_names_group_digits() {
    assert_eq!(scan_name(1024 * 1024 * 64), "Prefix-sum (n = 67,108,864)");
    assert_eq!(scan_name(0), "Prefix-sum (n = 0)");
    assert_eq!(scan_name(999), "Prefix-sum (n = 999)");
    assert_eq!(scan_name(1000), "Prefix-sum (n = 1,000)");
    assert_eq!(scan_name(1_000_007), "Prefix-sum (n = 1,000,007)");
    assert_eq!(scan_inplace_name(33_554_432), "Prefix-sum inplace (n = 33,554,432)");
}

#[test]
fn compact_names() {
    assert_eq!(compact_name(1024 * 1024 * 256, 2), "Compact (n = 268,435,456, r = 1/2)");
    assert_eq!(compact_name(33_554_432, 8), "Compact (n = 33,554,432, r = 1/8)");
    assert_eq!(compact_name(10, 16), "Compact (n = 10, r = 1/16)");
}

#[test]
fn decimal_digits() {
    assert_eq!(decimal_string(0), "0");
    assert_eq!(decimal_string(7), "7");
    assert_eq!(decimal_string(10), "10");
    assert_eq!(decimal_string(u64::MAX), "18446744073709551615");
}

#[test]
fn masks_and_styles() {
    assert_eq!(mask_for(2), 1);
    assert_eq!(mask_for(8), 7);
    assert!(inplace_style(1024) == ChartStyle::WithKey);
    assert!(inplace_style(1024 * 1024 * 64) == ChartStyle::WithoutKey);
    assert_eq!(mean_micros(1_000_000, 50), 20_000);
    assert_eq!(mean_micros(49, 50), 0);
}

#[test]
fn symbols() {
    assert_eq!(latex_symbol(3), "\\smallblackdiamond");
    assert_eq!(latex_symbol(5), "\\blacksquare");
    assert_eq!(latex_symbol(7), "\\scalebox{1.1}{$\\bullet$}");
    assert_eq!(latex_symbol(2), "\\smalldiamond");
    assert_eq!(latex_symbol(4), "\\square");
    assert_eq!(latex_symbol(6), "\\scalebox{1.1}{$\\circ$}");
    assert_eq!(latex_symbol(1), "+");
    assert_eq!(latex_symbol(8), "\\triangle");
    assert_eq!(latex_symbol(0), "?");
    assert_eq!(latex_symbol(9), "?");
}

#[test]
fn result_paths() {
    assert_eq!(result_path("Prefix-sum (n = 67,108,864)"), "./results/Prefix-sum_n___67,108,864");
    assert_eq!(result_path("Compact (n = 33,554,432, r = 1/8)"), "./results/Compact_n___33,554,432,_r___1_8");
    assert_eq!(result_path(""), "./results/");
    assert_eq!(result_path("()"), "./results/");
    assert_eq!(result_path("a b=c/d(e)f"), "./results/a_b_c_def");
    assert_eq!(result_path(&scan_name(1000)), "./results/Prefix-sum_n___1,000");
}

#[test]
fn tables() {
    assert_eq!(table_thread_counts(24), vec![1, 2, 3, 4, 8, 16, 24]);
    assert_eq!(table_thread_counts(16), vec![1, 2, 3, 4, 6, 8, 16]);
    assert_eq!(table_thread_counts(32), vec![1, 2, 3, 4, 6, 8, 16]);
    assert_eq!(color_factor(true), 30);
    assert_eq!(color_factor(false), 10);
    assert_eq!(THREAD_COUNTS.len(), 14);
    assert_eq!(THREAD_COUNTS[0], 1);
    assert_eq!(THREAD_COUNTS[13], 32);
    assert_eq!(RUNS, 50);
}
