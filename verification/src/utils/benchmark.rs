//! Names and styles of the benchmark charts.

use vstd::prelude::*;
use vstd::string::{StrSliceExecFns, StringExecFns};
use num_format::{Locale, ToFormattedString};

verus! {

/// Whether a chart shows its key.
#[derive(PartialEq, Eq, Copy, Clone, Structural)]
pub enum ChartStyle {
    WithKey,
    WithoutKey,
}

/// The number of timed runs of each case.
pub const RUNS: usize = 50;

/// The decimal digit of a number below ten.
pub open spec fn digit(d: nat) -> char {
    if d == 0 {
        '0'
    } else if d == 1 {
        '1'
    } else if d == 2 {
        '2'
    } else if d == 3 {
        '3'
    } else if d == 4 {
        '4'
    } else if d == 5 {
        '5'
    } else if d == 6 {
        '6'
    } else if d == 7 {
        '7'
    } else if d == 8 {
        '8'
    } else {
        '9'
    }
}

/// The decimal digits of a number.
pub open spec fn decimal(n: nat) -> Seq<char>
    decreases n,
{
    if n < 10 {
        seq![digit(n)]
    } else {
        decimal(n / 10).push(digit(n % 10))
    }
}

/// The decimal digits of a number, in groups of three with commas between them.
pub open spec fn grouped(n: nat) -> Seq<char>
    decreases n,
{
    if n < 1000 {
        decimal(n)
    } else {
        grouped(n / 1000) + seq![',', digit(n % 1000 / 100), digit(n % 100 / 10), digit(n % 10)]
    }
}

/// `to_formatted_string` of `num_format` with the locale `en`, which groups
/// the decimal digits in threes from the right and puts a comma between the
/// groups. Believed, not proved.
#[verifier::external_body]
fn format_grouped(n: usize) -> (s: String)
    ensures
        s@ == grouped(n as nat),
{
    n.to_formatted_string(&Locale::en)
}

fn digit_str(d: u64) -> (s: &'static str)
    requires
        d < 10,
    ensures
        s@ == seq![digit(d as nat)],
{
    proof {
        reveal_strlit("0");
        reveal_strlit("1");
        reveal_strlit("2");
        reveal_strlit("3");
        reveal_strlit("4");
        reveal_strlit("5");
        reveal_strlit("6");
        reveal_strlit("7");
        reveal_strlit("8");
        reveal_strlit("9");
    }
    let s = if d == 0 {
        "0"
    } else if d == 1 {
        "1"
    } else if d == 2 {
        "2"
    } else if d == 3 {
        "3"
    } else if d == 4 {
        "4"
    } else if d == 5 {
        "5"
    } else if d == 6 {
        "6"
    } else if d == 7 {
        "7"
    } else if d == 8 {
        "8"
    } else {
        "9"
    };
    assert(s@ =~= seq![digit(d as nat)]);
    s
}

/// The decimal digits of a number, as a string.
pub fn decimal_string(n: u64) -> (s: String)
    ensures
        s@ == decimal(n as nat),
    decreases n,
{
    if n < 10 {
        String::from_str(digit_str(n))
    } else {
        let mut s = decimal_string(n / 10);
        s.append(digit_str(n % 10));
        proof {
            assert(s@ =~= decimal(n as nat));
        }
        s
    }
}

/// The name of the prefix-sum benchmark for an array of `size` elements.
pub fn scan_name(size: usize) -> (name: String)
    ensures
        name@ == "Prefix-sum (n = "@ + grouped(size as nat) + ")"@,
{
    let mut name = String::from_str("Prefix-sum (n = ");
    let digits = format_grouped(size);
    name.append(digits.as_str());
    name.append(")");
    name
}

/// The name of the in-place prefix-sum benchmark for an array of `size` elements.
pub fn scan_inplace_name(size: usize) -> (name: String)
    ensures
        name@ == "Prefix-sum inplace (n = "@ + grouped(size as nat) + ")"@,
{
    let mut name = String::from_str("Prefix-sum inplace (n = ");
    let digits = format_grouped(size);
    name.append(digits.as_str());
    name.append(")");
    name
}

/// The name of the compaction benchmark for an array of `size` elements of
/// which one in `ratio` is kept.
pub fn compact_name(size: usize, ratio: u64) -> (name: String)
    ensures
        name@ == "Compact (n = "@ + grouped(size as nat) + ", r = 1/"@ + decimal(ratio as nat) + ")"@,
{
    let mut name = String::from_str("Compact (n = ");
    let digits = format_grouped(size);
    name.append(digits.as_str());
    name.append(", r = 1/");
    let ratio_digits = decimal_string(ratio);
    name.append(ratio_digits.as_str());
    name.append(")");
    name
}

/// The mask under which the predicate keeps one word in `ratio`, for a
/// `ratio` that is a power of two.
pub fn mask_for(ratio: u64) -> (mask: u64)
    requires
        ratio >= 1,
    ensures
        mask == ratio - 1,
{
    ratio - 1
}

/// The style of the chart of the in-place benchmark: only the chart of a
/// smaller array than the large one shows its key.
pub fn inplace_style(size: usize) -> (style: ChartStyle)
    ensures
        style == if size < crate::cases::scan::SIZE {
            ChartStyle::WithKey
        } else {
            ChartStyle::WithoutKey
        },
{
    if size < crate::cases::scan::SIZE {
        ChartStyle::WithKey
    } else {
        ChartStyle::WithoutKey
    }
}

/// The mean duration of a run in microseconds, cut to 64 bits.
pub fn mean_micros(elapsed_micros: u128, runs: usize) -> (mean: u64)
    requires
        runs > 0,
    ensures
        mean == (elapsed_micros / runs as u128) % 0x1_0000_0000_0000_0000,
{
    let mean: u128 = elapsed_micros / (runs as u128);
    proof {
        assert(mean as u64 == mean % 0x1_0000_0000_0000_0000) by (bit_vector);
    }
    mean as u64
}

/// The symbol that marks a chart line of this style in a table.
pub fn latex_symbol(chart_line_style: u32) -> (symbol: &'static str)
    ensures
        symbol@ == match chart_line_style {
            3 => "\\smallblackdiamond"@,
            5 => "\\blacksquare"@,
            7 => "\\scalebox{1.1}{$\\bullet$}"@,
            2 => "\\smalldiamond"@,
            4 => "\\square"@,
            6 => "\\scalebox{1.1}{$\\circ$}"@,
            1 => "+"@,
            8 => "\\triangle"@,
            _ => "?"@,
        },
{
    match chart_line_style {
        3 => "\\smallblackdiamond",
        5 => "\\blacksquare",
        7 => "\\scalebox{1.1}{$\\bullet$}",
        2 => "\\smalldiamond",
        4 => "\\square",
        6 => "\\scalebox{1.1}{$\\circ$}",
        1 => "+",
        8 => "\\triangle",
        _ => "?",
    }
}


/// The thread counts that a benchmark runs with, up to its largest.
pub const THREAD_COUNTS: [usize; 14] = [1, 2, 3, 4, 6, 8, 10, 12, 14, 16, 20, 24, 28, 32];

/// A benchmark's name as a file name: spaces, `=` and `/` become `_`, and
/// parentheses are left out.
pub open spec fn stem_of(name: Seq<char>) -> Seq<char>
    decreases name.len(),
{
    if name.len() == 0 {
        Seq::empty()
    } else {
        let rest = stem_of(name.drop_last());
        let c = name.last();
        if c == ' ' || c == '=' || c == '/' {
            rest.push('_')
        } else if c == '(' || c == ')' {
            rest
        } else {
            rest.push(c)
        }
    }
}

/// The path, without an extension, of the files that hold a benchmark's results.
pub fn result_path(name: &str) -> (path: String)
    ensures
        path@ == "./results/"@ + stem_of(name@),
{
    let mut path = String::from_str("./results/");
    let n: usize = name.unicode_len();
    let mut i: usize = 0;
    proof {
        assert(name@.take(0) =~= Seq::<char>::empty());
    }
    while i < n
        invariant
            n == name@.len(),
            i <= n,
            path@ == "./results/"@ + stem_of(name@.take(i as int)),
        decreases n - i,
    {
        let c = name.get_char(i);
        proof {
            assert(name@.take(i + 1).drop_last() =~= name@.take(i as int));
            assert(name@.take(i + 1).last() == c);
            reveal_strlit("_");
        }
        let ghost before = path@;
        if c == ' ' || c == '=' || c == '/' {
            path.append("_");
            proof {
                assert(path@ =~= "./results/"@ + stem_of(name@.take(i as int)).push('_'));
            }
        } else if c == '(' || c == ')' {
        } else {
            path.append(name.substring_char(i, i + 1));
            proof {
                assert(name@.subrange(i as int, i + 1) =~= seq![c]);
                assert(path@ =~= "./results/"@ + stem_of(name@.take(i as int)).push(c));
            }
        }
        i += 1;
    }
    proof {
        assert(name@.take(n as int) =~= name@);
    }
    path
}

/// The thread counts that the table of a benchmark shows. High counts and
/// those between 8 and 16 are left out, as the results change little there.
pub fn table_thread_counts(max_threads: u32) -> (counts: Vec<usize>)
    ensures
        counts@ == if max_threads == 24 {
            seq![1usize, 2, 3, 4, 8, 16, 24]
        } else {
            seq![1usize, 2, 3, 4, 6, 8, 16]
        },
{
    let counts = if max_threads == 24 {
        vec![1, 2, 3, 4, 8, 16, 24]
    } else {
        vec![1, 2, 3, 4, 6, 8, 16]
    };
    assert(counts@ =~= if max_threads == 24 {
        seq![1usize, 2, 3, 4, 8, 16, 24]
    } else {
        seq![1usize, 2, 3, 4, 6, 8, 16]
    });
    counts
}

/// How strongly the row of a line is tinted in the table: the adaptive
/// variants stand out.
pub fn color_factor(our: bool) -> (factor: u32)
    ensures
        factor == if our {
            30u32
        } else {
            10u32
        },
{
    if our {
        30
    } else {
        10
    }
}

} // verus!
