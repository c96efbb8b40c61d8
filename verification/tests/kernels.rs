use workassisting_scan::cases::compact;
use workassisting_scan::cases::scan;
use workassisting_scan::runtime::block;

#[test]
fn random_words_by_hand() {
    // 1 ^ (1 << 13) = 8193; 8193 >> 17 = 0; 8193 ^ (8193 << 5) = 270369.
    let mut values = vec![9u64; 3];
    scan::fill(&mut values);
    assert_eq!(values, vec![0, 270369, 540738]);
    assert_eq!(compact::create_input(3), vec![0, 270369, 540738]);
    assert_eq!(scan::random(1), 270369);
    assert_eq!(scan::random(0), 0);
    assert_eq!(compact::create_input(0), Vec::<u64>::new());
}

#[test]
fn random_is_cut_to_32_bits() {
    let seed: u64 = 1 << 40;
    let mut s = seed;
    s ^= s << 13;
    s ^= s >> 17;
    s ^= s << 5;
    assert!(s > u32::MAX as u64);
    assert_eq!(scan::random(seed) as u64, s & 0xFFFF_FFFF);
}

#[test]
fn sequential_scan_examples() {
    let mut output = vec![0u64; 8];
    assert_eq!(scan::scan_sequential(&[1; 8], 0, &mut output), 8);
    assert_eq!(output, vec![1, 2, 3, 4, 5, 6, 7, 8]);
    assert_eq!(scan::scan_sequential(&[0, 1, 2, 3, 4, 5, 6, 7], 0, &mut output), 28);
    assert_eq!(output, vec![0, 1, 3, 6, 10, 15, 21, 28]);
    assert_eq!(scan::scan_sequential(&[0, 1, 2, 3, 4, 5, 6, 7], 100, &mut output), 128);
    assert_eq!(output, vec![100, 101, 103, 106, 110, 115, 121, 128]);
    let mut single = vec![0u64];
    assert_eq!(scan::scan_sequential(&[77], 0, &mut single), 77);
    assert_eq!(single, vec![77]);
    let mut none: Vec<u64> = Vec::new();
    assert_eq!(scan::scan_sequential(&[], 5, &mut none), 5);
}

#[test]
fn sums_wrap() {
    let input = [u64::MAX, 2, u64::MAX];
    assert_eq!(scan::fold_sequential(&input), 0);
    let mut output = vec![0u64; 3];
    assert_eq!(scan::scan_sequential(&input, 0, &mut output), 0);
    assert_eq!(output, vec![u64::MAX, 1, 0]);
    assert_eq!(scan::fold_sequential(&[]), 0);
}

#[test]
fn ranged_scan_leaves_the_rest() {
    let input = [1u64, 2, 3, 4, 5, 6];
    let mut output = vec![9u64; 6];
    assert_eq!(scan::scan_range(&input, 2, 5, 10, &mut output), 22);
    assert_eq!(output, vec![9, 9, 13, 17, 22, 9]);
    scan::propagate_range(&mut output, 1, 3, u64::MAX);
    assert_eq!(output, vec![9, 8, 12, 17, 22, 9]);
}

#[test]
fn scan_checksum() {
    let n = 100_000;
    let mut input = vec![0u64; n];
    scan::fill(&mut input);
    let mut output = vec![0u64; n];
    let checksum = scan::reference_sequential_single(&input, &mut output);
    let expected = output[0].wrapping_add(output[98238]).wrapping_add(output[n - 123]).wrapping_add(output[n - 1]);
    assert_eq!(checksum, expected);
    assert_eq!(scan::compute_output(&output), expected);
    let mut running = 0u64;
    for i in 0..n {
        running = running.wrapping_add(input[i]);
        assert_eq!(output[i], running);
    }
}

#[test]
fn compaction_kernels() {
    let input: Vec<u64> = (1..=16).collect();
    let mask = 1;
    let kept: Vec<u64> = input.iter().copied().filter(|v| compact::predicate(mask, *v)).collect();
    assert!(!kept.is_empty() && kept.len() < 16);
    assert_eq!(compact::count_sequential(mask, &input), kept.len());
    let mut output = vec![0u64; 20];
    assert_eq!(compact::compact_sequential(mask, &input, &mut output, 2), 2 + kept.len());
    assert_eq!(&output[2..2 + kept.len()], &kept[..]);
    assert_eq!(&output[..2], &[0, 0]);
    assert!(output[2 + kept.len()..].iter().all(|v| *v == 0));
    let mut indices = vec![0u64; 16];
    assert_eq!(compact::scan_indices_sequential(mask, &input, &mut indices), kept.len());
    let mut running = 0u64;
    for i in 0..16 {
        if compact::predicate(mask, input[i]) {
            running += 1;
        }
        assert_eq!(indices[i], running);
    }
    let mut packed = vec![7u64; 16];
    assert_eq!(compact::compact_range(mask, &input, 4, 12, compact::count_sequential(mask, &input[..4]), &mut packed),
        compact::count_sequential(mask, &input[..12]));
    let before = compact::count_sequential(mask, &input[..4]);
    let upto = compact::count_sequential(mask, &input[..12]);
    assert_eq!(&packed[before..upto], &kept[before..upto]);
    assert!(packed[..before].iter().all(|v| *v == 7));
    assert!(packed[upto..].iter().all(|v| *v == 7));
}

#[test]
fn mask_zero_keeps_everything() {
    let input: Vec<u64> = (0..10).collect();
    let mut output = vec![0u64; 10];
    assert_eq!(compact::compact_sequential(0, &input, &mut output, 0), 10);
    assert_eq!(output, input);
    assert_eq!(compact::count_sequential(0, &input), 10);
}

#[test]
fn compaction_checksum() {
    let n = 200_000;
    let input = compact::create_input(n);
    let mut output = vec![0u64; n];
    let (count, checksum) = compact::reference_sequential_single(1, &input, &mut output);
    assert_eq!(count, compact::count_sequential(1, &input));
    assert!(count > 98238);
    assert_eq!(checksum, output[0].wrapping_add(output[98238]).wrapping_add(output[count - 1]));
    assert_eq!(compact::compute_output(&output, count), (count, checksum));
}

#[test]
fn blocks_tile_the_array() {
    assert_eq!(block::blocks_for(0, 4096), 0);
    assert_eq!(block::blocks_for(1, 4096), 1);
    assert_eq!(block::blocks_for(4096, 4096), 1);
    assert_eq!(block::blocks_for(4097, 4096), 2);
    assert_eq!(block::blocks_for(usize::MAX, 1), usize::MAX);
    assert_eq!(block::block_range(0, 4096, 5000), (0, 4096));
    assert_eq!(block::block_range(1, 4096, 5000), (4096, 5000));
    assert_eq!(block::block_range(1, 4096, 8192), (4096, 8192));
}

#[test]
fn three_phase_partition() {
    assert_eq!(block::partition(0), (1024, 0));
    assert_eq!(block::partition(1), (1024, 1));
    assert_eq!(block::partition(1024), (1024, 1));
    assert_eq!(block::partition(1025), (1024, 2));
    assert_eq!(block::partition(256 * 1024), (1024, 256));
    assert_eq!(block::partition(256 * 1024 + 1), (1025, 256));
    assert_eq!(block::partition(1024 * 1024 * 64), (262144, 256));
}
