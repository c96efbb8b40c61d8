use workassisting_scan::cases::compact;
use workassisting_scan::cases::compact::{chained, half_sized_blocks, half_sized_variant, no_lookback_chained, our_chained, our_half_sized_blocks, our_reduce_then_scan, our_scan_then_propagate, reduce_then_scan, scan_then_propagate, unchanged_half_sized};
use workassisting_scan::runtime::block::STATE_PREFIX_AVAILABLE;
use workassisting_scan::runtime::chained::Chained;
use workassisting_scan::runtime::worker::Workers;

fn reference(mask: u64, input: &[u64]) -> (usize, Vec<u64>) {
    let mut output = vec![0u64; input.len()];
    let count = compact::compact_sequential(mask, input, &mut output, 0);
    output.truncate(count);
    (count, output)
}

fn check_chained(task: &Chained, expected: &(usize, Vec<u64>)) {
    assert!(task.done);
    assert_eq!(task.output_count, expected.0);
    assert_eq!(&task.output[..task.output_count], &expected.1[..]);
    for i in 0..task.work_size as usize {
        assert_eq!(task.temp[i].state, STATE_PREFIX_AVAILABLE);
        assert_eq!(task.executions[i], 1);
    }
}

#[test]
fn predicate_by_hand() {
    // 1 ^ (1 >> 11) = 1; 1 ^ (1 << 7) = 129; 129 ^ (129 >> 5) = 129 ^ 4 = 133.
    assert!(compact::predicate(1, 1));
    assert!(compact::predicate(5, 1));
    assert!(!compact::predicate(2, 1));
    assert!(compact::predicate(0, 12345));
    // 2 -> 2 ^ 256 = 258 -> 258 ^ 8 = 266, an even hash.
    assert!(!compact::predicate(1, 2));
}

#[test]
fn sixteen_numbers_ratio_two() {
    let input: Vec<u64> = (1..=16).collect();
    let mask = 2 - 1;
    let expected = reference(mask, &input);
    let by_predicate: Vec<u64> = input.iter().copied().filter(|v| compact::predicate(mask, *v)).collect();
    assert_eq!(expected.1, by_predicate);
    assert_eq!(expected.0, compact::count_sequential(mask, &input));
    for threads in [1usize, 2, 3] {
        let mut task = chained::create_task(mask, &input, chained::create_temp(16), vec![0; 16]);
        Workers::run(threads, &mut task);
        check_chained(&task, &expected);
        let mut task = our_chained::create_task(mask, &input, chained::create_temp(16), vec![0; 16]);
        Workers::run(threads, &mut task);
        check_chained(&task, &expected);
        let mut task = no_lookback_chained::create_task(mask, &input, no_lookback_chained::create_temp(16), vec![0; 16]);
        Workers::run(threads, &mut task);
        check_chained(&task, &expected);
        let mut task = unchanged_half_sized::create_task(mask, &input, unchanged_half_sized::create_temp(16), vec![0; 16]);
        Workers::run(threads, &mut task);
        check_chained(&task, &expected);
        let mut task = half_sized_blocks::init_single(mask, &input, half_sized_blocks::create_temp(), vec![0; 16]);
        Workers::run(threads, &mut task);
        check_chained(&task, &expected);
        let mut task = half_sized_variant::create_task(mask, &input, half_sized_variant::create_temp(16), vec![0; 16]);
        Workers::run(threads, &mut task);
        check_chained(&task, &expected);
        let mut task = our_half_sized_blocks::create_task(mask, &input, unchanged_half_sized::create_temp(16), vec![0; 16]);
        Workers::run(threads, &mut task);
        check_chained(&task, &expected);
        let mut task = reduce_then_scan::create_task(mask, &input, vec![0; 256], vec![0; 16]);
        Workers::run(threads, &mut task);
        assert_eq!((task.output_count, task.output[..task.output_count].to_vec()), expected);
        let mut task = scan_then_propagate::create_task(mask, &input, vec![0; 16], vec![0; 16]);
        Workers::run(threads, &mut task);
        assert_eq!((task.output_count, task.output[..task.output_count].to_vec()), expected);
        let mut task = our_reduce_then_scan::create_task(mask, &input, vec![0; 256], vec![0; 16]);
        Workers::run(threads, &mut task);
        assert_eq!((task.output_count, task.output[..task.output_count].to_vec()), expected);
        let mut task = our_scan_then_propagate::create_task(mask, &input, vec![0; 16], vec![0; 16]);
        Workers::run(threads, &mut task);
        assert_eq!((task.output_count, task.output[..task.output_count].to_vec()), expected);
    }
}

#[test]
fn ratio_eight_across_thread_counts() {
    let n = chained::BLOCK_SIZE * 64;
    let input = compact::create_input(n);
    let mask = 8 - 1;
    let expected = reference(mask, &input);
    assert!(expected.0 > 3);
    let mut triples = Vec::new();
    for threads in [1usize, 2, 4, 8, 16] {
        let mut task = chained::create_task(mask, &input, chained::create_temp(n), vec![0; n]);
        Workers::run(threads, &mut task);
        check_chained(&task, &expected);
        let count = task.output_count;
        triples.push((count, task.output[..3].to_vec(), task.output[count - 3..count].to_vec()));
        let mut task = our_half_sized_blocks::create_task(mask, &input, unchanged_half_sized::create_temp(n), vec![0; n]);
        Workers::run(threads, &mut task);
        check_chained(&task, &expected);
        let mut task = half_sized_variant::create_task(mask, &input, half_sized_variant::create_temp(n), vec![0; n]);
        Workers::run(threads, &mut task);
        check_chained(&task, &expected);
    }
    for triple in &triples {
        assert_eq!(triple, &triples[0]);
    }
}

#[test]
fn three_phase_compaction_matches_reference() {
    for n in [1usize, 7, 1024, 1025, 4097, 262144, 270001] {
        let input = compact::create_input(n);
        for ratio in [2u64, 8] {
            let mask = ratio - 1;
            let expected = reference(mask, &input);
            for threads in [1usize, 2, 5] {
                let schedule: Vec<usize> = (0..41).map(|t| (t * 3 + t / 5) % 7).collect();
                let mut task = reduce_then_scan::create_task(mask, &input, vec![9; 256], vec![0; n]);
                Workers::run_scheduled(threads, &mut task, &schedule);
                assert_eq!(task.output_count, expected.0);
                assert_eq!(&task.output[..expected.0], &expected.1[..]);
                let mut task = scan_then_propagate::create_task(mask, &input, vec![9; n], vec![0; n]);
                Workers::run_scheduled(threads, &mut task, &schedule);
                assert_eq!(task.output_count, expected.0);
                assert_eq!(&task.output[..expected.0], &expected.1[..]);
                let mut task = our_reduce_then_scan::create_task(mask, &input, vec![9; 256], vec![0; n]);
                Workers::run_scheduled(threads, &mut task, &schedule);
                assert_eq!(task.output_count, expected.0);
                assert_eq!(&task.output[..expected.0], &expected.1[..]);
                assert_eq!(task.phase1.conclusions, 1);
                let split = task.phase1.distribution.unwrap();
                assert_eq!(split.0, task.sequential_block_count);
                assert_eq!(split.0 as usize + split.1 as usize, task.block_count);
                if threads == 1 {
                    assert_eq!(task.sequential_block_count as usize, task.block_count);
                }
                let mut task = our_scan_then_propagate::create_task(mask, &input, vec![9; n], vec![0; n]);
                Workers::run_scheduled(threads, &mut task, &schedule);
                assert_eq!(task.output_count, expected.0);
                assert_eq!(&task.output[..expected.0], &expected.1[..]);
                assert_eq!(task.phase1.conclusions, 1);
                if threads == 1 {
                    assert_eq!(task.sequential_block_count as usize, task.block_count);
                }
            }
        }
    }
}

#[test]
fn empty_input_compaction() {
    let input: Vec<u64> = Vec::new();
    let mut task = reduce_then_scan::create_task(1, &input, Vec::new(), Vec::new());
    Workers::run(2, &mut task);
    assert_eq!(task.output_count, 0);
    let mut task = scan_then_propagate::create_task(1, &input, Vec::new(), Vec::new());
    Workers::run(2, &mut task);
    assert_eq!(task.output_count, 0);
    let mut task = chained::create_task(1, &input, chained::create_temp(0), Vec::new());
    Workers::run(2, &mut task);
    assert_eq!(task.output_count, 0);
}
