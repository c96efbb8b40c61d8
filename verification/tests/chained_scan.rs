use workassisting_scan::cases::scan;
use workassisting_scan::cases::scan::{chained, half_sized_blocks, half_sized_variant, no_lookback_chained, our_chained, our_half_sized_blocks, unchanged_half_sized};
use workassisting_scan::runtime::block::STATE_PREFIX_AVAILABLE;
use workassisting_scan::runtime::chained::Chained;
use workassisting_scan::runtime::worker::Workers;

fn sequential(input: &[u64]) -> Vec<u64> {
    let mut output = vec![0u64; input.len()];
    scan::scan_sequential(input, 0, &mut output);
    output
}

fn scrambled(n: usize) -> Vec<u64> {
    let mut input = vec![0u64; n];
    scan::fill(&mut input);
    input
}

fn check_finished(task: &Chained, expected: &[u64]) {
    assert!(task.done);
    assert_eq!(task.output, expected);
    let blocks = task.work_size as usize;
    for i in 0..blocks {
        assert_eq!(task.temp[i].state, STATE_PREFIX_AVAILABLE);
        assert_eq!(task.executions[i], 1);
    }
}

#[test]
fn scan_of_ones() {
    let input = vec![1u64; 8];
    assert_eq!(sequential(&input), vec![1, 2, 3, 4, 5, 6, 7, 8]);
    let mut task = chained::init_single(&input, chained::create_temp(), vec![0; 8]);
    Workers::run(3, &mut task);
    assert_eq!(task.output, vec![1, 2, 3, 4, 5, 6, 7, 8]);
}

#[test]
fn scan_of_counting() {
    let input: Vec<u64> = (0..8).collect();
    assert_eq!(sequential(&input), vec![0, 1, 3, 6, 10, 15, 21, 28]);
    let mut task = our_chained::init_single(&input, chained::create_temp(), vec![0; 8]);
    Workers::run(2, &mut task);
    assert_eq!(task.output, vec![0, 1, 3, 6, 10, 15, 21, 28]);
}

#[test]
fn chained_two_threads_matches_sequential() {
    let n = chained::BLOCK_SIZE * 8;
    let input = scrambled(n);
    let expected = sequential(&input);
    let mut task = chained::init_single(&input, chained::create_temp(), vec![0; n]);
    Workers::run(2, &mut task);
    assert_eq!(task.work_size, 8);
    check_finished(&task, &expected);
}

#[test]
fn every_scan_variant_matches_sequential() {
    let n = 4096 * 9 + 17;
    let input = scrambled(n);
    let expected = sequential(&input);
    for threads in [1usize, 2, 3, 5, 16] {
        let schedule: Vec<usize> = (0..97).map(|t| (t * 7 + t / 3) % 11).collect();
        let mut task = chained::init_single(&input, chained::create_temp(), vec![0; n]);
        Workers::run_scheduled(threads, &mut task, &schedule);
        check_finished(&task, &expected);
        let mut task = no_lookback_chained::init_single(&input, no_lookback_chained::create_temp(), vec![0; n]);
        Workers::run_scheduled(threads, &mut task, &schedule);
        check_finished(&task, &expected);
        let mut task = our_chained::init_single(&input, chained::create_temp(), vec![0; n]);
        Workers::run_scheduled(threads, &mut task, &schedule);
        check_finished(&task, &expected);
        let mut task = half_sized_blocks::init_single(&input, half_sized_blocks::create_temp(), vec![0; n]);
        Workers::run_scheduled(threads, &mut task, &schedule);
        check_finished(&task, &expected);
        let mut task = half_sized_variant::init_single(&input, half_sized_blocks::create_temp(), vec![0; n]);
        Workers::run_scheduled(threads, &mut task, &schedule);
        check_finished(&task, &expected);
        let mut task = our_half_sized_blocks::init_single(&input, half_sized_blocks::create_temp(), vec![0; n]);
        Workers::run_scheduled(threads, &mut task, &schedule);
        check_finished(&task, &expected);
        let mut task = unchanged_half_sized::init_single(&input, half_sized_blocks::create_temp(), vec![0; n]);
        Workers::run_scheduled(threads, &mut task, &schedule);
        check_finished(&task, &expected);
    }
}
