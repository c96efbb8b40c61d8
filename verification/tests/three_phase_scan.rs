use workassisting_scan::cases::scan;
use workassisting_scan::cases::scan::our_reduce_then_scan;
use workassisting_scan::cases::scan::our_scan_then_propagate;
use workassisting_scan::cases::scan::scan_then_propagate;
use workassisting_scan::cases::scan::reduce_then_scan;
use workassisting_scan::runtime::worker::Workers;

fn scrambled_input(n: usize) -> Vec<u64> {
    let mut input = vec![0u64; n];
    scan::fill(&mut input);
    input
}

fn sequential_scan(input: &[u64]) -> Vec<u64> {
    let mut output = vec![0u64; input.len()];
    scan::scan_sequential(input, 0, &mut output);
    output
}

#[test]
fn reduce_then_scan_matches_sequential() {
    for n in [0usize, 1, 8, 1023, 1024, 1025, 5000, 262144, 300001] {
        let input = scrambled_input(n);
        let expected = sequential_scan(&input);
        for threads in [1usize, 2, 4, 7] {
            let mut task = reduce_then_scan::create_task(&input, vec![0; n]);
            Workers::run(threads, &mut task);
            assert_eq!(task.output, expected);
            assert!(task.phase == reduce_then_scan::Phase::Finished);
            assert_eq!(task.claims.executions, vec![1; task.block_count]);
            assert!(task.claims.workers.iter().all(|w| w.block.is_none() && w.arguments.empty_signal.signalled));
        }
    }
}

#[test]
fn reduce_then_scan_partition() {
    let input = scrambled_input(300001);
    let task = reduce_then_scan::create_task(&input, vec![0; 300001]);
    assert_eq!(task.block_size, 1172);
    assert_eq!(task.block_count, 256);
    let input = scrambled_input(5000);
    let task = reduce_then_scan::create_task(&input, vec![0; 5000]);
    assert_eq!(task.block_size, 1024);
    assert_eq!(task.block_count, 5);
}

#[test]
fn our_reduce_then_scan_matches_sequential() {
    for n in [1usize, 8, 1023, 1024, 1025, 5000, 262144, 300001] {
        let input = scrambled_input(n);
        let expected = sequential_scan(&input);
        for threads in [1usize, 2, 4, 7] {
            let schedule: Vec<usize> = (0..53).map(|t| (t * 5 + t / 4) % 9).collect();
            let mut task = our_reduce_then_scan::create_task(&input, vec![0; n], true);
            Workers::run_scheduled(threads, &mut task, &schedule);
            assert_eq!(task.output, expected);
            assert_eq!(task.phase1.conclusions, 1);
            assert_eq!(task.sequential_block_count as usize + task.parallel_block_count as usize, task.block_count);
            assert_eq!(task.phase1.distribution, Some((task.sequential_block_count, task.parallel_block_count)));
            assert_eq!(task.phase1.executions, vec![1; task.block_count]);
            assert_eq!(task.phase3.executions, vec![1; task.parallel_block_count as usize]);
            assert!(task.phase1.workers.iter().all(|w| w.finished && w.arguments.empty_signal.signalled));
            let leader_elements = (task.sequential_block_count as usize * task.block_size).min(n);
            assert_eq!(task.output_sequential_size, Some(leader_elements as u64));
            if threads == 1 {
                assert_eq!(task.sequential_block_count as usize, task.block_count);
            }
        }
    }
}

#[test]
fn single_element_two_sided() {
    let input = vec![42u64];
    let mut task = our_reduce_then_scan::create_task(&input, vec![0], false);
    Workers::run(3, &mut task);
    assert_eq!(task.output, vec![42]);
    assert_eq!(task.sequential_block_count, 1);
    assert_eq!(task.parallel_block_count, 0);
    assert_eq!(task.output_sequential_size, None);
}

#[test]
fn scan_then_propagate_matches_sequential() {
    for n in [0usize, 1, 8, 1023, 1024, 1025, 5000, 262144, 300001] {
        let input = scrambled_input(n);
        let expected = sequential_scan(&input);
        for threads in [1usize, 2, 4, 7] {
            let mut task = scan_then_propagate::create_task(&input, vec![7; n]);
            Workers::run(threads, &mut task);
            assert_eq!(task.output, expected);
        }
    }
}

#[test]
fn our_scan_then_propagate_matches_sequential() {
    for n in [1usize, 8, 1023, 1024, 1025, 5000, 262144, 300001] {
        let input = scrambled_input(n);
        let expected = sequential_scan(&input);
        for threads in [1usize, 2, 4, 7] {
            let schedule: Vec<usize> = (0..29).map(|t| (t * 11 + t / 2) % 13).collect();
            let mut task = our_scan_then_propagate::create_task(&input, vec![7; n], true);
            Workers::run_scheduled(threads, &mut task, &schedule);
            assert_eq!(task.output, expected);
            assert_eq!(task.phase1.conclusions, 1);
            assert_eq!(task.sequential_block_count as usize + task.parallel_block_count as usize, task.block_count);
            let leader_elements = (task.sequential_block_count as usize * task.block_size).min(n);
            assert_eq!(task.output_sequential_size, Some(leader_elements as u64));
            if threads == 1 {
                assert_eq!(task.sequential_block_count as usize, task.block_count);
            }
        }
    }
}

#[test]
fn followers_take_blocks_when_they_run_first() {
    let n = 1024 * 6;
    let input = scrambled_input(n);
    let expected = sequential_scan(&input);
    // Worker 1 takes every turn it can before the leader moves on.
    let schedule: Vec<usize> = vec![1];
    let mut task = our_reduce_then_scan::create_task(&input, vec![0; n], false);
    Workers::run_scheduled(2, &mut task, &schedule);
    assert_eq!(task.output, expected);
    assert_eq!(task.sequential_block_count, 1);
    assert_eq!(task.parallel_block_count, 5);
    let mut task = our_scan_then_propagate::create_task(&input, vec![0; n], false);
    Workers::run_scheduled(2, &mut task, &schedule);
    assert_eq!(task.output, expected);
    assert_eq!(task.sequential_block_count, 1);
    assert_eq!(task.parallel_block_count, 5);
}
