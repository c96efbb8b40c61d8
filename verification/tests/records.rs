use workassisting_scan::cases::scan;
use workassisting_scan::cases::scan::{chained, half_sized_blocks, half_sized_variant, no_lookback_chained, our_chained, our_half_sized_blocks};
use workassisting_scan::runtime::block::{create_records, reset_records, BlockInfo, STATE_AGGREGATE_AVAILABLE, STATE_INITIALIZED, STATE_PREFIX_AVAILABLE};
use workassisting_scan::runtime::chained::Chained;
use workassisting_scan::runtime::worker::{Job, Workers};

fn scrambled_values(n: usize) -> Vec<u64> {
    let mut input = vec![0u64; n];
    scan::fill(&mut input);
    input
}

fn expected_scan(input: &[u64]) -> Vec<u64> {
    let mut output = vec![0u64; input.len()];
    scan::scan_sequential(input, 0, &mut output);
    output
}

#[test]
fn records_start_and_reset_to_zero() {
    assert_eq!(STATE_INITIALIZED, 0);
    assert_eq!(STATE_AGGREGATE_AVAILABLE, 1);
    assert_eq!(STATE_PREFIX_AVAILABLE, 2);
    let mut temp = create_records(5);
    assert_eq!(temp.len(), 5);
    for record in temp.iter_mut() {
        assert_eq!((record.state, record.aggregate, record.prefix), (0, 0, 0));
        *record = BlockInfo { state: 2, aggregate: 17, prefix: 99 };
    }
    reset_records(&mut temp);
    assert!(temp.iter().all(|r| (r.state, r.aggregate, r.prefix) == (0, 0, 0)));
    assert_eq!(chained::create_temp().len(), 1024 * 1024 * 64 / 4096);
    assert_eq!(no_lookback_chained::create_temp().len(), 1024 * 1024 * 64 / 4096);
    assert_eq!(half_sized_blocks::create_temp().len(), 1024 * 1024 * 64 / 2048);
}

#[test]
fn running_twice_on_the_same_records() {
    let n = 2048 * 10 + 5;
    let input = scrambled_values(n);
    let expected = expected_scan(&input);
    let mut task = half_sized_blocks::init_single(&input, half_sized_blocks::create_temp(), vec![0; n]);
    Workers::run(3, &mut task);
    assert_eq!(task.output, expected);
    let used = task.temp;
    assert!(used[..11].iter().all(|r| r.state == STATE_PREFIX_AVAILABLE));
    let mut again = half_sized_blocks::init_single(&input, used, vec![1; n]);
    assert!(again.temp.iter().all(|r| (r.state, r.aggregate, r.prefix) == (0, 0, 0)));
    Workers::run(3, &mut again);
    assert_eq!(again.output, expected);
    let mut variant = half_sized_variant::init_single(&input, again.temp, vec![2; n]);
    Workers::run(2, &mut variant);
    assert_eq!(variant.output, expected);
}

#[test]
fn schedules_do_not_change_the_result() {
    let n = 4096 * 12 + 100;
    let input = scrambled_values(n);
    let expected = expected_scan(&input);
    let schedules: Vec<Vec<usize>> = vec![
        vec![],
        vec![0],
        vec![3],
        vec![3, 2, 1, 0],
        vec![1, 1, 1, 0, 2, 2, 3, 0, 0, 0, 0, 1],
        (0..200).map(|t| (t * t + 3 * t) % 5).collect(),
    ];
    for schedule in &schedules {
        for threads in [1usize, 2, 4] {
            let mut task = chained::init_single(&input, chained::create_temp(), vec![0; n]);
            Workers::run_scheduled(threads, &mut task, schedule);
            assert_eq!(task.output, expected);
            let mut task = our_half_sized_blocks::init_single(&input, half_sized_blocks::create_temp(), vec![0; n]);
            Workers::run_scheduled(threads, &mut task, schedule);
            assert_eq!(task.output, expected);
        }
    }
}

fn step_by_step(task: &mut Chained, threads: usize, pattern: &[usize]) -> usize {
    task.start(threads);
    let mut states: Vec<u64> = task.temp.iter().map(|r| r.state).collect();
    let mut turn = 0;
    let mut idle = 0;
    let mut bodies_seen = 0;
    while (0..threads).any(|w| !task.is_finished(w)) {
        let worker = pattern[turn % pattern.len()] % threads;
        turn += 1;
        if task.is_finished(worker) {
            continue;
        }
        let before: Vec<(u64, u64, u64)> = task.temp.iter().map(|r| (r.state, r.aggregate, r.prefix)).collect();
        let progress = task.step(worker);
        let after: Vec<(u64, u64, u64)> = task.temp.iter().map(|r| (r.state, r.aggregate, r.prefix)).collect();
        if !progress {
            idle += 1;
            assert_eq!(before, after);
        }
        for i in 0..states.len() {
            assert!(task.temp[i].state >= states[i]);
            assert!(task.temp[i].state <= STATE_PREFIX_AVAILABLE);
            states[i] = task.temp[i].state;
        }
        bodies_seen = task.executions.iter().map(|c| *c as usize).sum();
        assert!(task.executions.iter().all(|c| *c <= 1));
    }
    assert_eq!(bodies_seen, task.work_size as usize);
    assert!(!task.finish());
    idle
}

#[test]
fn records_only_advance() {
    let n = 4096 * 7 + 1;
    let input = scrambled_values(n);
    let expected = expected_scan(&input);
    let pattern = [2usize, 2, 1, 2, 0, 1, 1, 2, 0];
    let mut idle = 0;
    let mut task = chained::init_single(&input, chained::create_temp(), vec![0; n]);
    idle += step_by_step(&mut task, 3, &pattern);
    assert_eq!(task.output, expected);
    let mut task = no_lookback_chained::init_single(&input, no_lookback_chained::create_temp(), vec![0; n]);
    idle += step_by_step(&mut task, 3, &pattern);
    assert_eq!(task.output, expected);
    let mut task = our_chained::init_single(&input, chained::create_temp(), vec![0; n]);
    idle += step_by_step(&mut task, 3, &pattern);
    assert_eq!(task.output, expected);
    let mut task = half_sized_blocks::init_single(&input, half_sized_blocks::create_temp(), vec![0; n]);
    idle += step_by_step(&mut task, 3, &pattern);
    assert_eq!(task.output, expected);
    let mut task = half_sized_variant::init_single(&input, half_sized_blocks::create_temp(), vec![0; n]);
    idle += step_by_step(&mut task, 3, &pattern);
    assert_eq!(task.output, expected);
    // Worker 2 is scheduled first and has to wait for the blocks before its own.
    assert!(idle > 0);
}

#[test]
fn one_worker_never_waits() {
    let n = 4096 * 5;
    let input = scrambled_values(n);
    let mut task = our_chained::init_single(&input, chained::create_temp(), vec![0; n]);
    assert_eq!(step_by_step(&mut task, 1, &[0]), 0);
    // In sequential mode no block ever publishes a mere aggregate.
    assert!(task.temp[..5].iter().all(|r| r.aggregate == 0 && r.state == STATE_PREFIX_AVAILABLE));
    assert!(task.workers[0].sequential);
}

#[test]
fn more_workers_than_blocks() {
    let input = scrambled_values(10);
    let expected = expected_scan(&input);
    let mut task = chained::init_single(&input, chained::create_temp(), vec![0; 10]);
    Workers::run(8, &mut task);
    assert_eq!(task.output, expected);
    assert_eq!(task.executions, vec![1]);
    let empty: Vec<u64> = Vec::new();
    let mut task = chained::init_single(&empty, chained::create_temp(), Vec::new());
    Workers::run(4, &mut task);
    assert!(task.done);
    assert_eq!(task.work_size, 0);
}
