use workassisting_scan::runtime::workassisting_loop::{arrive, claim_parallel, claim_sequential, first_block, next_block, Claim, EmptySignal, LoopArguments};

fn arguments(first_index: u32, work_size: u32) -> LoopArguments {
    LoopArguments { first_index, work_size, empty_signal: EmptySignal::new() }
}

fn parts(claim: Claim) -> (Option<u32>, Option<(u32, u32)>) {
    (claim.block, claim.distribution)
}

#[test]
fn empty_signal_counts_once() {
    let mut signal = EmptySignal::new();
    assert!(!signal.signalled);
    assert!(signal.task_empty());
    assert!(signal.signalled);
    assert!(!signal.task_empty());
    assert!(signal.signalled);
}

#[test]
fn one_sided_worker_walks_the_counter() {
    let mut args = arguments(1, 4);
    let mut work_index: u32 = 2;
    assert_eq!(first_block(&mut args), Some(1));
    assert!(!args.empty_signal.signalled);
    assert_eq!(next_block(&mut args, &mut work_index), Some(2));
    assert_eq!(work_index, 3);
    assert!(!args.empty_signal.signalled);
    // The claim of the last block signals that the task is empty.
    assert_eq!(next_block(&mut args, &mut work_index), Some(3));
    assert_eq!(work_index, 4);
    assert!(args.empty_signal.signalled);
    assert_eq!(next_block(&mut args, &mut work_index), None);
    assert_eq!(work_index, 5);
    assert!(args.empty_signal.signalled);
}

#[test]
fn one_sided_reservation_beyond_the_task() {
    let mut args = arguments(5, 3);
    assert_eq!(first_block(&mut args), None);
    assert!(args.empty_signal.signalled);
    let mut args = arguments(2, 3);
    assert_eq!(first_block(&mut args), Some(2));
    assert!(args.empty_signal.signalled);
    let mut args = arguments(0, 0);
    assert_eq!(first_block(&mut args), None);
}

#[test]
fn one_sided_counter_wraps() {
    let mut args = arguments(0, 3);
    let mut work_index: u32 = u32::MAX;
    assert_eq!(next_block(&mut args, &mut work_index), None);
    assert_eq!(work_index, 0);
}

#[test]
fn arrival_makes_one_leader() {
    let mut work_index: u32 = 0;
    let mut leader = arguments(0, 5);
    let lead = arrive(&mut leader, &mut work_index);
    assert_eq!(lead.map(parts), Some((Some(0), None)));
    assert_eq!(work_index, 1);
    // A second worker with reservation 0 finds the counter touched.
    let mut late = arguments(0, 5);
    assert!(arrive(&mut late, &mut work_index).is_none());
    assert_eq!(work_index, 1);
    // Any other reservation makes a follower, even on an untouched counter.
    let mut untouched: u32 = 0;
    let mut follower = arguments(3, 5);
    assert!(arrive(&mut follower, &mut untouched).is_none());
    assert_eq!(untouched, 0);
}

#[test]
fn leader_of_a_single_block_concludes() {
    let mut work_index: u32 = 0;
    let mut leader = arguments(0, 1);
    let lead = arrive(&mut leader, &mut work_index);
    assert_eq!(lead.map(parts), Some((Some(0), Some((1, 0)))));
    assert!(leader.empty_signal.signalled);
    assert_eq!(parts(claim_sequential(&mut leader, &mut work_index)), (None, None));
    assert_eq!(work_index, 2);
    let mut follower = arguments(1, 1);
    assert_eq!(parts(claim_parallel(&mut follower, &mut work_index)), (None, None));
    assert_eq!(work_index, 2 + (1 << 16));
}

#[test]
fn two_sided_claims_meet_in_the_middle() {
    let work_size = 5;
    let mut work_index: u32 = 0;
    let mut leader = arguments(0, work_size);
    let mut follower = arguments(1, work_size);
    assert_eq!(arrive(&mut leader, &mut work_index).map(parts), Some((Some(0), None)));
    assert_eq!(parts(claim_parallel(&mut follower, &mut work_index)), (Some(4), None));
    assert_eq!(work_index, 1 + (1 << 16));
    assert_eq!(parts(claim_sequential(&mut leader, &mut work_index)), (Some(1), None));
    assert_eq!(work_index, 2 + (1 << 16));
    assert_eq!(parts(claim_parallel(&mut follower, &mut work_index)), (Some(3), None));
    assert_eq!(work_index, 2 + (2 << 16));
    // The leader takes the last block: three from the left, two from the right.
    assert_eq!(parts(claim_sequential(&mut leader, &mut work_index)), (Some(2), Some((3, 2))));
    assert!(leader.empty_signal.signalled);
    assert!(!follower.empty_signal.signalled);
    assert_eq!(parts(claim_parallel(&mut follower, &mut work_index)), (None, None));
    assert!(follower.empty_signal.signalled);
    assert_eq!(parts(claim_sequential(&mut leader, &mut work_index)), (None, None));
    assert_eq!(work_index, 4 + (3 << 16));
}

#[test]
fn follower_that_takes_the_last_block_reports_its_own_claim() {
    // One claim from the left and one from the right so far; three blocks.
    let mut work_index: u32 = 1 + (1 << 16);
    let mut follower = arguments(2, 3);
    let claim = claim_parallel(&mut follower, &mut work_index);
    assert_eq!(claim.block, Some(1));
    // The split counts the claim just made: two blocks from the right.
    assert_eq!(claim.distribution, Some((1, 2)));
    let split = claim.distribution.unwrap();
    assert_eq!(split.0 + split.1, 3);
    assert!(follower.empty_signal.signalled);
}

#[test]
fn followers_alone_take_every_block_but_the_first() {
    let work_size = 4;
    let mut work_index: u32 = 0;
    let mut leader = arguments(0, work_size);
    arrive(&mut leader, &mut work_index);
    let mut follower = arguments(1, work_size);
    assert_eq!(parts(claim_parallel(&mut follower, &mut work_index)), (Some(3), None));
    assert_eq!(parts(claim_parallel(&mut follower, &mut work_index)), (Some(2), None));
    assert_eq!(parts(claim_parallel(&mut follower, &mut work_index)), (Some(1), Some((1, 3))));
    assert_eq!(parts(claim_parallel(&mut follower, &mut work_index)), (None, None));
}
