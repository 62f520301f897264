use wfwalk::limiter::{prune_history, next_slot, Runner, SubmitError};

#[test]
fn immediate_admission() {
    let mut r = Runner::new(3, 60_000);
    assert_eq!(Ok(0), r.submit(1, 0));
    assert_eq!(Ok(0), r.submit(2, 0));
    assert_eq!(Ok(0), r.submit(3, 0));
    assert_eq!(vec![1, 2, 3], r.due_jobs(0));
}

#[test]
fn forced_delay() {
    let mut r = Runner::new(2, 5_000);
    assert_eq!(Ok(0), r.submit(1, 0));
    assert_eq!(Ok(0), r.submit(2, 0));
    assert_eq!(Ok(5_000), r.submit(3, 1_000));
    assert_eq!(vec![1, 2], r.due_jobs(1_000));
    assert_eq!(Some(5_000), r.next_wakeup());
    assert_eq!(Vec::<u64>::new(), r.due_jobs(4_999));
    assert_eq!(vec![3], r.due_jobs(5_000));
    assert_eq!(None, r.next_wakeup());
}

#[test]
fn pruned_history() {
    let mut r = Runner::new(2, 5_000);
    assert_eq!(Ok(0), r.submit(1, 0));
    assert_eq!(Ok(6_000), r.submit(2, 6_000));
}

#[test]
fn shutdown_discards_pending() {
    let mut r = Runner::new(1, 5_000);
    assert_eq!(Ok(0), r.submit(1, 0));
    assert_eq!(Ok(5_000), r.submit(2, 0));
    assert_eq!(vec![1], r.due_jobs(0));
    assert_eq!(Ok(vec![2]), r.shutdown());
    assert_eq!(Vec::<u64>::new(), r.due_jobs(6_000));
    assert!(!r.is_running());
}

#[test]
fn shutdown_twice_and_submit_after_are_closed() {
    let mut r = Runner::new(2, 5_000);
    assert_eq!(Ok(vec![]), r.shutdown());
    assert_eq!(Err(SubmitError::Closed), r.shutdown());
    assert_eq!(Err(SubmitError::Closed), r.submit(1, 10));
    assert_eq!(Err(SubmitError::Closed), r.shutdown());
}

#[test]
fn burst_never_exceeds_the_ceiling() {
    let mut r = Runner::new(2, 5_000);
    let mut instants = Vec::new();
    for job in 0..10u64 {
        instants.push(r.submit(job, 0).unwrap());
    }
    assert_eq!(
        vec![0, 0, 5_000, 5_000, 10_000, 10_000, 15_000, 15_000, 20_000, 20_000],
        instants
    );
    for t in 0..25_000u64 {
        let in_window = instants.iter().filter(|&&x| t <= x && x < t + 5_000).count();
        assert!(in_window <= 2);
    }
}

#[test]
fn slots_do_not_decrease() {
    let mut r = Runner::new(3, 1_000);
    let mut last = 0;
    for (job, now) in [(1u64, 0u64), (2, 10), (3, 20), (4, 30), (5, 900), (6, 1_500), (7, 1_500)] {
        let at = r.submit(job, now).unwrap();
        assert!(at >= last);
        assert!(at >= now);
        last = at;
    }
}

#[test]
fn clock_reading_going_back_counts_as_the_last_one() {
    let mut r = Runner::new(1, 100);
    assert_eq!(Ok(50), r.submit(1, 50));
    assert_eq!(Ok(150), r.submit(2, 10));
}

#[test]
fn admission_beyond_the_clock_range_is_refused() {
    let mut r = Runner::new(1, u64::MAX);
    assert_eq!(Ok(5), r.submit(1, 5));
    assert_eq!(Err(SubmitError::OutOfRange), r.submit(2, 6));
    assert_eq!(Some(5), r.next_wakeup());
}

#[test]
fn prune_keeps_entries_inside_the_window() {
    assert_eq!(vec![6, 9], prune_history(&vec![1, 5, 6, 9], 10, 5));
    assert_eq!(vec![1, 2], prune_history(&vec![1, 2], 3, 5));
}

#[test]
fn next_slot_waits_for_the_nth_latest() {
    assert_eq!(Some(7), next_slot(&vec![1], 7, 2, 5));
    assert_eq!(Some(11), next_slot(&vec![4, 6, 8], 7, 2, 5));
    assert_eq!(None, next_slot(&vec![u64::MAX], 7, 1, 5));
}
