use workpool::pool::{Fetch, Phase, Pool, PoolError};

/// Drives every worker until the whole pool has terminated, recording
/// each handed ticket; `fail_tickets` lists jobs whose run raises a
/// failure.
fn run_to_completion(pool: &mut Pool, fail_tickets: &[u64]) {
    loop {
        let mut progressed = false;
        for w in 0..pool.workers.len() {
            match pool.workers[w] {
                Phase::Waiting => match pool.fetch(w) {
                    Fetch::Handed(job) => {
                        progressed = true;
                        let failed = fail_tickets.contains(&job);
                        pool.finish(w, failed);
                    }
                    Fetch::Closed => {
                        progressed = true;
                    }
                    Fetch::Pending => {}
                },
                Phase::Executing { .. } => {
                    pool.finish(w, false);
                    progressed = true;
                }
                Phase::Terminated => {}
            }
        }
        if pool.all_stopped() {
            break;
        }
        if !progressed {
            panic!("pool stopped making progress before shutdown completed");
        }
    }
}

#[test]
fn zero_workers_is_rejected() {
    match Pool::new(0) {
        Err(PoolError::ZeroWorkers) => {}
        _ => panic!("a zero-sized pool must be rejected"),
    }
}

#[test]
fn every_accepted_job_runs_exactly_once() {
    let mut pool = Pool::new(3).unwrap();
    for ticket in 1..=25u64 {
        pool.submit(ticket).unwrap();
    }
    pool.begin_shutdown();
    run_to_completion(&mut pool, &[]);

    assert_eq!(pool.executed.len(), 25);
    let mut done = pool.executed.clone();
    done.sort();
    let expected: Vec<u64> = (1..=25).collect();
    assert_eq!(done, expected);
}

#[test]
fn failing_job_does_not_kill_its_worker() {
    let mut pool = Pool::new(2).unwrap();
    pool.submit(7).unwrap(); // this one will fail
    pool.submit(8).unwrap();
    pool.submit(9).unwrap();
    pool.begin_shutdown();
    run_to_completion(&mut pool, &[7]);

    // the failing job is recorded, and the later jobs still ran
    assert_eq!(pool.failed, vec![7]);
    let mut done = pool.executed.clone();
    done.sort();
    assert_eq!(done, vec![7, 8, 9]);
}

#[test]
fn submit_after_shutdown_is_rejected_and_never_runs() {
    let mut pool = Pool::new(2).unwrap();
    pool.submit(1).unwrap();
    pool.begin_shutdown();

    match pool.submit(99) {
        Err(PoolError::SubmissionRejected) => {}
        _ => panic!("submission after shutdown must be rejected"),
    }
    assert!(!pool.queue.contains(&99));

    run_to_completion(&mut pool, &[]);
    assert!(!pool.executed.contains(&99));
    assert_eq!(pool.executed, vec![1]);
}

#[test]
fn at_most_one_job_per_worker_is_in_flight() {
    let mut pool = Pool::new(2).unwrap();
    for ticket in 1..=6u64 {
        pool.submit(ticket).unwrap();
    }

    // hand a job to every worker without finishing any
    assert!(matches!(pool.fetch(0), Fetch::Handed(1)));
    assert!(matches!(pool.fetch(1), Fetch::Handed(2)));

    let executing = pool
        .workers
        .iter()
        .filter(|w| matches!(w, Phase::Executing { .. }))
        .count();
    assert_eq!(executing, 2);
    assert!(executing <= pool.workers.len());

    pool.finish(0, false);
    pool.finish(1, false);
    pool.begin_shutdown();
    run_to_completion(&mut pool, &[]);
    assert_eq!(pool.executed.len(), 6);
}

#[test]
fn single_worker_runs_jobs_in_submission_order() {
    let mut pool = Pool::new(1).unwrap();
    pool.submit(10).unwrap(); // A
    pool.submit(20).unwrap(); // B
    pool.begin_shutdown();
    run_to_completion(&mut pool, &[]);

    // strict FIFO at concurrency one: never B before A
    assert_eq!(pool.executed, vec![10, 20]);
}

#[test]
fn shutdown_is_terminal_and_drains_the_queue() {
    let mut pool = Pool::new(4).unwrap();
    for ticket in 1..=10u64 {
        pool.submit(ticket).unwrap();
    }
    pool.begin_shutdown();
    // closing twice changes nothing
    pool.begin_shutdown();
    run_to_completion(&mut pool, &[]);

    assert!(pool.all_stopped());
    assert!(pool.queue.is_empty());
    assert!(!pool.accepting);
    assert!(pool
        .workers
        .iter()
        .all(|w| matches!(w, Phase::Terminated)));
    assert_eq!(pool.executed.len(), 10);
}

#[test]
fn fetch_on_open_empty_queue_keeps_waiting() {
    let mut pool = Pool::new(1).unwrap();
    assert!(matches!(pool.fetch(0), Fetch::Pending));
    assert!(matches!(pool.workers[0], Phase::Waiting));
}
