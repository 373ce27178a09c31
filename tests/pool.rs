use rust_server::pool::{Action, PoolError, ThreadPool, WorkerState};

/// Lets worker `id` take its next job and run it at once; returns the job's
/// ticket, or `None` when it was told to wait or to exit.
fn step<J: FnOnce()>(pool: &mut ThreadPool<J>, id: usize) -> Option<u64> {
    match pool.next_job(id) {
        Action::Run(t, job) => {
            job();
            pool.finish(id, false);
            Some(t)
        }
        Action::Wait | Action::Exit => None,
    }
}

/// Shuts the pool down and lets the workers drain the queue round-robin.
fn drain<J: FnOnce()>(pool: &mut ThreadPool<J>) {
    pool.shutdown();
    while !pool.is_drained() {
        for id in 0..pool.size() {
            if pool.worker_state(id) == WorkerState::Waiting {
                step(pool, id);
            }
        }
    }
}

#[test]
fn zero_size_is_refused() {
    let r: Result<ThreadPool<u8>, PoolError> = ThreadPool::new(0);
    assert_eq!(r.err(), Some(PoolError::ZeroSize));
}

#[test]
fn new_pool_has_exactly_size_waiting_workers() {
    for k in [1usize, 2, 4, 8] {
        let pool: ThreadPool<u8> = ThreadPool::new(k).unwrap();
        assert_eq!(pool.size(), k);
        for id in 0..k {
            assert_eq!(pool.worker_state(id), WorkerState::Waiting);
        }
        assert!(pool.is_accepting());
        assert!(!pool.is_drained());
    }
}

#[test]
fn tickets_follow_submission_order() {
    let mut pool: ThreadPool<&str> = ThreadPool::new(3).unwrap();
    assert_eq!(pool.execute("a"), Ok(0));
    assert_eq!(pool.execute("b"), Ok(1));
    assert_eq!(pool.execute("c"), Ok(2));
    assert_eq!(pool.queued_count(), 3);
    match pool.next_job(2) {
        Action::Run(t, j) => {
            assert_eq!(t, 0);
            assert_eq!(j, "a");
        }
        _ => panic!("expected a job"),
    }
    assert_eq!(pool.worker_state(2), WorkerState::Executing(0));
    match pool.next_job(0) {
        Action::Run(t, j) => {
            assert_eq!(t, 1);
            assert_eq!(j, "b");
        }
        _ => panic!("expected a job"),
    }
    assert_eq!(pool.queued_count(), 1);
}

#[test]
fn empty_open_queue_means_wait() {
    let mut pool: ThreadPool<u8> = ThreadPool::new(2).unwrap();
    assert!(matches!(pool.next_job(0), Action::Wait));
    assert_eq!(pool.worker_state(0), WorkerState::Waiting);
}

#[test]
fn submit_after_shutdown_is_refused() {
    let mut pool: ThreadPool<u8> = ThreadPool::new(2).unwrap();
    assert_eq!(pool.execute(1), Ok(0));
    pool.shutdown();
    assert!(!pool.is_accepting());
    assert_eq!(pool.execute(2), Err(PoolError::ShutDown));
    assert_eq!(pool.submitted_count(), 1);
    assert_eq!(pool.queued_count(), 1);
}

#[test]
fn queued_jobs_still_run_after_shutdown() {
    let mut pool: ThreadPool<u8> = ThreadPool::new(1).unwrap();
    pool.execute(7).unwrap();
    pool.shutdown();
    match pool.next_job(0) {
        Action::Run(t, j) => {
            assert_eq!((t, j), (0, 7));
        }
        _ => panic!("a queued job must still be handed out"),
    }
    pool.finish(0, false);
    assert!(matches!(pool.next_job(0), Action::Exit));
    assert_eq!(pool.worker_state(0), WorkerState::Terminated);
    assert!(pool.is_drained());
    assert_eq!(pool.completed(), vec![0]);
}

#[test]
fn shutdown_of_idle_pool_terminates_every_worker() {
    let mut pool: ThreadPool<Box<dyn FnOnce()>> = ThreadPool::new(4).unwrap();
    drain(&mut pool);
    for id in 0..4 {
        assert_eq!(pool.worker_state(id), WorkerState::Terminated);
    }
    assert!(pool.completed().is_empty());
}

#[test]
fn three_jobs_on_two_workers_log_a_permutation() {
    let log = std::cell::RefCell::new(Vec::new());
    let mut pool: ThreadPool<Box<dyn FnOnce() + '_>> = ThreadPool::new(2).unwrap();
    for name in ['A', 'B', 'C'] {
        let log = &log;
        pool.execute(Box::new(move || log.borrow_mut().push(name))).unwrap();
    }
    // worker 1 takes A, worker 0 takes B and returns first, then C
    let a = match pool.next_job(1) {
        Action::Run(_, j) => j,
        _ => panic!("expected a job"),
    };
    assert_eq!(step(&mut pool, 0), Some(1));
    a();
    pool.finish(1, false);
    drain(&mut pool);
    let mut got = log.borrow().clone();
    assert_eq!(got.len(), 3);
    assert_eq!(got, vec!['B', 'A', 'C']);
    got.sort();
    assert_eq!(got, vec!['A', 'B', 'C']);
    assert_eq!(pool.completed(), vec![1, 0, 2]);
}

#[test]
fn ten_thousand_increments_on_eight_workers() {
    let counter = std::cell::Cell::new(0u64);
    let mut pool: ThreadPool<Box<dyn FnOnce() + '_>> = ThreadPool::new(8).unwrap();
    for _ in 0..10_000 {
        let c = &counter;
        pool.execute(Box::new(move || c.set(c.get() + 1))).unwrap();
    }
    drain(&mut pool);
    assert_eq!(counter.get(), 10_000);
    let mut done = pool.completed();
    assert_eq!(done.len(), 10_000);
    done.sort();
    assert_eq!(done, (0..10_000).collect::<Vec<u64>>());
}

#[test]
fn single_worker_completes_in_submission_order() {
    let mut pool: ThreadPool<u32> = ThreadPool::new(1).unwrap();
    for x in 0..50 {
        pool.execute(x).unwrap();
    }
    let mut seen = Vec::new();
    pool.shutdown();
    loop {
        match pool.next_job(0) {
            Action::Run(_, x) => {
                seen.push(x);
                pool.finish(0, false);
            }
            Action::Wait => panic!("a closed queue never asks to wait"),
            Action::Exit => break,
        }
    }
    assert_eq!(seen, (0..50).collect::<Vec<u32>>());
    assert_eq!(pool.completed(), (0..50).collect::<Vec<u64>>());
}

#[test]
fn a_faulting_job_does_not_stop_its_siblings() {
    let mut pool: ThreadPool<bool> = ThreadPool::new(1).unwrap();
    for fails in [false, true, false] {
        pool.execute(fails).unwrap();
    }
    pool.shutdown();
    loop {
        match pool.next_job(0) {
            Action::Run(_, fails) => pool.finish(0, fails),
            Action::Wait => panic!("a closed queue never asks to wait"),
            Action::Exit => break,
        }
    }
    assert_eq!(pool.completed(), vec![0, 1, 2]);
    assert_eq!(pool.faulted(), vec![1]);
    assert!(pool.is_drained());
}
