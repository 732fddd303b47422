use web_server::thread_pool::{Assignment, PoolError, ThreadPool, WorkerState};

#[test]
fn new_pool_has_idle_workers_and_no_jobs() {
    let pool: ThreadPool<u32> = ThreadPool::new(3);
    assert_eq!(pool.size(), 3);
    assert!(pool.is_open());
    assert_eq!(pool.queued(), 0);
    assert_eq!(pool.running(), 0);
    assert!(!pool.is_terminated());
    for worker in 0..3 {
        assert_eq!(pool.worker_state(worker), Some(WorkerState::Idle));
    }
    assert_eq!(pool.worker_state(3), None);
}

#[test]
fn jobs_are_handed_out_oldest_first() {
    let mut pool: ThreadPool<&str> = ThreadPool::new(2);
    assert_eq!(pool.execute("a"), Ok(()));
    assert_eq!(pool.execute("b"), Ok(()));
    assert_eq!(pool.execute("c"), Ok(()));
    assert_eq!(pool.queued(), 3);
    assert!(matches!(pool.poll(1), Assignment::Run("a")));
    assert!(matches!(pool.poll(0), Assignment::Run("b")));
    assert_eq!(pool.queued(), 1);
    assert_eq!(pool.worker_state(0), Some(WorkerState::Running));
    assert_eq!(pool.worker_state(1), Some(WorkerState::Running));
    pool.finish(1);
    assert_eq!(pool.worker_state(1), Some(WorkerState::Idle));
    assert!(matches!(pool.poll(1), Assignment::Run("c")));
    assert_eq!(pool.queued(), 0);
}

#[test]
fn idle_worker_waits_when_no_job_is_queued() {
    let mut pool: ThreadPool<u32> = ThreadPool::new(1);
    assert!(matches!(pool.poll(0), Assignment::Wait));
    assert_eq!(pool.worker_state(0), Some(WorkerState::Idle));
}

#[test]
fn running_worker_gets_no_second_job() {
    let mut pool: ThreadPool<u32> = ThreadPool::new(1);
    pool.execute(1).unwrap();
    pool.execute(2).unwrap();
    assert!(matches!(pool.poll(0), Assignment::Run(1)));
    assert!(matches!(pool.poll(0), Assignment::Wait));
    assert_eq!(pool.queued(), 1);
    assert_eq!(pool.running(), 1);
}

#[test]
fn no_more_jobs_run_than_there_are_workers() {
    let size = 3;
    let mut pool: ThreadPool<u32> = ThreadPool::new(size);
    for job in 0..10 {
        pool.execute(job).unwrap();
    }
    let mut started = Vec::new();
    for round in 0..4 {
        for worker in 0..size + 2 {
            if let Assignment::Run(job) = pool.poll(worker) {
                started.push(job);
            }
            assert!(pool.running() <= size);
        }
        assert_eq!(pool.running(), (10 - round * size).min(size));
        for worker in 0..size {
            pool.finish(worker);
        }
        assert_eq!(pool.running(), 0);
    }
    assert_eq!(started, (0..10).collect::<Vec<u32>>());
    assert_eq!(pool.queued(), 0);
}

#[test]
fn submit_after_shutdown_is_refused() {
    let mut pool: ThreadPool<u32> = ThreadPool::new(2);
    pool.execute(1).unwrap();
    pool.shutdown();
    assert_eq!(pool.execute(2), Err(PoolError::PoolClosed));
    assert_eq!(pool.queued(), 0);
    assert!(!pool.is_open());
    for worker in 0..2 {
        pool.poll(worker);
        pool.finish(worker);
    }
    assert_eq!(pool.execute(3), Err(PoolError::PoolClosed));
    pool.shutdown();
    assert_eq!(pool.execute(4), Err(PoolError::PoolClosed));
}

#[test]
fn shutdown_drops_the_jobs_that_wait() {
    let mut pool: ThreadPool<u32> = ThreadPool::new(1);
    for job in 0..5 {
        pool.execute(job).unwrap();
    }
    assert!(matches!(pool.poll(0), Assignment::Run(0)));
    assert_eq!(pool.shutdown(), 4);
    assert_eq!(pool.queued(), 0);
    assert_eq!(pool.worker_state(0), Some(WorkerState::Running));
    pool.finish(0);
    assert!(matches!(pool.poll(0), Assignment::Stop));
    assert_eq!(pool.shutdown(), 0);
}

#[test]
fn worker_ends_its_job_before_it_stops() {
    let mut pool: ThreadPool<u32> = ThreadPool::new(2);
    pool.execute(1).unwrap();
    assert!(matches!(pool.poll(0), Assignment::Run(1)));
    pool.shutdown();
    assert!(matches!(pool.poll(0), Assignment::Wait));
    assert_eq!(pool.worker_state(0), Some(WorkerState::Running));
    assert!(matches!(pool.poll(1), Assignment::Stop));
    assert_eq!(pool.worker_state(1), Some(WorkerState::Stopped));
    assert!(!pool.is_terminated());
    pool.finish(0);
    assert_eq!(pool.worker_state(0), Some(WorkerState::Idle));
    assert!(matches!(pool.poll(0), Assignment::Stop));
    assert!(pool.is_terminated());
}

#[test]
fn shutdown_of_an_idle_pool_terminates() {
    let mut pool: ThreadPool<u32> = ThreadPool::new(4);
    assert_eq!(pool.shutdown(), 0);
    for worker in 0..4 {
        assert!(matches!(pool.poll(worker), Assignment::Stop));
    }
    assert!(pool.is_terminated());
    assert_eq!(pool.running(), 0);
}

#[test]
fn stopped_worker_stays_stopped() {
    let mut pool: ThreadPool<u32> = ThreadPool::new(1);
    pool.shutdown();
    assert!(matches!(pool.poll(0), Assignment::Stop));
    pool.finish(0);
    assert_eq!(pool.worker_state(0), Some(WorkerState::Stopped));
    assert!(matches!(pool.poll(0), Assignment::Stop));
}

#[test]
fn unknown_worker_is_told_to_stop() {
    let mut pool: ThreadPool<u32> = ThreadPool::new(1);
    pool.execute(1).unwrap();
    assert!(matches!(pool.poll(5), Assignment::Stop));
    pool.finish(5);
    pool.retire(5);
    assert_eq!(pool.queued(), 1);
    assert_eq!(pool.size(), 1);
}

#[test]
fn retired_worker_takes_no_jobs() {
    let mut pool: ThreadPool<u32> = ThreadPool::new(2);
    pool.retire(1);
    assert_eq!(pool.worker_state(1), Some(WorkerState::Stopped));
    pool.execute(9).unwrap();
    assert!(matches!(pool.poll(1), Assignment::Stop));
    assert_eq!(pool.queued(), 1);
    assert!(matches!(pool.poll(0), Assignment::Run(9)));
    pool.retire(0);
    assert_eq!(pool.worker_state(0), Some(WorkerState::Running));
}

#[test]
fn finish_changes_only_a_running_worker() {
    let mut pool: ThreadPool<u32> = ThreadPool::new(2);
    pool.finish(0);
    assert_eq!(pool.worker_state(0), Some(WorkerState::Idle));
    pool.execute(1).unwrap();
    assert!(matches!(pool.poll(0), Assignment::Run(1)));
    pool.finish(1);
    assert_eq!(pool.worker_state(0), Some(WorkerState::Running));
    assert_eq!(pool.worker_state(1), Some(WorkerState::Idle));
}

#[test]
fn pool_of_one_serves_all_jobs_in_order() {
    let mut pool: ThreadPool<String> = ThreadPool::new(1);
    let jobs = ["first", "second", "third"];
    for job in jobs {
        pool.execute(job.to_string()).unwrap();
    }
    let mut served = Vec::new();
    while let Assignment::Run(job) = pool.poll(0) {
        served.push(job);
        pool.finish(0);
    }
    assert_eq!(served, jobs);
    assert_eq!(pool.queued(), 0);
}
