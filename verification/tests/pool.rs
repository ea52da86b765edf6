use web_server_rust::pool::PoolError;
use web_server_rust::pool::SubmitError;
use web_server_rust::pool::ThreadPool;
use web_server_rust::pool::WorkerStep;
use web_server_rust::worker::WorkerPhase;

#[test]
fn new_spawns_all_workers() {
    let mut n: usize = 1;
    while n <= 4 {
        let pool = ThreadPool::new(n).unwrap();
        assert_eq!(pool.worker_count(), n);
        assert!(pool.is_accepting());
        assert_eq!(pool.submitted_count(), 0);
        assert_eq!(pool.pending_count(), 0);
        assert_eq!(pool.executed_count(), 0);
        let mut w: usize = 0;
        while w < n {
            let worker = pool.worker(w);
            assert_eq!(worker.id, w);
            assert!(worker.handle_present);
            assert!(matches!(worker.phase, WorkerPhase::Idle));
            w += 1;
        }
        n += 1;
    }
}

#[test]
fn new_with_zero_workers_fails() {
    assert!(matches!(ThreadPool::new(0), Err(PoolError::ZeroWorkers)));
}

#[test]
fn execute_assigns_submission_order_ids() {
    let mut pool = ThreadPool::new(1).unwrap();
    let a = pool.execute().unwrap();
    let b = pool.execute().unwrap();
    let c = pool.execute().unwrap();
    assert_eq!(a.id, 0);
    assert_eq!(b.id, 1);
    assert_eq!(c.id, 2);
    assert_eq!(pool.submitted_count(), 3);
    assert_eq!(pool.pending_count(), 3);
}

#[test]
fn every_job_runs_exactly_once_after_drain() {
    let mut pool = ThreadPool::new(2).unwrap();
    let total: u64 = 5;
    let mut k: u64 = 0;
    while k < total {
        pool.execute().unwrap();
        k += 1;
    }
    // Interleave the two workers in no particular discipline.
    assert!(matches!(pool.poll(0), WorkerStep::Run(_)));
    assert!(matches!(pool.poll(1), WorkerStep::Run(_)));
    pool.finish(1);
    assert!(matches!(pool.poll(1), WorkerStep::Run(_)));
    pool.finish(0);
    pool.finish(1);
    assert!(matches!(pool.poll(1), WorkerStep::Run(_)));
    assert!(matches!(pool.poll(0), WorkerStep::Run(_)));
    pool.finish(0);
    pool.finish(1);
    pool.close();
    assert!(matches!(pool.poll(0), WorkerStep::Stop));
    assert!(matches!(pool.poll(1), WorkerStep::Stop));
    pool.join(0);
    pool.join(1);
    assert!(pool.is_shut_down());
    // Exactly once each: the record holds every id a single time.
    assert_eq!(pool.executed_count(), total as usize);
    let mut id: u64 = 0;
    while id < total {
        let mut seen: usize = 0;
        let mut i: usize = 0;
        while i < pool.executed_count() {
            if pool.executed_at(i).id == id {
                seen += 1;
            }
            i += 1;
        }
        assert_eq!(seen, 1);
        id += 1;
    }
}

#[test]
fn empty_pool_shuts_down_cleanly() {
    let mut pool = ThreadPool::new(1).unwrap();
    pool.close();
    assert!(!pool.is_shut_down());
    assert!(matches!(pool.poll(0), WorkerStep::Stop));
    assert!(!pool.is_shut_down());
    pool.join(0);
    assert!(pool.is_shut_down());
    assert_eq!(pool.executed_count(), 0);
}

#[test]
fn two_workers_hold_jobs_concurrently() {
    let mut pool = ThreadPool::new(2).unwrap();
    pool.execute().unwrap();
    pool.execute().unwrap();
    pool.execute().unwrap();
    let first = pool.poll(0);
    let second = pool.poll(1);
    assert!(matches!(first, WorkerStep::Run(j) if j.id == 0));
    assert!(matches!(second, WorkerStep::Run(j) if j.id == 1));
    // Both workers are mid-job at the same moment; the third job waits.
    assert!(matches!(pool.worker(0).phase, WorkerPhase::Executing(j) if j.id == 0));
    assert!(matches!(pool.worker(1).phase, WorkerPhase::Executing(j) if j.id == 1));
    assert_eq!(pool.pending_count(), 1);
}

#[test]
fn shutdown_waits_for_inflight_job() {
    let mut pool = ThreadPool::new(1).unwrap();
    pool.execute().unwrap();
    assert!(matches!(pool.poll(0), WorkerStep::Run(_)));
    pool.close();
    // The dequeued job still runs: shutdown cannot be complete.
    assert!(!pool.is_shut_down());
    pool.finish(0);
    assert!(!pool.is_shut_down());
    assert!(matches!(pool.poll(0), WorkerStep::Stop));
    assert!(!pool.is_shut_down());
    pool.join(0);
    assert!(pool.is_shut_down());
    assert_eq!(pool.executed_count(), 1);
}

#[test]
fn submit_after_shutdown_rejected() {
    let mut pool = ThreadPool::new(2).unwrap();
    pool.execute().unwrap();
    pool.close();
    assert!(matches!(pool.execute(), Err(SubmitError::ShutDown)));
    // The refused submission left no trace; the accepted one is intact.
    assert_eq!(pool.submitted_count(), 1);
    assert_eq!(pool.pending_count(), 1);
}

#[test]
fn single_worker_runs_jobs_in_submission_order() {
    let mut pool = ThreadPool::new(1).unwrap();
    let total: u64 = 4;
    let mut k: u64 = 0;
    while k < total {
        pool.execute().unwrap();
        k += 1;
    }
    let mut expected: u64 = 0;
    while expected < total {
        match pool.poll(0) {
            WorkerStep::Run(j) => {
                assert_eq!(j.id, expected);
                pool.finish(0);
            }
            _ => panic!("a queued job was not handed out"),
        }
        expected += 1;
    }
    let mut i: usize = 0;
    while i < pool.executed_count() {
        assert_eq!(pool.executed_at(i).id, i as u64);
        i += 1;
    }
}

#[test]
fn idle_worker_waits_while_queue_open_and_empty() {
    let mut pool = ThreadPool::new(1).unwrap();
    assert!(matches!(pool.poll(0), WorkerStep::Wait));
    assert!(pool.is_accepting());
    assert!(matches!(pool.worker(0).phase, WorkerPhase::Idle));
}
