use workpool::pool::PoolError;
use workpool::pool::PoolPhase;
use workpool::pool::ThreadPool;
use workpool::pool::WorkerAction;
use workpool::pool::WorkerState;
use workpool::pool::worker_step;
use workpool::queue::JobQueue;
use workpool::queue::RecvOutcome;

#[test]
fn new_pool_spawns_size_idle_workers() {
    let p = ThreadPool::new(4);
    assert_eq!(p.size(), 4);
    for w in &p.workers {
        assert_eq!(*w, WorkerState::Idle);
    }
    assert_eq!(p.phase(), PoolPhase::Open);
    assert_eq!(p.executed.len(), 0);
    assert_eq!(p.queue.pending.len(), 0);
}

#[test]
fn single_worker_pool_is_live() {
    let p = ThreadPool::new(1);
    assert_eq!(p.size(), 1);
    assert_eq!(p.workers[0], WorkerState::Idle);
    assert_eq!(p.joined, 0);
}

#[test]
fn execute_assigns_identifiers_in_order() {
    let mut p = ThreadPool::new(2);
    assert_eq!(p.execute(), Ok(0));
    assert_eq!(p.execute(), Ok(1));
    assert_eq!(p.execute(), Ok(2));
    assert_eq!(p.queue.pending, vec![0, 1, 2]);
}

#[test]
fn execute_after_close_fails_loudly() {
    let mut p = ThreadPool::new(2);
    assert_eq!(p.execute(), Ok(0));
    p.close_intake();
    assert_eq!(p.execute(), Err(PoolError::ShutDown));
    // the refused job is not queued
    assert_eq!(p.queue.pending, vec![0]);
}

#[test]
fn deliver_hands_each_job_to_one_worker() {
    let mut p = ThreadPool::new(3);
    p.execute().unwrap();
    p.execute().unwrap();
    let j0 = p.deliver(0);
    let j1 = p.deliver(2);
    assert_eq!(j0, 0);
    assert_eq!(j1, 1);
    assert_eq!(p.workers[0], WorkerState::Running(0));
    assert_eq!(p.workers[1], WorkerState::Idle);
    assert_eq!(p.workers[2], WorkerState::Running(1));
    assert_eq!(p.queue.pending.len(), 0);
    assert_eq!(p.complete(2), 1);
    assert_eq!(p.complete(0), 0);
    assert_eq!(p.executed, vec![1, 0]);
}

#[test]
fn five_jobs_on_two_workers_all_logged_once() {
    let mut p = ThreadPool::new(2);
    for i in 0..5 {
        assert_eq!(p.execute(), Ok(i));
    }
    p.shutdown();
    // teardown returned, so all five jobs are in the log, each exactly once
    let mut log = p.executed.clone();
    log.sort();
    assert_eq!(log, vec![0, 1, 2, 3, 4]);
    assert_eq!(p.phase(), PoolPhase::Closed);
}

#[test]
fn many_producers_no_job_lost() {
    // jobs submitted from several producer call sites, outnumbering workers
    let mut p = ThreadPool::new(3);
    for _ in 0..4 {
        for _ in 0..5 {
            p.execute().unwrap();
        }
    }
    assert_eq!(p.queue.pending.len(), 20);
    p.shutdown();
    let mut log = p.executed.clone();
    log.sort();
    assert_eq!(log, (0..20).collect::<Vec<u64>>());
}

#[test]
fn single_worker_serializes_jobs() {
    let mut p = ThreadPool::new(1);
    // the first job takes long; the second is submitted while it would run
    assert_eq!(p.execute(), Ok(0));
    assert_eq!(p.execute(), Ok(1));
    p.shutdown();
    // the second job's effect is ordered after the first completes
    assert_eq!(p.executed, vec![0, 1]);
}

#[test]
fn immediate_shutdown_with_zero_jobs() {
    let mut p = ThreadPool::new(3);
    p.shutdown();
    assert_eq!(p.executed.len(), 0);
    assert_eq!(p.phase(), PoolPhase::Closed);
    assert_eq!(p.joined, 3);
    for w in &p.workers {
        assert_eq!(*w, WorkerState::Done);
    }
}

#[test]
fn shutdown_drains_in_flight_and_queued_jobs() {
    let mut p = ThreadPool::new(2);
    for _ in 0..6 {
        p.execute().unwrap();
    }
    // one job already completed, one currently running, four still queued
    let d = p.deliver(0);
    assert_eq!(p.complete(0), d);
    p.deliver(1);
    p.shutdown();
    let mut log = p.executed.clone();
    log.sort();
    assert_eq!(log, vec![0, 1, 2, 3, 4, 5]);
    assert_eq!(p.phase(), PoolPhase::Closed);
    assert_eq!(p.queue.pending.len(), 0);
}

#[test]
fn worker_loop_decisions() {
    assert_eq!(worker_step(RecvOutcome::Job(7)), WorkerAction::Run(7));
    assert_eq!(worker_step(RecvOutcome::Disconnected), WorkerAction::Stop);
}

#[test]
fn queue_is_fifo_and_close_is_observable() {
    let mut q = JobQueue::new();
    q.send(10).unwrap();
    q.send(11).unwrap();
    assert_eq!(q.recv(), RecvOutcome::Job(10));
    q.close();
    // a closed queue refuses new jobs but drains what is buffered
    assert!(q.send(12).is_err());
    assert_eq!(q.recv(), RecvOutcome::Job(11));
    assert_eq!(q.recv(), RecvOutcome::Disconnected);
    assert_eq!(q.recv(), RecvOutcome::Disconnected);
}
