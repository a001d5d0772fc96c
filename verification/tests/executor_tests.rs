use bastion_core::executor::{Executor, WorkerAction};
use bastion_core::queue::{Injector, RunQueue, Steal};
use bastion_core::stats::LoadStats;

// Run queues: owner end is last in, first out; the steal end is oldest first.

#[test]
fn run_queue_pops_lifo() {
    let mut q: RunQueue<u64> = RunQueue::new();
    q.push(1);
    q.push(2);
    q.push(3);
    assert_eq!(q.pop(), Some(3));
    assert_eq!(q.pop(), Some(2));
    assert_eq!(q.pop(), Some(1));
    assert_eq!(q.pop(), None);
}

#[test]
fn steal_takes_oldest_half() {
    let mut victim: RunQueue<u64> = RunQueue::new();
    let mut thief: RunQueue<u64> = RunQueue::new();
    for t in 1..=4u64 {
        victim.push(t);
    }
    // Half of four is two: the oldest is returned, the next goes to the thief.
    match victim.steal_batch_and_pop(&mut thief) {
        Steal::Success(t) => assert_eq!(t, 1),
        _ => panic!("steal from a loaded queue must succeed"),
    }
    assert_eq!(victim.len(), 2);
    assert_eq!(thief.len(), 1);
    assert_eq!(thief.pop(), Some(2));
}

#[test]
fn steal_with_amount_is_capped() {
    let mut victim: RunQueue<u64> = RunQueue::new();
    let mut thief: RunQueue<u64> = RunQueue::new();
    victim.push(7);
    victim.push(8);
    match victim.steal_batch_and_pop_with_amount(&mut thief, 10) {
        Steal::Success(t) => assert_eq!(t, 7),
        _ => panic!("steal from a loaded queue must succeed"),
    }
    assert_eq!(victim.len(), 0);
    assert_eq!(thief.pop(), Some(8));
}

#[test]
fn steal_on_empty_is_empty_not_retry() {
    let mut victim: RunQueue<u64> = RunQueue::new();
    let mut thief: RunQueue<u64> = RunQueue::new();
    let r = victim.steal_batch_and_pop(&mut thief);
    assert!(matches!(r, Steal::Empty));
    assert!(!r.is_retry());
    let mut inj: Injector<u64> = Injector::new();
    let r2 = inj.steal_batch_and_pop(&mut thief);
    assert!(matches!(r2, Steal::Empty));
    assert!(!r2.is_retry());
}

// Load statistics: the mean tracks every write.

#[test]
fn mean_is_arithmetic_mean_after_every_write() {
    let mut stats = LoadStats::new(2);
    assert_eq!(stats.mean(), 0);
    stats.publish(0, 10);
    assert_eq!(stats.mean(), 5);
    stats.publish(1, 4);
    assert_eq!(stats.mean(), 7);
    stats.publish(0, 0);
    assert_eq!(stats.mean(), 2);
}

// The executor's scheduling decisions.

#[test]
fn local_schedule_then_fetch_returns_that_task() {
    let mut ex: Executor<u64> = Executor::new(2);
    ex.schedule(42, Some(0));
    assert_eq!(ex.queue_len(0), 1);
    assert_eq!(ex.injector_len(), 0);
    assert_eq!(ex.fetch(0), Some(42));
    assert_eq!(ex.queue_len(0), 0);
}

#[test]
fn foreign_schedule_lands_on_injector_and_is_fetched() {
    let mut ex: Executor<u64> = Executor::new(2);
    ex.schedule(7, None);
    assert_eq!(ex.injector_len(), 1);
    assert_eq!(ex.queue_len(0), 0);
    assert_eq!(ex.queue_len(1), 0);
    assert_eq!(ex.fetch(1), Some(7));
    assert_eq!(ex.injector_len(), 0);
    assert_eq!(ex.queue_len(0), 0);
    assert_eq!(ex.queue_len(1), 0);
}

#[test]
fn published_mean_drives_batch_steal() {
    let mut ex: Executor<u64> = Executor::new(2);
    for t in 1..=10u64 {
        ex.schedule(t, Some(0));
    }
    ex.publish_depth(0);
    assert_eq!(ex.mean(), 5);
    // Worker 1 is empty, the injector is empty: its next acquisition steals
    // a batch of `mean` tasks from worker 0 and runs the first of them.
    assert_eq!(ex.fetch(1), Some(1));
    assert_eq!(ex.queue_len(0), 5);
    assert_eq!(ex.queue_len(1), 4);
}

#[test]
fn fetch_on_empty_executor_is_none() {
    let mut ex: Executor<u64> = Executor::new(3);
    assert_eq!(ex.fetch(0), None);
    assert_eq!(ex.fetch(2), None);
}

#[test]
fn fetch_prefers_local_queue() {
    let mut ex: Executor<u64> = Executor::new(2);
    ex.schedule(1, None);
    ex.schedule(2, Some(0));
    ex.schedule(3, Some(0));
    // Local work wins over the injector, last in first out.
    assert_eq!(ex.fetch(0), Some(3));
    assert_eq!(ex.fetch(0), Some(2));
    // Only then the injector is drained.
    assert_eq!(ex.fetch(0), Some(1));
    assert_eq!(ex.fetch(0), None);
}

#[test]
fn injector_precedes_stealing_from_peers() {
    let mut ex: Executor<u64> = Executor::new(2);
    ex.schedule(5, Some(0));
    ex.schedule(9, None);
    // Worker 1 takes from the injector before it steals from worker 0.
    assert_eq!(ex.fetch(1), Some(9));
    assert_eq!(ex.queue_len(0), 1);
}

#[test]
fn worker_step_runs_or_parks() {
    let mut ex: Executor<u64> = Executor::new(2);
    ex.schedule(11, Some(0));
    match ex.worker_step(0) {
        WorkerAction::Run(t) => assert_eq!(t, 11),
        WorkerAction::Park => panic!("a queued task must be run, not parked on"),
    }
    assert!(matches!(ex.worker_step(0), WorkerAction::Park));
    assert!(matches!(ex.worker_step(1), WorkerAction::Park));
}

#[test]
fn every_scheduled_task_is_fetched_exactly_once() {
    let mut ex: Executor<u64> = Executor::new(3);
    for t in 0..6u64 {
        ex.schedule(t, if t % 2 == 0 { None } else { Some((t % 3) as usize) });
    }
    let mut seen: Vec<u64> = Vec::new();
    for _ in 0..6 {
        match ex.fetch(((seen.len()) % 3) as usize) {
            Some(t) => seen.push(t),
            None => panic!("a task was lost"),
        }
    }
    assert_eq!(ex.fetch(0), None);
    seen.sort();
    assert_eq!(seen, vec![0, 1, 2, 3, 4, 5]);
}
