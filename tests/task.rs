use std::cell::Cell;
use std::rc::Rc;

use blog_os::task::{Executor, IdleAction, PollState, Pollable};

/// Completes on its first poll.
struct Immediate {
    polls: Rc<Cell<u32>>,
}

impl Pollable for Immediate {
    fn poll(&mut self, _id: u64) -> PollState {
        self.polls.set(self.polls.get() + 1);
        PollState::Ready
    }
}

/// Never completes.
struct Forever {
    polls: Rc<Cell<u32>>,
}

impl Pollable for Forever {
    fn poll(&mut self, _id: u64) -> PollState {
        self.polls.set(self.polls.get() + 1);
        PollState::Pending
    }
}

enum Job {
    Now(Immediate),
    Never(Forever),
}

impl Pollable for Job {
    fn poll(&mut self, id: u64) -> PollState {
        match self {
            Job::Now(t) => t.poll(id),
            Job::Never(t) => t.poll(id),
        }
    }
}

fn counter() -> Rc<Cell<u32>> {
    Rc::new(Cell::new(0))
}

#[test]
fn spawn_assigns_increasing_ids_and_queues() {
    let mut ex: Executor<Forever> = Executor::new();
    let a = ex.spawn(Forever { polls: counter() });
    let b = ex.spawn(Forever { polls: counter() });
    assert_eq!((a, b), (0, 1));
    assert_eq!(ex.ready_ids(), &vec![0, 1]);
    assert_eq!(ex.task_count(), 2);
}

#[test]
fn wake_before_spawn_is_noop() {
    let mut ex: Executor<Forever> = Executor::new();
    ex.wake(0);
    ex.wake(7);
    assert!(ex.ready_ids().is_empty());
    assert_eq!(ex.task_count(), 0);
    let id = ex.spawn(Forever { polls: counter() });
    assert_eq!(ex.ready_ids(), &vec![id]);
}

#[test]
fn double_wake_queues_once() {
    let polls = counter();
    let mut ex = Executor::new();
    let id = ex.spawn(Forever { polls: polls.clone() });
    ex.run_ready();
    assert_eq!(polls.get(), 1);
    assert!(ex.ready_ids().is_empty());
    ex.wake(id);
    ex.wake(id);
    assert_eq!(ex.ready_ids(), &vec![id]);
    ex.run_ready();
    assert_eq!(polls.get(), 2);
}

#[test]
fn completed_task_leaves_parked_task_stays() {
    let done = counter();
    let parked = counter();
    let mut ex = Executor::new();
    let first = ex.spawn(Job::Now(Immediate { polls: done.clone() }));
    let second = ex.spawn(Job::Never(Forever { polls: parked.clone() }));
    assert_eq!(ex.poll_next(), Some((first, PollState::Ready)));
    assert_eq!(ex.poll_next(), Some((second, PollState::Pending)));
    assert_eq!(ex.poll_next(), None);
    assert!(!ex.contains(first));
    assert!(ex.contains(second));
    ex.wake(first);
    assert!(ex.ready_ids().is_empty());
    ex.wake(second);
    assert_eq!(ex.poll_next(), Some((second, PollState::Pending)));
    assert_eq!(done.get(), 1);
    assert_eq!(parked.get(), 2);
}

#[test]
fn run_ready_drains_queue() {
    let done = counter();
    let parked = counter();
    let mut ex = Executor::new();
    ex.spawn(Job::Now(Immediate { polls: done.clone() }));
    ex.spawn(Job::Never(Forever { polls: parked.clone() }));
    ex.spawn(Job::Now(Immediate { polls: done.clone() }));
    assert_eq!(
        ex.run_ready(),
        vec![(0, PollState::Ready), (1, PollState::Pending), (2, PollState::Ready)]
    );
    assert!(ex.contains(1));
    ex.wake(1);
    assert_eq!(ex.run_ready(), vec![(1, PollState::Pending)]);
    assert!(ex.ready_ids().is_empty());
    assert_eq!(ex.task_count(), 1);
    assert_eq!((done.get(), parked.get()), (2, 2));
}

#[test]
fn idle_step_halts_only_when_nothing_is_due() {
    let mut ex = Executor::new();
    let id = ex.spawn(Forever { polls: counter() });
    assert_eq!(ex.idle_step(None), IdleAction::Poll);
    ex.run_ready();
    assert_eq!(ex.idle_step(None), IdleAction::Halt);
    assert_eq!(ex.idle_step(Some(id)), IdleAction::Poll);
    assert_eq!(ex.ready_ids(), &vec![id]);
    ex.run_ready();
    assert_eq!(ex.idle_step(Some(id + 1)), IdleAction::Poll);
    assert!(ex.ready_ids().is_empty());
    assert_eq!(ex.idle_step(None), IdleAction::Halt);
}
