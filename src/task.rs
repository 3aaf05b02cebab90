//! Cooperative executor: a table of suspended tasks keyed by id, and a queue
//! of the ids that are due to be polled.
use vstd::prelude::*;

verus! {

/// What a poll of a suspended computation reports.
#[derive(Debug, Clone, Copy, PartialEq, Eq, Structural)]
pub enum PollState {
    Ready,
    Pending,
}

/// A suspended computation. `poll` advances it as far as it can go without
/// waiting; `id` names the task, for the computation to hand to whatever is
/// to wake it later.
pub trait Pollable {
    fn poll(&mut self, id: u64) -> PollState;
}

/// What the idle loop does once the ready queue has been drained.
#[derive(Debug, Clone, Copy, PartialEq, Eq, Structural)]
pub enum IdleAction {
    /// Drain the ready queue again.
    Poll,
    /// Halt until the next interrupt; nothing is due.
    Halt,
}

/// A computation together with its task id.
pub struct Task<F> {
    pub id: u64,
    pub body: F,
}

/// The ready queue after a wake of `id`: the id is appended when it names a
/// task of the table and is not queued yet, and nothing changes otherwise.
pub open spec fn wake_ready(ids: Seq<u64>, ready: Seq<u64>, id: u64) -> Seq<u64> {
    if ids.contains(id) && !ready.contains(id) {
        ready.push(id)
    } else {
        ready
    }
}

/// Waking an id that names no task (not spawned yet, or finished) changes nothing.
pub proof fn lemma_wake_unknown_is_noop(ids: Seq<u64>, ready: Seq<u64>, id: u64)
    requires
        !ids.contains(id),
    ensures
        wake_ready(ids, ready, id) == ready,
{
}

/// Waking a task twice leaves its id in the ready queue exactly once.
pub proof fn lemma_wake_twice_single_entry(ids: Seq<u64>, ready: Seq<u64>, id: u64)
    requires
        ready.no_duplicates(),
        ids.contains(id),
    ensures
        wake_ready(ids, wake_ready(ids, ready, id), id) == wake_ready(ids, ready, id),
        wake_ready(ids, ready, id).contains(id),
        forall|i: int, j: int|
            0 <= i < j < wake_ready(ids, ready, id).len() ==> wake_ready(ids, ready, id)[i]
                != wake_ready(ids, ready, id)[j],
{
    let r = wake_ready(ids, ready, id);
    if !ready.contains(id) {
        assert(r[r.len() - 1] == id);
        assert forall|i: int, j: int| 0 <= i < j < r.len() implies r[i] != r[j] by {
            if j == r.len() - 1 {
                assert(r[i] == ready[i]);
            }
        }
    }
}

/// A task that is parked (in the table, not queued) and woken while the queue
/// is empty becomes the whole queue: its id is the one `poll_next` takes next.
pub proof fn lemma_parked_task_polled_after_wake(ids: Seq<u64>, id: u64)
    requires
        ids.contains(id),
    ensures
        wake_ready(ids, Seq::empty(), id) == seq![id],
{
    assert(Seq::<u64>::empty().push(id) =~= seq![id]);
}

/// The executor: the task table, the queue of ids due for a poll, and the id
/// the next spawned task gets.
pub struct Executor<F> {
    tasks: Vec<Task<F>>,
    ready: Vec<u64>,
    next_id: u64,
}

impl<F: Pollable> Executor<F> {
    /// Ids of the tasks in the table.
    pub closed spec fn ids(&self) -> Seq<u64> {
        self.tasks@.map_values(|t: Task<F>| t.id)
    }

    /// Ids waiting to be polled, first in line first.
    pub closed spec fn ready(&self) -> Seq<u64> {
        self.ready@
    }

    pub closed spec fn next_id(&self) -> nat {
        self.next_id as nat
    }

    /// Task ids are unique and below the next id, and every queued id names a
    /// task of the table and is queued once.
    pub open spec fn wf(&self) -> bool {
        &&& self.ids().no_duplicates()
        &&& self.ready().no_duplicates()
        &&& forall|i: int| 0 <= i < self.ready().len() ==> self.ids().contains(#[trigger] self.ready()[i])
        &&& forall|i: int| 0 <= i < self.ids().len() ==> #[trigger] self.ids()[i] < self.next_id()
    }

    pub fn new() -> (r: Executor<F>)
        ensures
            r.wf(),
            r.ids() == Seq::<u64>::empty(),
            r.ready() == Seq::<u64>::empty(),
            r.next_id() == 0,
    {
        let r = Executor { tasks: Vec::new(), ready: Vec::new(), next_id: 0 };
        assert(r.ids() =~= Seq::<u64>::empty());
        r
    }

    /// Number of tasks in the table.
    pub fn task_count(&self) -> (r: usize)
        ensures
            r == self.ids().len(),
    {
        self.tasks.len()
    }

    /// Ids waiting to be polled.
    pub fn ready_ids(&self) -> (r: &Vec<u64>)
        ensures
            r@ == self.ready(),
    {
        &self.ready
    }

    /// Whether `id` names a task of the table.
    pub fn contains(&self, id: u64) -> (r: bool)
        ensures
            r == self.ids().contains(id),
    {
        self.find(id).is_some()
    }

    /// The position of task `id` in the table.
    fn find(&self, id: u64) -> (r: Option<usize>)
        ensures
            r matches Some(k) ==> k < self.ids().len() && self.ids()[k as int] == id,
            r is None ==> !self.ids().contains(id),
    {
        let mut k: usize = 0;
        while k < self.tasks.len()
            invariant
                k <= self.tasks@.len(),
                forall|j: int| 0 <= j < k ==> self.ids()[j] != id,
            decreases self.tasks@.len() - k,
        {
            if self.tasks[k].id == id {
                return Some(k);
            }
            k = k + 1;
        }
        None
    }

    /// Whether `id` is queued.
    fn is_queued(&self, id: u64) -> (r: bool)
        ensures
            r == self.ready().contains(id),
    {
        let mut k: usize = 0;
        while k < self.ready.len()
            invariant
                k <= self.ready@.len(),
                forall|j: int| 0 <= j < k ==> self.ready@[j] != id,
            decreases self.ready@.len() - k,
        {
            if self.ready[k] == id {
                return true;
            }
            k = k + 1;
        }
        false
    }

    /// Adds `body` to the table under a fresh id and queues it for a first poll.
    pub fn spawn(&mut self, body: F) -> (id: u64)
        requires
            old(self).wf(),
            old(self).next_id() < u64::MAX,
        ensures
            final(self).wf(),
            id == old(self).next_id(),
            !old(self).ids().contains(id),
            final(self).ids() == old(self).ids().push(id),
            final(self).ready() == old(self).ready().push(id),
            final(self).next_id() == old(self).next_id() + 1,
    {
        let id = self.next_id;
        proof {
            assert(!self.ids().contains(id)) by {
                if self.ids().contains(id) {
                    let i = choose|i: int| 0 <= i < self.ids().len() && self.ids()[i] == id;
                    assert(self.ids()[i] < self.next_id());
                }
            }
        }
        self.tasks.push(Task { id, body });
        self.ready.push(id);
        self.next_id = id + 1;
        assert(self.ids() =~= old(self).ids().push(id));
        proof {
            assert forall|i: int| 0 <= i < self.ready().len() implies self.ids().contains(
                #[trigger] self.ready()[i],
            ) by {
                if i < old(self).ready().len() {
                    assert(old(self).ids().contains(old(self).ready()[i]));
                    let j = choose|j: int|
                        0 <= j < old(self).ids().len() && old(self).ids()[j] == old(
                            self,
                        ).ready()[i];
                    assert(self.ids()[j] == self.ready()[i]);
                } else {
                    assert(self.ids()[self.ids().len() - 1] == id);
                }
            }
        }
        id
    }

    /// Queues task `id` for a poll. Waking an id that names no task, or one
    /// that is queued already, does nothing.
    pub fn wake(&mut self, id: u64)
        requires
            old(self).wf(),
        ensures
            final(self).wf(),
            final(self).ids() == old(self).ids(),
            final(self).next_id() == old(self).next_id(),
            final(self).ready() == wake_ready(old(self).ids(), old(self).ready(), id),
    {
        if self.find(id).is_some() && !self.is_queued(id) {
            self.ready.push(id);
            proof {
                assert forall|i: int| 0 <= i < self.ready().len() implies self.ids().contains(
                    #[trigger] self.ready()[i],
                ) by {
                    if i < old(self).ready().len() {
                        assert(old(self).ids().contains(old(self).ready()[i]));
                    }
                }
            }
        }
    }

    /// Takes the first queued id and polls its task. A task that reports
    /// `Ready` leaves the table; one that reports `Pending` stays in it, parked
    /// until it is woken. `None` when nothing is queued.
    pub fn poll_next(&mut self) -> (r: Option<(u64, PollState)>)
        requires
            old(self).wf(),
        ensures
            final(self).wf(),
            final(self).next_id() == old(self).next_id(),
            old(self).ready().len() == 0 ==> r is None && final(self).ids() == old(self).ids()
                && final(self).ready() == old(self).ready(),
            old(self).ready().len() > 0 ==> (r matches Some((id, st)) && id == old(self).ready()[0]
                && final(self).ready() == old(self).ready().drop_first() && (st is Pending
                ==> final(self).ids() == old(self).ids()) && (st is Ready ==> forall|x: u64|
                #[trigger] final(self).ids().contains(x) <==> old(self).ids().contains(x) && x
                != id)),
    {
        if self.ready.len() == 0 {
            return None;
        }
        let id = self.ready.remove(0);
        proof {
            assert(old(self).ready()[0] == id);
            assert(old(self).ids().contains(id));
            assert(self.ready() =~= old(self).ready().drop_first());
        }
        let k = match self.find(id) {
            Some(k) => k,
            None => {
                proof {
                    assert(false);
                }
                return None;
            },
        };
        let mut task = self.tasks.remove(k);
        let st = task.body.poll(id);
        let ghost removed = self.ids();
        proof {
            assert(removed =~= old(self).ids().remove(k as int));
        }
        match st {
            PollState::Pending => {
                self.tasks.insert(k, task);
                assert(self.ids() =~= old(self).ids());
                proof {
                    assert forall|i: int| 0 <= i < self.ready().len() implies self.ids().contains(
                        #[trigger] self.ready()[i],
                    ) by {
                        assert(old(self).ids().contains(old(self).ready()[i + 1]));
                    }
                }
            },
            PollState::Ready => {
                proof {
                    let old_ids = old(self).ids();
                    assert forall|x: u64| #[trigger]
                        self.ids().contains(x) <==> old_ids.contains(x) && x != id by {
                        if self.ids().contains(x) {
                            let j = choose|j: int| 0 <= j < self.ids().len() && self.ids()[j] == x;
                            if j < k {
                                assert(old_ids[j] == x);
                            } else {
                                assert(old_ids[j + 1] == x);
                            }
                        }
                        if old_ids.contains(x) && x != id {
                            let j = choose|j: int| 0 <= j < old_ids.len() && old_ids[j] == x;
                            if j < k {
                                assert(self.ids()[j] == x);
                            } else {
                                assert(j != k);
                                assert(self.ids()[j - 1] == x);
                            }
                        }
                    }
                    assert forall|i: int| 0 <= i < self.ready().len() implies self.ids().contains(
                        #[trigger] self.ready()[i],
                    ) by {
                        assert(old(self).ready()[i + 1] != id);
                        assert(old_ids.contains(old(self).ready()[i + 1]));
                    }
                    assert forall|i: int| 0 <= i < self.ids().len() implies #[trigger] self.ids()[i]
                        < self.next_id() by {
                        if i < k {
                            assert(self.ids()[i] == old_ids[i]);
                        } else {
                            assert(self.ids()[i] == old_ids[i + 1]);
                        }
                    }
                }
            },
        }
        Some((id, st))
    }

    /// Polls the queued tasks in queue order, each once, until the ready
    /// queue is empty, and returns each polled id with what its poll reported.
    /// Tasks that reported `Ready` leave the table; every other task stays.
    pub fn run_ready(&mut self) -> (polled: Vec<(u64, PollState)>)
        requires
            old(self).wf(),
        ensures
            final(self).wf(),
            final(self).next_id() == old(self).next_id(),
            final(self).ready().len() == 0,
            polled@.len() == old(self).ready().len(),
            forall|i: int| 0 <= i < polled@.len() ==> (#[trigger] polled@[i]).0 == old(self).ready()[i],
            forall|x: u64|
                #[trigger] final(self).ids().contains(x) <==> old(self).ids().contains(x)
                    && !polled@.contains((x, PollState::Ready)),
    {
        let mut polled: Vec<(u64, PollState)> = Vec::new();
        loop
            invariant
                self.wf(),
                self.next_id() == old(self).next_id(),
                polled@.len() <= old(self).ready().len(),
                self.ready() == old(self).ready().skip(polled@.len() as int),
                forall|i: int| 0 <= i < polled@.len() ==> (#[trigger] polled@[i]).0 == old(self).ready()[i],
                forall|x: u64|
                    #[trigger] self.ids().contains(x) <==> old(self).ids().contains(x)
                        && !polled@.contains((x, PollState::Ready)),
            ensures
                self.ready().len() == 0,
                polled@.len() == old(self).ready().len(),
            decreases self.ready().len(),
        {
            let ghost before = *self;
            let ghost polled_before = polled@;
            match self.poll_next() {
                None => break,
                Some((id, st)) => {
                    polled.push((id, st));
                    proof {
                        assert(self.ready() =~= old(self).ready().skip(polled@.len() as int));
                        assert forall|p: (u64, PollState)|
                            polled@.contains(p) <==> polled_before.contains(p) || p == (id, st) by {
                            if polled@.contains(p) {
                                let j = choose|j: int| 0 <= j < polled@.len() && polled@[j] == p;
                                if j < polled_before.len() {
                                    assert(polled_before[j] == p);
                                }
                            }
                            if polled_before.contains(p) {
                                let j = choose|j: int| 0 <= j < polled_before.len() && polled_before[j] == p;
                                assert(polled@[j] == p);
                            }
                            if p == (id, st) {
                                assert(polled@[polled@.len() - 1] == p);
                            }
                        }
                        assert forall|x: u64|
                            #[trigger] self.ids().contains(x) <==> old(self).ids().contains(x)
                                && !polled@.contains((x, PollState::Ready)) by {
                            assert(before.ids().contains(x) <==> old(self).ids().contains(x)
                                && !polled_before.contains((x, PollState::Ready)));
                        }
                    }
                },
            }
        }
        polled
    }

    /// One decision of the idle loop, taken with interrupts masked: a wake
    /// that an interrupt handler recorded (`woken`) is delivered, and the CPU
    /// halts only when no wake came and nothing is queued, so no wake is
    /// missed between the check and the halt.
    pub fn idle_step(&mut self, woken: Option<u64>) -> (a: IdleAction)
        requires
            old(self).wf(),
        ensures
            final(self).wf(),
            final(self).ids() == old(self).ids(),
            final(self).next_id() == old(self).next_id(),
            final(self).ready() == match woken {
                Some(id) => wake_ready(old(self).ids(), old(self).ready(), id),
                None => old(self).ready(),
            },
            a == IdleAction::Halt <==> woken is None && old(self).ready().len() == 0,
    {
        match woken {
            Some(id) => {
                self.wake(id);
                IdleAction::Poll
            },
            None => {
                if self.ready.len() == 0 {
                    IdleAction::Halt
                } else {
                    IdleAction::Poll
                }
            },
        }
    }
}

} // verus!
