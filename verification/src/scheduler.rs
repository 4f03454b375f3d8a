//! Priority scheduler: one first-in first-out execution queue per priority,
//! the highest priority served first.
//!
//! Threads are named by their identifiers here; the caller keeps the threads
//! themselves, switches contexts and reads each thread's state and priority.
use vstd::prelude::*;
use std::collections::VecDeque;
use crate::process::{Status, ThreadId};

verus! {

/// Number of thread priorities; `PRIORITIES_NUM - 1` is the most urgent.
pub const PRIORITIES_NUM: usize = 16;

/// The execution queue that serves `priority`: priorities above the highest
/// one share its queue.
pub open spec fn spec_queue_index(priority: usize) -> int {
    if priority < PRIORITIES_NUM {
        priority as int
    } else {
        PRIORITIES_NUM - 1
    }
}

/// `q` with `id` appended, unless `id` is already in it.
pub open spec fn push_once(q: Seq<ThreadId>, id: ThreadId) -> Seq<ThreadId> {
    if q.contains(id) {
        q
    } else {
        q.push(id)
    }
}

/// `i` is the first position of `id` in `q`.
pub open spec fn is_first_index(q: Seq<ThreadId>, id: ThreadId, i: int) -> bool {
    &&& 0 <= i < q.len()
    &&& q[i] == id
    &&& forall|j: int| 0 <= j < i ==> q[j] != id
}

/// `after` is `before` with the first occurrence of `id` removed, or
/// `before` itself when `id` does not occur.
pub open spec fn removed_first(before: Seq<ThreadId>, id: ThreadId, after: Seq<ThreadId>) -> bool {
    if before.contains(id) {
        exists|i: int| is_first_index(before, id, i) && after == before.remove(i)
    } else {
        after == before
    }
}

/// `p` is the most urgent priority whose queue in `v` is not empty.
pub open spec fn highest_nonempty(v: Seq<Seq<ThreadId>>, p: int) -> bool {
    &&& 0 <= p < v.len()
    &&& v[p].len() > 0
    &&& forall|q: int| p < q < v.len() ==> #[trigger] v[q].len() == 0
}

/// Every queue of `v` is empty.
pub open spec fn all_empty(v: Seq<Seq<ThreadId>>) -> bool {
    forall|q: int| 0 <= q < v.len() ==> #[trigger] v[q].len() == 0
}

/// Taking the next thread out of the queues `before` gives `next` and leaves
/// `after`: the front of the most urgent non-empty queue, or nothing when all
/// queues are empty.
pub open spec fn took_next(
    before: Seq<Seq<ThreadId>>,
    next: Option<ThreadId>,
    after: Seq<Seq<ThreadId>>,
) -> bool {
    match next {
        None => all_empty(before) && after == before,
        Some(t) => exists|p: int|
            highest_nonempty(before, p) && t == before[p][0] && after == before.update(
                p,
                before[p].drop_first(),
            ),
    }
}

/// The thread scheduler: the thread that runs now and the execution queues.
pub struct Scheduler {
    current_thread: Option<ThreadId>,
    execution_queues: Vec<VecDeque<ThreadId>>,
}

impl Scheduler {
    /// The execution queues, by priority.
    pub closed spec fn view(&self) -> Seq<Seq<ThreadId>> {
        Seq::new(self.execution_queues@.len(), |i: int| self.execution_queues@[i]@)
    }

    /// The thread that runs now, if any.
    pub closed spec fn current(&self) -> Option<ThreadId> {
        self.current_thread
    }

    /// There is one queue per priority.
    pub open spec fn wf(&self) -> bool {
        self@.len() == PRIORITIES_NUM
    }

    /// Creates a scheduler with no current thread and empty queues.
    pub fn new() -> (r: Self)
        ensures
            r.wf(),
            r.current() is None,
            all_empty(r@),
    {
        let mut queues: Vec<VecDeque<ThreadId>> = Vec::new();
        let mut i: usize = 0;
        while i < PRIORITIES_NUM
            invariant
                i <= PRIORITIES_NUM,
                queues@.len() == i,
                forall|j: int| 0 <= j < i ==> (#[trigger] queues@[j])@.len() == 0,
            decreases PRIORITIES_NUM - i,
        {
            queues.push(VecDeque::new());
            i = i + 1;
        }
        Scheduler { current_thread: None, execution_queues: queues }
    }

    /// The queue index that serves `priority`.
    pub fn queue_index(priority: usize) -> (r: usize)
        ensures
            r == spec_queue_index(priority),
    {
        if priority < PRIORITIES_NUM {
            priority
        } else {
            PRIORITIES_NUM - 1
        }
    }

    /// The thread that runs now, if any.
    pub fn current_thread(&self) -> (r: Option<ThreadId>)
        ensures
            r == self.current(),
    {
        self.current_thread
    }

    /// Whether `id` is in the queue with index `p`.
    fn queue_contains(&self, p: usize, id: ThreadId) -> (r: bool)
        requires
            self.wf(),
            p < PRIORITIES_NUM,
        ensures
            r == self@[p as int].contains(id),
    {
        let q = &self.execution_queues[p];
        let mut i: usize = 0;
        while i < q.len()
            invariant
                q@ == self@[p as int],
                i <= q@.len(),
                forall|j: int| 0 <= j < i ==> q@[j] != id,
            decreases q@.len() - i,
        {
            if q[i] == id {
                return true;
            }
            i = i + 1;
        }
        false
    }

    /// Queues the thread `id` of priority `priority` for execution if its
    /// state `status` is running and it is not queued yet. Returns whether
    /// the thread was running, in which case it is to be rescheduled when it
    /// leaves the processor.
    pub fn schedule(&mut self, id: ThreadId, priority: usize, status: Status) -> (r: bool)
        requires
            old(self).wf(),
        ensures
            final(self).wf(),
            r == (status == Status::Running),
            final(self).current() == old(self).current(),
            final(self)@ == (if status == Status::Running {
                old(self)@.update(
                    spec_queue_index(priority),
                    push_once(old(self)@[spec_queue_index(priority)], id),
                )
            } else {
                old(self)@
            }),
    {
        match status {
            Status::Running => {},
            Status::Stopped => return false,
            Status::Waiting => return false,
        }
        let p = Self::queue_index(priority);
        if !self.queue_contains(p, id) {
            self.execution_queues[p].push_back(id);
        }
        proof {
            assert(self@ =~= old(self)@.update(p as int, push_once(old(self)@[p as int], id)));
        }
        true
    }

    /// Takes the thread `id` of priority `priority` out of its execution
    /// queue (its first occurrence), if it is there.
    pub fn unschedule(&mut self, id: ThreadId, priority: usize)
        requires
            old(self).wf(),
        ensures
            final(self).wf(),
            final(self).current() == old(self).current(),
            final(self)@.len() == old(self)@.len(),
            forall|q: int| 0 <= q < old(self)@.len() && q != spec_queue_index(priority)
                ==> #[trigger] final(self)@[q] == old(self)@[q],
            removed_first(
                old(self)@[spec_queue_index(priority)],
                id,
                final(self)@[spec_queue_index(priority)],
            ),
    {
        let p = Self::queue_index(priority);
        let ghost q0 = self@[p as int];
        let n = self.execution_queues[p].len();
        let mut i: usize = 0;
        let mut found = false;
        while i < n
            invariant_except_break
                !found,
                forall|j: int| 0 <= j < i ==> q0[j] != id,
            invariant
                self.wf(),
                p < PRIORITIES_NUM,
                q0 == self@[p as int],
                n == q0.len(),
                i <= n,
            ensures
                found ==> i < n && is_first_index(q0, id, i as int),
                !found ==> forall|j: int| 0 <= j < n ==> q0[j] != id,
            decreases n - i,
        {
            if self.execution_queues[p][i] == id {
                found = true;
                break;
            }
            i = i + 1;
        }
        if found {
            let _ = self.execution_queues[p].remove(i);
            proof {
                assert(q0.contains(id));
                assert(self@ =~= old(self)@.update(p as int, q0.remove(i as int)));
            }
        } else {
            proof {
                assert(!q0.contains(id));
            }
        }
    }

    /// Takes the front thread of the most urgent non-empty queue.
    fn pop_next(&mut self) -> (r: Option<ThreadId>)
        requires
            old(self).wf(),
        ensures
            final(self).wf(),
            final(self).current() == old(self).current(),
            took_next(old(self)@, r, final(self)@),
    {
        let mut p: usize = PRIORITIES_NUM;
        while p > 0
            invariant
                self == old(self),
                self.wf(),
                p <= PRIORITIES_NUM,
                forall|q: int| p <= q < PRIORITIES_NUM ==> #[trigger] self@[q].len() == 0,
            decreases p,
        {
            p = p - 1;
            if self.execution_queues[p].len() > 0 {
                let t = self.execution_queues[p].pop_front();
                proof {
                    assert(highest_nonempty(old(self)@, p as int));
                    assert(self@ =~= old(self)@.update(p as int, old(self)@[p as int].drop_first()));
                }
                return t;
            }
        }
        None
    }

    /// Elects the next thread to run, as the scheduler's idle loop does: the
    /// front of the most urgent non-empty queue becomes the current thread.
    /// With every queue empty nothing changes and `None` comes back.
    pub fn take_next_thread(&mut self) -> (r: Option<ThreadId>)
        requires
            old(self).wf(),
        ensures
            final(self).wf(),
            took_next(old(self)@, r, final(self)@),
            final(self).current() == (if r is Some {
                r
            } else {
                old(self).current()
            }),
    {
        let next = self.pop_next();
        if next.is_some() {
            self.current_thread = next;
        }
        next
    }

    /// Switches threads on a timer tick: the thread that ran goes back to the
    /// end of its queue if it is to be rescheduled (`reschedule_previous`,
    /// with its priority `previous_priority`), and the front of the most
    /// urgent non-empty queue becomes the current thread (none if all queues
    /// are empty). Returns the new current thread.
    pub fn schedule_next_thread(&mut self, reschedule_previous: bool, previous_priority: usize) -> (r:
        Option<ThreadId>)
        requires
            old(self).wf(),
        ensures
            final(self).wf(),
            final(self).current() == r,
            took_next(
                (match old(self).current() {
                    Some(t) => if reschedule_previous {
                        old(self)@.update(
                            spec_queue_index(previous_priority),
                            old(self)@[spec_queue_index(previous_priority)].push(t),
                        )
                    } else {
                        old(self)@
                    },
                    None => old(self)@,
                }),
                r,
                final(self)@,
            ),
    {
        let previous = self.current_thread.take();
        if let Some(t) = previous {
            if reschedule_previous {
                let p = Self::queue_index(previous_priority);
                self.execution_queues[p].push_back(t);
                proof {
                    assert(self@ =~= old(self)@.update(p as int, old(self)@[p as int].push(t)));
                }
            }
        }
        let next = self.pop_next();
        self.current_thread = next;
        next
    }
}

/// Scheduling a thread twice queues it as scheduling it once does.
pub proof fn lemma_schedule_idempotent(q: Seq<ThreadId>, id: ThreadId)
    ensures
        push_once(push_once(q, id), id) == push_once(q, id),
{
    if !q.contains(id) {
        assert(q.push(id)[q.len() as int] == id);
    }
}

/// Unscheduling a thread that scheduling has just queued gives the queue back
/// as it was.
pub proof fn lemma_unschedule_undoes_schedule(q: Seq<ThreadId>, id: ThreadId, after: Seq<ThreadId>)
    requires
        !q.contains(id),
        removed_first(push_once(q, id), id, after),
    ensures
        after == q,
{
    let pushed = q.push(id);
    assert(pushed[q.len() as int] == id);
    assert(pushed.contains(id));
    let i = choose|i: int| is_first_index(pushed, id, i) && after == pushed.remove(i);
    if i < q.len() {
        assert(q[i] == pushed[i]);
        assert(q.contains(id));
    }
    assert(pushed.remove(i) =~= q);
}

/// Threads that wait for an event until it is notified.
pub struct Event {
    waiting_threads: Vec<ThreadId>,
}

impl Event {
    /// The waiting threads, in the order in which they started to wait.
    pub closed spec fn view(&self) -> Seq<ThreadId> {
        self.waiting_threads@
    }

    /// Creates an event with no waiting thread.
    pub fn new() -> (r: Self)
        ensures
            r@ == Seq::<ThreadId>::empty(),
    {
        Event { waiting_threads: Vec::new() }
    }

    /// Makes `thread` wait on the event; the caller sets its state to waiting.
    pub fn wait_on(&mut self, thread: ThreadId)
        ensures
            final(self)@ == old(self)@.push(thread),
    {
        self.waiting_threads.push(thread);
    }

    /// Releases every waiting thread: returns them, in the order in which they
    /// started to wait, for the caller to set running, and leaves none waiting.
    pub fn notify(&mut self) -> (r: Vec<ThreadId>)
        ensures
            r@ == old(self)@,
            final(self)@ == Seq::<ThreadId>::empty(),
    {
        let mut released: Vec<ThreadId> = Vec::new();
        std::mem::swap(&mut released, &mut self.waiting_threads);
        released
    }
}

} // verus!
