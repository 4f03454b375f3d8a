//! Per-CPU queue of high-resolution timers, ordered by deadline.
//!
//! [`HrTimerSubsystem`] keeps its timers in a red-black tree keyed by the
//! absolute deadline in nanoseconds since boot and, among equal deadlines, by
//! the order of registration. When a new timer becomes the nearest deadline,
//! [`HrTimerSubsystem::add_timer`] says how far ahead the one-shot timer of the
//! local APIC has to be programmed.
//!
//! Expired timers are drained by [`HrTimerSubsystem::poll_expired`], soonest
//! first; periodic timers are queued again one interval later.
use vstd::prelude::*;
use crate::process::{ProcessId, ThreadId};
use crate::rb_tree::{ArenaIndex, KeyOrder, RedBlackTree, TreeKey};
use crate::time::{sat_add, Duration};

verus! {

/// Handle returned when a timer is registered; used to cancel it later.
pub type TimerHandle = ArenaIndex;

/// Number of the kernel callback that a timer runs when it fires, as the
/// executor of [`TimerAction::ExecuteCallback`] has registered it.
pub type TimerCallback = usize;

/// Action associated with a timer at expiry.
#[derive(Clone, Copy, PartialEq, Eq, Structural, Debug)]
pub enum TimerAction {
    /// Run the callback `function` with the expiry timestamp.
    ExecuteCallback { function: TimerCallback },
    /// Special timer action dedicated to the scheduler.
    Reschedule,
    /// Wake the given thread.
    WakeUp { process_id: ProcessId, thread_id: ThreadId },
}

/// A registered timer.
#[derive(Clone, Copy, Debug)]
pub struct Timer {
    /// Absolute expiry time in nanoseconds since boot.
    pub expires_at: u64,
    /// Whether the timer is queued again after it fires.
    pub is_periodic: bool,
    /// Period between firings; present whenever the timer is periodic.
    pub interval: Option<Duration>,
    /// What the executor does when the timer is dispatched.
    pub action: TimerAction,
}

/// Sort key of the queue: the deadline first, then the registration order.
#[derive(Clone, Copy, PartialEq, Eq, Structural, Debug)]
pub struct TimerQueueKey {
    pub expires_at: u64,
    pub order: u64,
}

impl TreeKey for TimerQueueKey {
    open spec fn rank(&self) -> int {
        self.expires_at as int * 0x1_0000_0000_0000_0000 + self.order as int
    }

    proof fn lemma_rank_injective(a: &Self, b: &Self) {
    }

    fn compare(&self, other: &Self) -> (r: KeyOrder) {
        if self.expires_at < other.expires_at {
            KeyOrder::Less
        } else if self.expires_at > other.expires_at {
            KeyOrder::Greater
        } else if self.order < other.order {
            KeyOrder::Less
        } else if self.order == other.order {
            KeyOrder::Equal
        } else {
            KeyOrder::Greater
        }
    }
}

/// The timer that a registration with these arguments stores.
pub open spec fn spec_timer(
    expires_at: u64,
    is_periodic: bool,
    interval: Option<Duration>,
    action: TimerAction,
) -> Timer {
    Timer { expires_at, is_periodic, interval, action }
}

/// The registration counter after one more registration (it wraps around).
pub open spec fn next_registration(order: u64) -> u64 {
    if order == u64::MAX {
        0
    } else {
        (order + 1) as u64
    }
}

/// Some timer of `m` expires at `e`.
pub open spec fn has_expiry(m: Map<TimerQueueKey, Timer>, e: u64) -> bool {
    exists|k: TimerQueueKey| #[trigger] m.contains_key(k) && k.expires_at == e
}

/// `k` is the earliest registered among the keys of `m` that expire at `e`.
pub open spec fn first_key_at(m: Map<TimerQueueKey, Timer>, e: u64, k: TimerQueueKey) -> bool {
    &&& m.contains_key(k)
    &&& k.expires_at == e
    &&& forall|j: TimerQueueKey| #[trigger] m.contains_key(j) && j.expires_at == e ==> k.order <= j.order
}

/// `k` is the soonest key of `m`.
pub open spec fn is_min_key(m: Map<TimerQueueKey, Timer>, k: TimerQueueKey) -> bool {
    &&& m.contains_key(k)
    &&& forall|j: TimerQueueKey| #[trigger] m.contains_key(j) ==> k.rank() <= j.rank()
}

/// A timer that expires at `expires` becomes the nearest deadline of `m`: it
/// expires before every queued timer (so also when `m` is empty).
pub open spec fn becomes_nearest(m: Map<TimerQueueKey, Timer>, expires: u64) -> bool {
    forall|k: TimerQueueKey| #[trigger] m.contains_key(k) ==> expires < k.expires_at
}

/// Every registration order in `m` is below `next`: the next key is fresh.
pub open spec fn orders_below(m: Map<TimerQueueKey, Timer>, next: u64) -> bool {
    forall|k: TimerQueueKey| #[trigger] m.contains_key(k) ==> k.order < next
}

/// The queue `m` after the fired timer `t`, stored under `k`, left it and a
/// periodic one came back one interval later under the order `order`.
pub open spec fn after_firing(
    m: Map<TimerQueueKey, Timer>,
    k: TimerQueueKey,
    t: Timer,
    order: u64,
) -> Map<TimerQueueKey, Timer> {
    if t.is_periodic && t.interval is Some {
        let next = sat_add(t.expires_at, t.interval->0@);
        m.remove(k).insert(
            TimerQueueKey { expires_at: next, order },
            Timer { expires_at: next, ..t },
        )
    } else {
        m.remove(k)
    }
}

/// High-resolution timer queue.
pub struct HrTimerSubsystem {
    /// Deadline-ordered timers; each registration gets its own key.
    queue: RedBlackTree<TimerQueueKey, Timer>,
    /// Registration counter that keeps equal deadlines apart.
    next_order: u64,
}

impl HrTimerSubsystem {
    /// The queue is a well-formed tree, each timer is stored under its own
    /// deadline, and each periodic timer has an interval.
    pub closed spec fn wf(&self) -> bool {
        &&& self.queue.wf()
        &&& forall|k: TimerQueueKey| #[trigger]
            self.queue@.contains_key(k) ==> self.queue@[k].expires_at == k.expires_at
        &&& forall|k: TimerQueueKey| #[trigger]
            self.queue@.contains_key(k) ==> (self.queue@[k].is_periodic
                ==> self.queue@[k].interval is Some)
    }

    /// The queued timers by key.
    pub closed spec fn timers(&self) -> Map<TimerQueueKey, Timer> {
        self.queue@
    }

    /// The registration order that the next timer gets.
    pub closed spec fn next_order_spec(&self) -> u64 {
        self.next_order
    }

    /// Whether `h` names a queued timer.
    pub closed spec fn handle_valid(&self, h: TimerHandle) -> bool {
        self.queue.valid_handle(h)
    }

    /// The key of the timer that `h` names.
    pub closed spec fn handle_key(&self, h: TimerHandle) -> TimerQueueKey {
        self.queue.handle_key(h)
    }

    /// The key under which a timer registered now would be stored.
    pub open spec fn key_for(&self, expires: u64) -> TimerQueueKey {
        TimerQueueKey { expires_at: expires, order: self.next_order_spec() }
    }

    /// What a well-formed queue promises of its timers.
    pub proof fn lemma_wf_timers(&self)
        requires
            self.wf(),
        ensures
            self.timers().dom().finite(),
            forall|k: TimerQueueKey| #[trigger]
                self.timers().contains_key(k) ==> self.timers()[k].expires_at == k.expires_at,
            forall|k: TimerQueueKey| #[trigger]
                self.timers().contains_key(k) ==> (self.timers()[k].is_periodic
                    ==> self.timers()[k].interval is Some),
    {
        self.queue.lemma_len_is_map_size();
    }

    /// Creates an empty timer subsystem.
    pub fn new() -> (r: Self)
        ensures
            r.wf(),
            r.timers() == Map::<TimerQueueKey, Timer>::empty(),
            r.next_order_spec() == 0,
    {
        HrTimerSubsystem { queue: RedBlackTree::new(), next_order: 0 }
    }

    /// Registers a timer that expires at `expires` (absolute nanoseconds since
    /// boot), with the clock reading `now` at hand, and returns its handle.
    ///
    /// When the timer becomes the nearest deadline, the second part of the
    /// result is how many nanoseconds ahead the local APIC timer has to fire.
    /// Periodic timers come back one interval later each time they fire.
    pub fn add_timer(
        &mut self,
        expires: u64,
        is_periodic: bool,
        interval: Option<Duration>,
        action: TimerAction,
        now: u64,
    ) -> (r: (TimerHandle, Option<u64>))
        requires
            old(self).wf(),
            !is_periodic || interval is Some,
            old(self).timers().dom().len() < usize::MAX,
            becomes_nearest(old(self).timers(), expires) ==> now <= expires,
        ensures
            final(self).wf(),
            final(self).timers() == old(self).timers().insert(
                old(self).key_for(expires),
                spec_timer(expires, is_periodic, interval, action),
            ),
            final(self).next_order_spec() == next_registration(old(self).next_order_spec()),
            final(self).handle_valid(r.0),
            final(self).handle_key(r.0) == old(self).key_for(expires),
            r.1 == (if becomes_nearest(old(self).timers(), expires) {
                Some((expires - now) as u64)
            } else {
                None::<u64>
            }),
            forall|g: TimerHandle| #[trigger]
                old(self).handle_valid(g) && old(self).handle_key(g) != old(self).key_for(expires)
                    ==> final(self).handle_valid(g) && final(self).handle_key(g) == old(self).handle_key(g),
            orders_below(old(self).timers(), old(self).next_order_spec())
                && old(self).next_order_spec() < u64::MAX ==> orders_below(
                final(self).timers(),
                final(self).next_order_spec(),
            ) && final(self).timers().dom().len() == old(self).timers().dom().len() + 1,
    {
        proof {
            self.lemma_wf_timers();
        }
        let reprogram = match self.next_expiry() {
            None => {
                proof {
                    assert forall|k: TimerQueueKey| #[trigger]
                        self.timers().contains_key(k) implies expires < k.expires_at by {
                        assert(self.timers().dom().contains(k));
                    }
                }
                true
            },
            Some(next) => {
                proof {
                    let w = choose|k: TimerQueueKey| #[trigger]
                        self.timers().contains_key(k) && k.expires_at == next;
                    if becomes_nearest(self.timers(), expires) {
                        assert(expires < w.expires_at);
                    }
                }
                expires < next
            },
        };
        let delay = if reprogram {
            Some(expires - now)
        } else {
            None
        };
        let handle = self.insert_timer(expires, is_periodic, interval, action);
        (handle, delay)
    }

    /// Removes the earliest registered among the timers that expire at
    /// `expires`. Returns `true` if a timer was removed.
    pub fn remove_timer(&mut self, expires: u64) -> (r: bool)
        requires
            old(self).wf(),
        ensures
            final(self).wf(),
            r == has_expiry(old(self).timers(), expires),
            !r ==> final(self).timers() == old(self).timers(),
            r ==> exists|k: TimerQueueKey|
                first_key_at(old(self).timers(), expires, k) && final(self).timers()
                    == old(self).timers().remove(k),
            final(self).next_order_spec() == old(self).next_order_spec(),
    {
        let key = match self.find_first_key_at_expiry(expires) {
            None => return false,
            Some(k) => k,
        };
        let removed = self.queue.remove(&key);
        proof {
            self.lemma_keeps_timers_wf(old(self));
        }
        removed.is_some()
    }

    /// Cancels the timer that `handle` names. Returns `true` if the handle was
    /// valid and the timer was removed.
    pub fn cancel(&mut self, handle: TimerHandle) -> (r: bool)
        requires
            old(self).wf(),
        ensures
            final(self).wf(),
            r == old(self).handle_valid(handle),
            r ==> final(self).timers() == old(self).timers().remove(old(self).handle_key(handle)),
            r ==> !final(self).handle_valid(handle),
            !r ==> final(self).timers() == old(self).timers(),
            forall|g: TimerHandle| #[trigger]
                old(self).handle_valid(g) && old(self).handle_key(g) != old(self).handle_key(handle)
                    ==> final(self).handle_valid(g) && final(self).handle_key(g) == old(self).handle_key(g),
            final(self).next_order_spec() == old(self).next_order_spec(),
    {
        let key = match self.queue_key_of(handle) {
            None => return false,
            Some(k) => k,
        };
        proof {
            self.queue.lemma_handle_in_map(handle);
        }
        let removed = self.queue.remove(&key);
        proof {
            self.lemma_keeps_timers_wf(old(self));
        }
        removed.is_some()
    }

    /// Returns the earliest registered timer among those that expire at
    /// `expires`, if any.
    pub fn find(&self, expires: u64) -> (r: Option<&Timer>)
        requires
            self.wf(),
        ensures
            match r {
                None => !has_expiry(self.timers(), expires),
                Some(t) => exists|k: TimerQueueKey|
                    first_key_at(self.timers(), expires, k) && *t == self.timers()[k],
            },
    {
        let key = self.find_first_key_at_expiry(expires)?;
        self.queue.get(&key)
    }

    /// Returns the expiry time of the soonest timer, if the queue is not empty.
    pub fn next_expiry(&self) -> (r: Option<u64>)
        requires
            self.wf(),
        ensures
            match r {
                None => self.timers().dom().len() == 0,
                Some(e) => has_expiry(self.timers(), e) && forall|k: TimerQueueKey| #[trigger]
                    self.timers().contains_key(k) ==> e <= k.expires_at,
            },
    {
        proof {
            self.queue.lemma_len_is_map_size();
        }
        match self.queue.min() {
            None => None,
            Some(key) => Some(key.expires_at),
        }
    }

    /// How many nanoseconds after `now` the local APIC timer has to fire for
    /// the soonest deadline: the time left, but at least 1. `None` when no
    /// timer is queued.
    pub fn delay_until_next_expiry(&self, now: u64) -> (r: Option<u64>)
        requires
            self.wf(),
        ensures
            match r {
                None => self.timers().dom().len() == 0,
                Some(d) => exists|e: u64|
                    {
                        &&& has_expiry(self.timers(), e)
                        &&& (forall|k: TimerQueueKey| #[trigger]
                            self.timers().contains_key(k) ==> e <= k.expires_at)
                        &&& d == (if e <= now { 1 } else { e - now })
                    },
            },
    {
        match self.next_expiry() {
            None => None,
            Some(next) => {
                let left = next.saturating_sub(now);
                Some(if left < 1 {
                    1
                } else {
                    left
                })
            },
        }
    }

    /// Number of active timers.
    pub fn len(&self) -> (r: usize)
        requires
            self.wf(),
        ensures
            r == self.timers().dom().len(),
    {
        self.queue.len()
    }

    /// Returns `true` if there are no active timers.
    pub fn is_empty(&self) -> (r: bool)
        requires
            self.wf(),
        ensures
            r == (self.timers().dom().len() == 0),
    {
        self.queue.is_empty()
    }

    /// Removes and returns the soonest timer if it expires at or before `now`;
    /// a periodic one is queued again one interval later. Returns `None` if the
    /// queue is empty or every timer expires after `now`.
    pub fn poll_expired(&mut self, now: u64) -> (r: Option<Timer>)
        requires
            old(self).wf(),
        ensures
            final(self).wf(),
            match r {
                None => final(self).timers() == old(self).timers() && final(self).next_order_spec()
                    == old(self).next_order_spec() && forall|k: TimerQueueKey| #[trigger]
                    old(self).timers().contains_key(k) ==> now < k.expires_at,
                Some(t) => exists|k: TimerQueueKey|
                    {
                        &&& is_min_key(old(self).timers(), k)
                        &&& t == old(self).timers()[k]
                        &&& t.expires_at == k.expires_at
                        &&& t.expires_at <= now
                        &&& final(self).timers() == after_firing(
                            old(self).timers(),
                            k,
                            t,
                            old(self).next_order_spec(),
                        )
                    } && final(self).next_order_spec() == (if t.is_periodic {
                        next_registration(old(self).next_order_spec())
                    } else {
                        old(self).next_order_spec()
                    }) && forall|j: TimerQueueKey| #[trigger]
                        final(self).timers().contains_key(j) ==> t.expires_at <= j.expires_at,
            },
    {
        let key = self.earliest_expired_key(now)?;
        proof {
            self.lemma_wf_timers();
        }
        let timer = self.queue.remove(&key)?;
        proof {
            self.lemma_keeps_timers_wf(old(self));
            self.queue.lemma_len_is_map_size();
            old(self).queue.lemma_len_is_map_size();
            assert(old(self).timers().dom().remove(key) =~= self.timers().dom());
        }
        let ghost mid = *self;
        self.reinsert_periodic(&timer);
        proof {
            assert(old(self).timers()[key] == timer);
            assert forall|j: TimerQueueKey| #[trigger]
                self.timers().contains_key(j) implies timer.expires_at <= j.expires_at by {
                if mid.timers().contains_key(j) {
                    assert(old(self).timers().contains_key(j));
                    assert(key.rank() <= j.rank());
                }
            }
        }
        Some(timer)
    }

    /// Stores a new timer under a fresh registration order.
    fn insert_timer(
        &mut self,
        expires_at: u64,
        is_periodic: bool,
        interval: Option<Duration>,
        action: TimerAction,
    ) -> (h: TimerHandle)
        requires
            old(self).wf(),
            !is_periodic || interval is Some,
            old(self).timers().dom().len() < usize::MAX,
        ensures
            final(self).wf(),
            final(self).timers() == old(self).timers().insert(
                old(self).key_for(expires_at),
                spec_timer(expires_at, is_periodic, interval, action),
            ),
            final(self).next_order_spec() == next_registration(old(self).next_order_spec()),
            final(self).handle_valid(h),
            final(self).handle_key(h) == old(self).key_for(expires_at),
            forall|g: TimerHandle| #[trigger]
                old(self).handle_valid(g) && old(self).handle_key(g) != old(self).key_for(expires_at)
                    ==> final(self).handle_valid(g) && final(self).handle_key(g) == old(self).handle_key(g),
            orders_below(old(self).timers(), old(self).next_order_spec())
                && old(self).next_order_spec() < u64::MAX ==> orders_below(
                final(self).timers(),
                final(self).next_order_spec(),
            ) && final(self).timers().dom().len() == old(self).timers().dom().len() + 1,
    {
        let key = TimerQueueKey { expires_at, order: self.next_order };
        self.next_order = if self.next_order == u64::MAX {
            0
        } else {
            self.next_order + 1
        };
        let timer = Timer { expires_at, is_periodic, interval, action };
        let h = self.queue.insert(key, timer);
        proof {
            self.queue.lemma_len_is_map_size();
            old(self).queue.lemma_len_is_map_size();
            assert forall|k: TimerQueueKey| #[trigger]
                self.queue@.contains_key(k) implies self.queue@[k].expires_at == k.expires_at && (
            self.queue@[k].is_periodic ==> self.queue@[k].interval is Some) by {
                if k != key {
                    assert(old(self).queue@.contains_key(k));
                }
            }
            if orders_below(old(self).timers(), old(self).next_order_spec())
                && old(self).next_order_spec() < u64::MAX {
                assert(!old(self).timers().contains_key(key));
                assert(self.timers().dom() =~= old(self).timers().dom().insert(key));
            }
        }
        h
    }

    /// A queue whose tree changed only by the removal of one key keeps its
    /// timers' invariants.
    proof fn lemma_keeps_timers_wf(&self, prev: &Self)
        requires
            prev.wf(),
            self.queue.wf(),
            exists|k: TimerQueueKey| self.queue@ == prev.queue@.remove(k),
        ensures
            self.wf(),
    {
        let k = choose|k: TimerQueueKey| self.queue@ == prev.queue@.remove(k);
        assert forall|j: TimerQueueKey| #[trigger]
            self.queue@.contains_key(j) implies self.queue@[j].expires_at == j.expires_at && (
        self.queue@[j].is_periodic ==> self.queue@[j].interval is Some) by {
            assert(prev.queue@.contains_key(j));
        }
    }

    /// The soonest key, if any.
    fn min_key(&self) -> (r: Option<TimerQueueKey>)
        requires
            self.wf(),
        ensures
            match r {
                None => self.timers().dom().len() == 0,
                Some(k) => is_min_key(self.timers(), k),
            },
    {
        match self.queue.min() {
            None => None,
            Some(k) => Some(*k),
        }
    }

    /// The soonest key if its timer has expired at `now`.
    fn earliest_expired_key(&self, now: u64) -> (r: Option<TimerQueueKey>)
        requires
            self.wf(),
        ensures
            match r {
                None => forall|k: TimerQueueKey| #[trigger]
                    self.timers().contains_key(k) ==> now < k.expires_at,
                Some(k) => is_min_key(self.timers(), k) && k.expires_at <= now,
            },
    {
        proof {
            self.queue.lemma_len_is_map_size();
        }
        let key = match self.min_key() {
            None => {
                proof {
                    assert forall|k: TimerQueueKey| #[trigger]
                        self.timers().contains_key(k) implies now < k.expires_at by {
                        assert(self.timers().dom().contains(k));
                    }
                }
                return None;
            },
            Some(k) => k,
        };
        if key.expires_at <= now {
            Some(key)
        } else {
            proof {
                assert forall|j: TimerQueueKey| #[trigger]
                    self.timers().contains_key(j) implies now < j.expires_at by {
                    assert(key.rank() <= j.rank());
                }
            }
            None
        }
    }

    /// The key of the timer that `handle` names, if the handle is valid.
    fn queue_key_of(&self, handle: TimerHandle) -> (r: Option<TimerQueueKey>)
        requires
            self.wf(),
        ensures
            match r {
                None => !self.handle_valid(handle),
                Some(k) => self.handle_valid(handle) && k == self.handle_key(handle),
            },
    {
        match self.queue.arena_get(handle) {
            None => None,
            Some(node) => Some(node.key),
        }
    }

    /// The earliest registered key among those that expire at `expires`.
    fn find_first_key_at_expiry(&self, expires: u64) -> (r: Option<TimerQueueKey>)
        requires
            self.wf(),
        ensures
            match r {
                None => !has_expiry(self.timers(), expires),
                Some(k) => first_key_at(self.timers(), expires, k),
            },
    {
        let keys = self.queue.in_order();
        let mut i: usize = 0;
        while i < keys.len()
            invariant
                i <= keys@.len(),
                forall|a: int| 0 <= a < i ==> (#[trigger] keys@[a]).0.expires_at != expires,
                forall|a: int, c: int|
                    0 <= a < c < keys@.len() ==> (#[trigger] keys@[a]).0.rank() < (#[trigger] keys@[c]).0.rank(),
                forall|k: TimerQueueKey| #[trigger]
                    self.timers().contains_key(k) ==> exists|a: int|
                        0 <= a < keys@.len() && (#[trigger] keys@[a]).0 == k,
                forall|a: int| 0 <= a < keys@.len() ==> self.timers().contains_key((#[trigger] keys@[a]).0),
            decreases keys@.len() - i,
        {
            if keys[i].0.expires_at == expires {
                let k = keys[i].0;
                proof {
                    assert forall|j: TimerQueueKey| #[trigger]
                        self.timers().contains_key(j) && j.expires_at == expires implies k.order
                        <= j.order by {
                        let a = choose|a: int| 0 <= a < keys@.len() && (#[trigger] keys@[a]).0 == j;
                        if a > i as int {
                            assert(keys@[i as int].0.rank() < keys@[a].0.rank());
                        }
                    }
                }
                return Some(k);
            }
            i = i + 1;
        }
        proof {
            assert forall|j: TimerQueueKey| #[trigger]
                self.timers().contains_key(j) implies j.expires_at != expires by {
                let a = choose|a: int| 0 <= a < keys@.len() && (#[trigger] keys@[a]).0 == j;
                assert(keys@[a].0.expires_at != expires);
            }
        }
        None
    }

    /// Queues a fired periodic timer again, one interval after its expiry
    /// (saturating at the largest time).
    fn reinsert_periodic(&mut self, fired: &Timer)
        requires
            old(self).wf(),
            old(self).timers().dom().len() < usize::MAX,
            fired.is_periodic ==> fired.interval is Some,
        ensures
            final(self).wf(),
            final(self).timers() == (if fired.is_periodic {
                old(self).timers().insert(
                    old(self).key_for(sat_add(fired.expires_at, fired.interval->0@)),
                    Timer { expires_at: sat_add(fired.expires_at, fired.interval->0@), ..*fired },
                )
            } else {
                old(self).timers()
            }),
            final(self).next_order_spec() == (if fired.is_periodic {
                next_registration(old(self).next_order_spec())
            } else {
                old(self).next_order_spec()
            }),
    {
        if !fired.is_periodic {
            return ;
        }
        let interval = match fired.interval {
            Some(iv) => iv,
            None => return ,
        };
        let next_expires = fired.expires_at.saturating_add(interval.as_nanos());
        let _ = self.insert_timer(next_expires, fired.is_periodic, fired.interval, fired.action);
    }
}

/// A timer that is added and then cancelled through its handle leaves the
/// queue as it was, provided that its registration order was fresh.
pub proof fn lemma_cancel_undoes_add(
    m: Map<TimerQueueKey, Timer>,
    next_order: u64,
    expires: u64,
    t: Timer,
)
    requires
        orders_below(m, next_order),
    ensures
        m.insert(TimerQueueKey { expires_at: expires, order: next_order }, t).remove(
            TimerQueueKey { expires_at: expires, order: next_order },
        ) == m,
{
    let k = TimerQueueKey { expires_at: expires, order: next_order };
    assert(!m.contains_key(k));
    assert(m.insert(k, t).remove(k) =~= m);
}

/// Polling at a time before the nearest deadline changes nothing: the queue
/// keeps every timer when none has expired.
pub proof fn lemma_nothing_expires_before_next(m: Map<TimerQueueKey, Timer>, next: u64, now: u64)
    requires
        has_expiry(m, next),
        forall|k: TimerQueueKey| #[trigger] m.contains_key(k) ==> next <= k.expires_at,
        now < next,
    ensures
        forall|k: TimerQueueKey| #[trigger] m.contains_key(k) ==> now < k.expires_at,
{
}

impl Default for HrTimerSubsystem {
    fn default() -> (r: Self)
        ensures
            r.wf(),
            r.timers() == Map::<TimerQueueKey, Timer>::empty(),
            r.next_order_spec() == 0,
    {
        Self::new()
    }
}

} // verus!
