//! Processes and threads: identifiers, thread states and what a change of state
//! asks of the scheduler.
use vstd::prelude::*;
use crate::scheduler::{Scheduler, spec_queue_index, push_once, removed_first};

verus! {

/// Identifier of a process.
pub type ProcessId = usize;

/// Identifier of a thread.
pub type ThreadId = usize;

/// Scheduling state of a thread.
#[derive(Clone, Copy, PartialEq, Eq, Structural, Debug)]
pub enum Status {
    Running,
    Stopped,
    Waiting,
}

/// What the scheduler has to do after a thread changed its state.
#[derive(Clone, Copy, PartialEq, Eq, Structural, Debug)]
pub enum SchedulerAction {
    /// Take the thread out of the execution queues.
    Unschedule,
    /// Put the thread into the execution queue of its priority.
    Schedule,
    /// Leave the queues as they are.
    Nothing,
}

/// The scheduler's part of a change of state from `current` to `new_status`:
/// a running thread that stops or starts waiting leaves the queues, a stopped
/// or waiting thread that runs again enters them.
pub open spec fn spec_scheduler_action(current: Status, new_status: Status) -> SchedulerAction {
    match current {
        Status::Running => match new_status {
            Status::Stopped | Status::Waiting => SchedulerAction::Unschedule,
            Status::Running => SchedulerAction::Nothing,
        },
        Status::Stopped | Status::Waiting => if new_status == Status::Running {
            SchedulerAction::Schedule
        } else {
            SchedulerAction::Nothing
        },
    }
}

/// A thread joins the run queues exactly when it starts running again and
/// leaves them exactly when it stops running; every other change of state,
/// such as a waiting thread that goes on waiting or stops, leaves the queues
/// alone.
pub proof fn lemma_only_running_threads_are_queued(current: Status, new_status: Status)
    ensures
        (spec_scheduler_action(current, new_status) == SchedulerAction::Schedule) <==> (current
            != Status::Running && new_status == Status::Running),
        (spec_scheduler_action(current, new_status) == SchedulerAction::Unschedule) <==> (current
            == Status::Running && new_status != Status::Running),
        new_status != Status::Running ==> spec_scheduler_action(current, new_status) != SchedulerAction::Schedule,
{
}

/// Decides what a change of a thread's state from `current` to `new_status`
/// asks of the scheduler.
pub fn scheduler_action(current: Status, new_status: Status) -> (r: SchedulerAction)
    ensures
        r == spec_scheduler_action(current, new_status),
        r == SchedulerAction::Schedule <==> current != Status::Running && new_status == Status::Running,
        r == SchedulerAction::Unschedule <==> current == Status::Running && new_status != Status::Running,
{
    match current {
        Status::Running => match new_status {
            Status::Stopped | Status::Waiting => SchedulerAction::Unschedule,
            Status::Running => SchedulerAction::Nothing,
        },
        Status::Stopped | Status::Waiting => if new_status == Status::Running {
            SchedulerAction::Schedule
        } else {
            SchedulerAction::Nothing
        },
    }
}

/// Size in bytes of the stack of a thread and of an interrupt stack.
pub const STACK_BYTES: usize = 16384;

/// The stack of a thread.
pub struct ThreadStack(pub Vec<u8>);

impl ThreadStack {
    /// A zeroed thread stack.
    pub fn new() -> (r: Self)
        ensures
            r.0@.len() == STACK_BYTES,
            forall|i: int| 0 <= i < STACK_BYTES ==> #[trigger] r.0@[i] == 0u8,
    {
        ThreadStack(zeroed_stack())
    }
}

/// A stack that the processor switches to on interrupts.
pub struct InterruptStack(pub Vec<u8>);

impl InterruptStack {
    /// A zeroed interrupt stack.
    pub fn new() -> (r: Self)
        ensures
            r.0@.len() == STACK_BYTES,
            forall|i: int| 0 <= i < STACK_BYTES ==> #[trigger] r.0@[i] == 0u8,
    {
        InterruptStack(zeroed_stack())
    }
}

/// `STACK_BYTES` zero bytes.
fn zeroed_stack() -> (v: Vec<u8>)
    ensures
        v@.len() == STACK_BYTES,
        forall|i: int| 0 <= i < STACK_BYTES ==> #[trigger] v@[i] == 0u8,
{
    let mut v: Vec<u8> = Vec::new();
    let mut i: usize = 0;
    while i < STACK_BYTES
        invariant
            i <= STACK_BYTES,
            v@.len() == i,
            forall|j: int| 0 <= j < i ==> #[trigger] v@[j] == 0u8,
        decreases STACK_BYTES - i,
    {
        v.push(0u8);
        i = i + 1;
    }
    v
}

/// The general-purpose, instruction, flag and segment registers of a thread,
/// as the interrupt entry saves them.
#[derive(Clone, Copy, Debug, Default)]
pub struct Registers {
    pub rax: u64,
    pub rbx: u64,
    pub rcx: u64,
    pub rdx: u64,
    pub rsi: u64,
    pub rdi: u64,
    pub rbp: u64,
    pub rsp: u64,
    pub r8: u64,
    pub r9: u64,
    pub r10: u64,
    pub r11: u64,
    pub r12: u64,
    pub r13: u64,
    pub r14: u64,
    pub r15: u64,
    pub rip: u64,
    pub rflags: u64,
    pub cs: u16,
    pub ss: u16,
    pub fs: u64,
    pub gs: u64,
}


/// A thread: its identifier, its process, its state, where it starts, its
/// saved registers, its stack, whether it runs in kernel mode, whether it is
/// to be rescheduled when it leaves the processor, and its priority.
#[derive(Clone, Copy, Debug)]
pub struct Thread {
    pub id: ThreadId,
    pub process: ProcessId,
    pub status: Status,
    pub entry: u64,
    pub registers: Registers,
    pub stack: u64,
    pub is_kernel_mode: bool,
    pub reschedule: bool,
    pub priority: usize,
}

impl Thread {
    /// The process the thread belongs to.
    pub fn process(&self) -> (r: ProcessId)
        ensures
            r == self.process,
    {
        self.process
    }

    /// The thread's priority.
    pub fn priority(&self) -> (r: usize)
        ensures
            r == self.priority,
    {
        self.priority
    }

    /// The thread's identifier.
    pub fn id(&self) -> (r: ThreadId)
        ensures
            r == self.id,
    {
        self.id
    }

    /// The thread's scheduling state.
    pub fn status(&self) -> (r: Status)
        ensures
            r == self.status,
    {
        self.status
    }

    /// Whether the thread runs in kernel mode.
    pub fn is_kernel_mode(&self) -> (r: bool)
        ensures
            r == self.is_kernel_mode,
    {
        self.is_kernel_mode
    }

    /// Sets the thread's state to `new_status` and does the scheduler's part
    /// of the change: a running thread that stops or waits leaves its
    /// execution queue, a stopped or waiting thread that runs again joins
    /// the queue of its priority.
    pub fn set_status(&mut self, scheduler: &mut Scheduler, new_status: Status)
        requires
            old(scheduler).wf(),
        ensures
            *final(self) == (Thread { status: new_status, ..*old(self) }),
            final(scheduler).wf(),
            new_status != Status::Running ==> forall|q: int|
                0 <= q < final(scheduler)@.len() ==> (#[trigger] final(scheduler)@[q]).len() <= old(scheduler)@[q].len(),
            final(scheduler).current() == old(scheduler).current(),
            spec_scheduler_action(old(self).status, new_status) == SchedulerAction::Nothing
                ==> final(scheduler)@ == old(scheduler)@,
            spec_scheduler_action(old(self).status, new_status) == SchedulerAction::Schedule
                ==> final(scheduler)@ == old(scheduler)@.update(
                spec_queue_index(old(self).priority),
                push_once(old(scheduler)@[spec_queue_index(old(self).priority)], old(self).id),
            ),
            spec_scheduler_action(old(self).status, new_status) == SchedulerAction::Unschedule ==> {
                &&& final(scheduler)@.len() == old(scheduler)@.len()
                &&& forall|q: int|
                    0 <= q < old(scheduler)@.len() && q != spec_queue_index(old(self).priority)
                        ==> #[trigger] final(scheduler)@[q] == old(scheduler)@[q]
                &&& removed_first(
                    old(scheduler)@[spec_queue_index(old(self).priority)],
                    old(self).id,
                    final(scheduler)@[spec_queue_index(old(self).priority)],
                )
            },
    {
        let action = scheduler_action(self.status, new_status);
        self.status = new_status;
        match action {
            SchedulerAction::Unschedule => scheduler.unschedule(self.id, self.priority),
            SchedulerAction::Schedule => {
                scheduler.schedule(self.id, self.priority, Status::Running);
            },
            SchedulerAction::Nothing => {},
        }
    }
}

/// A process: its identifier, the physical address of its top-level page
/// table and its threads.
pub struct Process {
    pub id: ProcessId,
    pub page_table_physical_address: u64,
    pub threads: Vec<ThreadId>,
}

impl Process {
    /// The process's identifier.
    pub fn id(&self) -> (r: ProcessId)
        ensures
            r == self.id,
    {
        self.id
    }

    /// The process's threads.
    pub fn threads(&self) -> (r: &Vec<ThreadId>)
        ensures
            r@ == self.threads@,
    {
        &self.threads
    }
}

/// Nanoseconds in a millisecond.
pub const NANOS_PER_MILLI: u64 = 1_000_000;

/// The deadline of a sleep of `time_in_ms` milliseconds that starts at
/// `now_ns` nanoseconds since boot.
pub fn sleep_deadline(now_ns: u64, time_in_ms: u64) -> (r: u64)
    requires
        now_ns + time_in_ms * NANOS_PER_MILLI <= u64::MAX,
    ensures
        r == now_ns + time_in_ms * NANOS_PER_MILLI,
{
    proof {
        assert(time_in_ms * NANOS_PER_MILLI <= u64::MAX);
    }
    now_ns + time_in_ms * NANOS_PER_MILLI
}

} // verus!
