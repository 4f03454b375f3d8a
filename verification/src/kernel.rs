//! Setting up processes and threads: priorities, the registers a new thread
//! starts with, and the parts of the kernel's address space that every
//! process shares.
use vstd::prelude::*;
use crate::process::{Registers, STACK_BYTES, Process, ProcessId, Status, Thread, ThreadId};
use crate::scheduler::{Scheduler, push_once};
use crate::scheduler::PRIORITIES_NUM;

verus! {

/// Priority of new threads (the middle of the range).
pub const DEFAULT_THREAD_PRIORITY: usize = 8;
/// Least urgent priority.
pub const LOWEST_THREAD_PRIORITY: usize = 0;
/// Most urgent priority.
pub const HIGHEST_THREAD_PRIORITY: usize = 15;

/// Kernel code segment selector (GDT entry 5, ring 0).
pub const KERNEL_CODE_SELECTOR: u16 = 40;
/// Kernel data segment selector (GDT entry 6, ring 0).
pub const KERNEL_DATA_SELECTOR: u16 = 48;
/// User code segment selector (GDT entry 7, ring 3).
pub const USER_CODE_SELECTOR: u16 = 59;
/// User data segment selector (GDT entry 8, ring 3).
pub const USER_DATA_SELECTOR: u16 = 67;

/// Bytes that a page maps.
pub const PAGE_SIZE: u64 = 4096;
/// Bytes that one entry of the top-level page table maps.
pub const PML4_ENTRY_SPAN: u64 = 0x80_0000_0000;

/// The priorities are the scheduler's.
pub proof fn lemma_priorities_match()
    ensures
        HIGHEST_THREAD_PRIORITY == PRIORITIES_NUM - 1,
        DEFAULT_THREAD_PRIORITY == PRIORITIES_NUM / 2,
{
}

/// Accepts a priority of a new thread: at most the highest one.
pub fn check_priority(priority: usize) -> (r: Result<(), ()>)
    ensures
        r is Ok <==> priority <= HIGHEST_THREAD_PRIORITY,
{
    if priority > HIGHEST_THREAD_PRIORITY {
        return Err(());
    }
    Ok(())
}

/// Registers that are all zero.
pub open spec fn zero_registers() -> Registers {
    Registers {
        rax: 0,
        rbx: 0,
        rcx: 0,
        rdx: 0,
        rsi: 0,
        rdi: 0,
        rbp: 0,
        rsp: 0,
        r8: 0,
        r9: 0,
        r10: 0,
        r11: 0,
        r12: 0,
        r13: 0,
        r14: 0,
        r15: 0,
        rip: 0,
        rflags: 0,
        cs: 0,
        ss: 0,
        fs: 0,
        gs: 0,
    }
}

/// The registers a thread starts with: at `entry_point`, with its stack
/// pointer 16 bytes below the top of the stack at `stack`, in the given code
/// and stack segments, with `gs` and `rflags` as they are now, and zero
/// elsewhere.
pub open spec fn initial_registers(
    entry_point: u64,
    stack: u64,
    code_selector: u16,
    data_selector: u16,
    gs: u64,
    rflags: u64,
) -> Registers {
    Registers {
        rip: entry_point,
        rsp: (stack + STACK_BYTES - 16) as u64,
        cs: code_selector,
        ss: data_selector,
        gs,
        rflags,
        ..zero_registers()
    }
}

/// The registers of a new user-mode thread.
pub fn user_thread_registers(entry_point: u64, stack: u64, gs: u64, rflags: u64) -> (r: Registers)
    requires
        stack + STACK_BYTES <= u64::MAX,
    ensures
        r == initial_registers(entry_point, stack, USER_CODE_SELECTOR, USER_DATA_SELECTOR, gs, rflags),
{
    thread_registers(entry_point, stack, USER_CODE_SELECTOR, USER_DATA_SELECTOR, gs, rflags)
}

/// The registers of a new kernel-mode thread.
pub fn kernel_thread_registers(entry_point: u64, stack: u64, gs: u64, rflags: u64) -> (r: Registers)
    requires
        stack + STACK_BYTES <= u64::MAX,
    ensures
        r == initial_registers(
            entry_point,
            stack,
            KERNEL_CODE_SELECTOR,
            KERNEL_DATA_SELECTOR,
            gs,
            rflags,
        ),
{
    thread_registers(entry_point, stack, KERNEL_CODE_SELECTOR, KERNEL_DATA_SELECTOR, gs, rflags)
}

fn thread_registers(
    entry_point: u64,
    stack: u64,
    code_selector: u16,
    data_selector: u16,
    gs: u64,
    rflags: u64,
) -> (r: Registers)
    requires
        stack + STACK_BYTES <= u64::MAX,
    ensures
        r == initial_registers(entry_point, stack, code_selector, data_selector, gs, rflags),
{
    Registers {
        rax: 0,
        rbx: 0,
        rcx: 0,
        rdx: 0,
        rsi: 0,
        rdi: 0,
        rbp: 0,
        rsp: stack + STACK_BYTES as u64 - 16,
        r8: 0,
        r9: 0,
        r10: 0,
        r11: 0,
        r12: 0,
        r13: 0,
        r14: 0,
        r15: 0,
        rip: entry_point,
        rflags,
        cs: code_selector,
        ss: data_selector,
        fs: 0,
        gs,
    }
}

/// The entry of the top-level page table that maps `address`.
pub fn pml4_index(address: u64) -> (r: usize)
    ensures
        r == (address / PML4_ENTRY_SPAN) % 512,
        r < 512,
{
    let i = (address >> 39u64) & 0x1FF;
    proof {
        crate::bits::lemma_u64_fields(address);
    }
    i as usize
}

/// The top-level entries that a new address space copies from the kernel's:
/// those that map the kernel image, the kernel stack and the kernel heap, in
/// that order.
pub fn shared_kernel_entries(kernel_virtual_base: u64, kernel_stack: u64, heap_start: u64) -> (r: Vec<
    usize,
>)
    ensures
        r@ == seq![
            ((kernel_virtual_base / PML4_ENTRY_SPAN) % 512) as usize,
            ((kernel_stack / PML4_ENTRY_SPAN) % 512) as usize,
            ((heap_start / PML4_ENTRY_SPAN) % 512) as usize,
        ],
{
    let mut v: Vec<usize> = Vec::new();
    v.push(pml4_index(kernel_virtual_base));
    v.push(pml4_index(kernel_stack));
    v.push(pml4_index(heap_start));
    v
}

/// The addresses of the pages of a stack that starts at `base`.
pub fn stack_pages(base: u64) -> (r: Vec<u64>)
    requires
        base + STACK_BYTES <= u64::MAX,
    ensures
        r@.len() == STACK_BYTES as int / PAGE_SIZE as int,
        forall|i: int| 0 <= i < r@.len() ==> #[trigger] r@[i] == base + i * PAGE_SIZE,
{
    let mut v: Vec<u64> = Vec::new();
    let mut i: u64 = 0;
    while i < STACK_BYTES as u64 / PAGE_SIZE
        invariant
            i <= 4,
            base + STACK_BYTES <= u64::MAX,
            v@.len() == i,
            forall|j: int| 0 <= j < i ==> #[trigger] v@[j] == base + j * PAGE_SIZE,
        decreases 4 - i,
    {
        v.push(base + i * PAGE_SIZE);
        i = i + 1;
    }
    v
}

/// Where the interrupt stack of a processor starts, from the stack pointer
/// `rsp0` that its task state segment loads (16 bytes below the stack's top).
pub fn interrupt_stack_base(rsp0: u64) -> (r: u64)
    requires
        rsp0 >= STACK_BYTES,
    ensures
        r == rsp0 - STACK_BYTES + 16,
{
    rsp0 - STACK_BYTES as u64 + 16
}

/// The pages of the interrupt stacks that a new address space maps again:
/// four pages for each processor whose `rsp0` is set, in processor order.
pub fn interrupt_stack_pages(rsp0s: &[u64]) -> (r: Vec<u64>)
    requires
        forall|i: int| 0 <= i < rsp0s@.len() ==> #[trigger] rsp0s@[i] == 0 || (STACK_BYTES
            <= rsp0s@[i] && rsp0s@[i] + 16 <= u64::MAX),
        rsp0s@.len() * 4 <= usize::MAX,
    ensures
        r@ == interrupt_pages_spec(rsp0s@),
{
    let mut v: Vec<u64> = Vec::new();
    let mut i: usize = 0;
    while i < rsp0s.len()
        invariant
            i <= rsp0s@.len(),
            forall|k: int| 0 <= k < rsp0s@.len() ==> #[trigger] rsp0s@[k] == 0 || (STACK_BYTES
                <= rsp0s@[k] && rsp0s@[k] + 16 <= u64::MAX),
            v@ == interrupt_pages_spec(rsp0s@.subrange(0, i as int)),
        decreases rsp0s@.len() - i,
    {
        let rsp0 = rsp0s[i];
        proof {
            assert(rsp0s@.subrange(0, i + 1).drop_last() =~= rsp0s@.subrange(0, i as int));
        }
        if rsp0 != 0 {
            let base = interrupt_stack_base(rsp0);
            let pages = stack_pages(base);
            let ghost before = v@;
            let mut k: usize = 0;
            while k < pages.len()
                invariant
                    k <= pages@.len(),
                    pages@.len() == 4,
                    v@ == before + pages@.subrange(0, k as int),
                decreases pages@.len() - k,
            {
                v.push(pages[k]);
                k = k + 1;
                proof {
                    assert(v@ =~= before + pages@.subrange(0, k as int));
                }
            }
            proof {
                assert(pages@.subrange(0, 4) =~= pages@);
                assert(pages@ =~= seq![base, (base + 4096) as u64, (base + 8192) as u64, (base + 12288) as u64]);
            }
        }
        i = i + 1;
    }
    proof {
        assert(rsp0s@.subrange(0, rsp0s@.len() as int) =~= rsp0s@);
    }
    v
}

/// The interrupt stack pages for the processors' `rsp0` values, in order.
pub open spec fn interrupt_pages_spec(rsp0s: Seq<u64>) -> Seq<u64>
    decreases rsp0s.len(),
{
    if rsp0s.len() == 0 {
        Seq::empty()
    } else {
        let rest = interrupt_pages_spec(rsp0s.drop_last());
        let rsp0 = rsp0s.last();
        if rsp0 == 0 {
            rest
        } else {
            let base = rsp0 - STACK_BYTES + 16;
            rest + seq![base as u64, (base + 4096) as u64, (base + 8192) as u64, (base + 12288) as u64]
        }
    }
}


/// A new thread in the given mode, running, to be rescheduled, with the
/// registers of a thread of that mode that starts at `entry_point` on the
/// stack at `stack`.
pub open spec fn new_thread(
    id: ThreadId,
    process: ProcessId,
    entry_point: u64,
    stack: u64,
    gs: u64,
    rflags: u64,
    is_kernel_mode: bool,
    priority: usize,
) -> Thread {
    Thread {
        id,
        process,
        status: Status::Running,
        entry: entry_point,
        registers: if is_kernel_mode {
            initial_registers(
                entry_point,
                stack,
                KERNEL_CODE_SELECTOR,
                KERNEL_DATA_SELECTOR,
                gs,
                rflags,
            )
        } else {
            initial_registers(entry_point, stack, USER_CODE_SELECTOR, USER_DATA_SELECTOR, gs, rflags)
        },
        stack,
        is_kernel_mode,
        reschedule: true,
        priority,
    }
}

/// The kernel's processes and threads, and the identifiers that the next
/// process and the next thread get.
pub struct Kernel {
    current_usable_process_id: usize,
    current_usable_thread_id: usize,
    processes: Vec<Process>,
    threads: Vec<Thread>,
}

impl Kernel {
    /// The identifier that the next process gets.
    pub closed spec fn next_process_id(&self) -> nat {
        self.current_usable_process_id as nat
    }

    /// The identifier that the next thread gets.
    pub closed spec fn next_thread_id(&self) -> nat {
        self.current_usable_thread_id as nat
    }

    /// The identifiers of the processes, in the order they were made.
    pub closed spec fn process_ids(&self) -> Seq<ProcessId> {
        Seq::new(self.processes@.len(), |i: int| self.processes@[i].id)
    }

    /// The threads of each process, in the order of `process_ids`.
    pub closed spec fn process_threads(&self) -> Seq<Seq<ThreadId>> {
        Seq::new(self.processes@.len(), |i: int| self.processes@[i].threads@)
    }

    /// The physical address of each process's top-level page table, in the
    /// order of `process_ids`.
    pub closed spec fn page_tables(&self) -> Seq<u64> {
        Seq::new(self.processes@.len(), |i: int| self.processes@[i].page_table_physical_address)
    }

    /// The threads, in the order they were made.
    pub closed spec fn thread_records(&self) -> Seq<Thread> {
        self.threads@
    }

    /// Every identifier given out is below the next one.
    pub open spec fn wf(&self) -> bool {
        &&& forall|i: int| 0 <= i < self.process_ids().len()
            ==> #[trigger] self.process_ids()[i] < self.next_process_id()
        &&& forall|i: int| 0 <= i < self.thread_records().len()
            ==> #[trigger] self.thread_records()[i].id < self.next_thread_id()
    }

    /// A kernel with no processes and no threads.
    pub fn new() -> (r: Self)
        ensures
            r.wf(),
            r.next_process_id() == 0,
            r.next_thread_id() == 0,
            r.process_ids().len() == 0,
            r.thread_records().len() == 0,
    {
        Kernel {
            current_usable_process_id: 0,
            current_usable_thread_id: 0,
            processes: Vec::new(),
            threads: Vec::new(),
        }
    }

    /// The identifier that the next process gets.
    pub fn current_usable_process_id(&self) -> (r: usize)
        ensures
            r == self.next_process_id(),
    {
        self.current_usable_process_id
    }

    /// The identifier that the next thread gets.
    pub fn current_usable_thread_id(&self) -> (r: usize)
        ensures
            r == self.next_thread_id(),
    {
        self.current_usable_thread_id
    }

    /// The processes, in the order they were made.
    pub fn processes(&self) -> (r: &Vec<Process>)
        ensures
            r@.len() == self.process_ids().len(),
            forall|i: int| 0 <= i < r@.len() ==> {
                &&& #[trigger] r@[i].id == self.process_ids()[i]
                &&& r@[i].threads@ == self.process_threads()[i]
                &&& r@[i].page_table_physical_address == self.page_tables()[i]
            },
    {
        &self.processes
    }

    /// The threads, in the order they were made.
    pub fn threads(&self) -> (r: &Vec<Thread>)
        ensures
            r@ == self.thread_records(),
    {
        &self.threads
    }

    /// Adds the kernel's own process, with the kernel's page table at
    /// `page_table_physical_address` and no threads, under the next process
    /// identifier, which it returns.
    pub fn initialize_kernel_process(&mut self, page_table_physical_address: u64) -> (r: ProcessId)
        requires
            old(self).wf(),
            old(self).next_process_id() < usize::MAX,
        ensures
            final(self).wf(),
            r == old(self).next_process_id(),
            final(self).next_process_id() == r + 1,
            final(self).next_thread_id() == old(self).next_thread_id(),
            final(self).process_ids() == old(self).process_ids().push(r),
            final(self).process_threads() == old(self).process_threads().push(Seq::empty()),
            final(self).page_tables() == old(self).page_tables().push(page_table_physical_address),
            final(self).thread_records() == old(self).thread_records(),
    {
        let id = self.current_usable_process_id;
        self.current_usable_process_id = id + 1;
        self.processes.push(Process { id, page_table_physical_address, threads: Vec::new() });
        proof {
            assert(self.process_ids() =~= old(self).process_ids().push(id));
            assert(self.process_threads() =~= old(self).process_threads().push(Seq::empty()));
            assert(self.page_tables() =~= old(self).page_tables().push(page_table_physical_address));
        }
        id
    }

    /// Spawns a user process whose program starts at `entry_point`, with the
    /// top-level page table at `page_table_physical_address` and one thread
    /// on the stack at `stack`, and queues that thread for execution. The
    /// thread's `gs` and `rflags` start as given. A priority above the
    /// highest is refused and changes nothing. Otherwise the process and the
    /// thread get the next identifiers, which are returned: the process is
    /// added with that one thread, the thread is added, running, in user
    /// mode, at `priority`, and joins the execution queue of its priority.
    pub fn spawn_process(
        &mut self,
        scheduler: &mut Scheduler,
        priority: usize,
        entry_point: u64,
        stack: u64,
        page_table_physical_address: u64,
        gs: u64,
        rflags: u64,
    ) -> (r: Result<(ProcessId, ThreadId), ()>)
        requires
            old(self).wf(),
            old(scheduler).wf(),
            old(self).next_process_id() < usize::MAX,
            old(self).next_thread_id() < usize::MAX,
            stack + STACK_BYTES <= u64::MAX,
        ensures
            r is Err <==> priority > HIGHEST_THREAD_PRIORITY,
            r is Err ==> *final(self) == *old(self) && *final(scheduler) == *old(scheduler),
            final(self).wf(),
            final(scheduler).wf(),
            final(scheduler).current() == old(scheduler).current(),
            r matches Ok((p, t)) ==> {
                &&& p == old(self).next_process_id()
                &&& t == old(self).next_thread_id()
                &&& !old(self).process_ids().contains(p)
                &&& forall|i: int| 0 <= i < old(self).thread_records().len()
                    ==> #[trigger] old(self).thread_records()[i].id != t
                &&& final(self).next_process_id() == p + 1
                &&& final(self).next_thread_id() == t + 1
                &&& final(self).process_ids() == old(self).process_ids().push(p)
                &&& final(self).process_threads() == old(self).process_threads().push(seq![t])
                &&& final(self).page_tables() == old(self).page_tables().push(
                    page_table_physical_address,
                )
                &&& final(self).thread_records() == old(self).thread_records().push(
                    new_thread(t, p, entry_point, stack, gs, rflags, false, priority),
                )
                &&& final(scheduler)@ == old(scheduler)@.update(
                    priority as int,
                    push_once(old(scheduler)@[priority as int], t),
                )
            },
    {
        if check_priority(priority).is_err() {
            return Err(());
        }
        let process_id = self.current_usable_process_id;
        self.current_usable_process_id = process_id + 1;
        let thread_id = self.current_usable_thread_id;
        self.current_usable_thread_id = thread_id + 1;
        let registers = user_thread_registers(entry_point, stack, gs, rflags);
        let thread = Thread {
            id: thread_id,
            process: process_id,
            status: Status::Running,
            entry: entry_point,
            registers,
            stack,
            is_kernel_mode: false,
            reschedule: true,
            priority,
        };
        let mut threads: Vec<ThreadId> = Vec::new();
        threads.push(thread_id);
        self.threads.push(thread);
        self.processes.push(Process { id: process_id, page_table_physical_address, threads });
        scheduler.schedule(thread_id, priority, Status::Running);
        proof {
            assert(self.process_ids() =~= old(self).process_ids().push(process_id));
            assert(self.process_threads() =~= old(self).process_threads().push(seq![thread_id]));
            assert(self.page_tables() =~= old(self).page_tables().push(page_table_physical_address));
            assert(self.thread_records() =~= old(self).thread_records().push(
                new_thread(thread_id, process_id, entry_point, stack, gs, rflags, false, priority),
            ));
            if old(self).process_ids().contains(process_id) {
                let i = choose|i: int| 0 <= i < old(self).process_ids().len()
                    && old(self).process_ids()[i] == process_id;
                assert(old(self).process_ids()[i] < old(self).next_process_id());
            }
        }
        Ok((process_id, thread_id))
    }

    /// Spawns a kernel-mode thread of the kernel's process (the first one)
    /// that starts at `entry_point` on the stack at `stack`, with `gs` and
    /// `rflags` as given, and queues it for execution. A priority above the
    /// highest is refused and changes nothing. Otherwise the thread gets the
    /// next thread identifier, which is returned: it joins the threads of the
    /// kernel's process, is added, running, in kernel mode, at `priority`,
    /// and joins the execution queue of its priority.
    pub fn spawn_kernel_thread(
        &mut self,
        scheduler: &mut Scheduler,
        entry_point: u64,
        priority: usize,
        stack: u64,
        gs: u64,
        rflags: u64,
    ) -> (r: Result<ThreadId, ()>)
        requires
            old(self).wf(),
            old(scheduler).wf(),
            old(self).process_ids().len() > 0,
            old(self).next_thread_id() < usize::MAX,
            stack + STACK_BYTES <= u64::MAX,
        ensures
            r is Err <==> priority > HIGHEST_THREAD_PRIORITY,
            r is Err ==> *final(self) == *old(self) && *final(scheduler) == *old(scheduler),
            final(self).wf(),
            final(scheduler).wf(),
            final(scheduler).current() == old(scheduler).current(),
            r matches Ok(t) ==> {
                &&& t == old(self).next_thread_id()
                &&& forall|i: int| 0 <= i < old(self).thread_records().len()
                    ==> #[trigger] old(self).thread_records()[i].id != t
                &&& final(self).next_process_id() == old(self).next_process_id()
                &&& final(self).next_thread_id() == t + 1
                &&& final(self).process_ids() == old(self).process_ids()
                &&& final(self).page_tables() == old(self).page_tables()
                &&& final(self).process_threads() == old(self).process_threads().update(
                    0,
                    old(self).process_threads()[0].push(t),
                )
                &&& final(self).thread_records() == old(self).thread_records().push(
                    new_thread(
                        t,
                        old(self).process_ids()[0],
                        entry_point,
                        stack,
                        gs,
                        rflags,
                        true,
                        priority,
                    ),
                )
                &&& final(scheduler)@ == old(scheduler)@.update(
                    priority as int,
                    push_once(old(scheduler)@[priority as int], t),
                )
            },
    {
        if check_priority(priority).is_err() {
            return Err(());
        }
        let thread_id = self.current_usable_thread_id;
        self.current_usable_thread_id = thread_id + 1;
        let mut kernel_process = self.processes.remove(0);
        let kernel_process_id = kernel_process.id;
        kernel_process.threads.push(thread_id);
        self.processes.insert(0, kernel_process);
        let registers = kernel_thread_registers(entry_point, stack, gs, rflags);
        self.threads.push(
            Thread {
                id: thread_id,
                process: kernel_process_id,
                status: Status::Running,
                entry: entry_point,
                registers,
                stack,
                is_kernel_mode: true,
                reschedule: true,
                priority,
            },
        );
        scheduler.schedule(thread_id, priority, Status::Running);
        proof {
            assert(self.process_ids() =~= old(self).process_ids());
            assert(self.page_tables() =~= old(self).page_tables());
            assert(self.process_threads() =~= old(self).process_threads().update(
                0,
                old(self).process_threads()[0].push(thread_id),
            ));
            assert(self.thread_records() =~= old(self).thread_records().push(
                new_thread(
                    thread_id,
                    old(self).process_ids()[0],
                    entry_point,
                    stack,
                    gs,
                    rflags,
                    true,
                    priority,
                ),
            ));
        }
        Ok(thread_id)
    }
}

} // verus!
