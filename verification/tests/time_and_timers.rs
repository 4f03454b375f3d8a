use moose::kernel::{
    check_priority, interrupt_stack_base, interrupt_stack_pages, kernel_thread_registers,
    pml4_index, shared_kernel_entries, stack_pages, user_thread_registers, HIGHEST_THREAD_PRIORITY,
    Kernel,
};
use moose::process::{sleep_deadline, Status, ThreadStack, InterruptStack, STACK_BYTES};
use moose::scheduler::Scheduler;
use moose::statistics::{average, std_dev, Number};
use moose::time::{is_leap_year, DateTime, Duration, DurationUnit, Instant, LoggerTime};
use moose::timer::{HrTimerSubsystem, TimerAction};

#[test]
fn timer_next_expiry_is_soonest() {
    let mut t = HrTimerSubsystem::new();
    assert_eq!(t.next_expiry(), None);
    t.add_timer(500, false, None, TimerAction::Reschedule, 0);
    t.add_timer(200, false, None, TimerAction::Reschedule, 0);
    t.add_timer(900, false, None, TimerAction::Reschedule, 0);
    assert_eq!(t.next_expiry(), Some(200));
    assert_eq!(t.len(), 3);
}

#[test]
fn timer_reprograms_only_for_nearer_deadline() {
    let mut t = HrTimerSubsystem::new();
    let (_, first) = t.add_timer(1_000, false, None, TimerAction::Reschedule, 400);
    assert_eq!(first, Some(600));
    let (_, later) = t.add_timer(2_000, false, None, TimerAction::Reschedule, 400);
    assert_eq!(later, None);
    let (_, sooner) = t.add_timer(700, false, None, TimerAction::Reschedule, 400);
    assert_eq!(sooner, Some(300));
    let (_, same) = t.add_timer(700, false, None, TimerAction::Reschedule, 400);
    assert_eq!(same, None);
}

#[test]
fn timer_poll_drains_in_deadline_order() {
    let mut t = HrTimerSubsystem::new();
    t.add_timer(30, false, None, TimerAction::WakeUp { process_id: 1, thread_id: 3 }, 0);
    t.add_timer(10, false, None, TimerAction::WakeUp { process_id: 1, thread_id: 1 }, 0);
    t.add_timer(20, false, None, TimerAction::WakeUp { process_id: 1, thread_id: 2 }, 0);
    assert!(t.poll_expired(5).is_none());
    let a = t.poll_expired(25).unwrap();
    let b = t.poll_expired(25).unwrap();
    assert_eq!((a.expires_at, b.expires_at), (10, 20));
    assert!(t.poll_expired(25).is_none());
    assert_eq!(t.poll_expired(30).unwrap().expires_at, 30);
    assert!(t.is_empty());
}

#[test]
fn timer_periodic_is_requeued_one_interval_later() {
    let mut t = HrTimerSubsystem::new();
    t.add_timer(100, true, Some(Duration::from_nanos(50)), TimerAction::Reschedule, 0);
    let fired = t.poll_expired(100).unwrap();
    assert!(fired.is_periodic);
    assert_eq!(t.next_expiry(), Some(150));
    assert_eq!(t.len(), 1);
}

#[test]
fn timer_periodic_saturates_at_the_end_of_time() {
    let mut t = HrTimerSubsystem::new();
    t.add_timer(u64::MAX - 10, true, Some(Duration::from_nanos(50)), TimerAction::Reschedule, 0);
    t.poll_expired(u64::MAX).unwrap();
    assert_eq!(t.next_expiry(), Some(u64::MAX));
}

#[test]
fn timer_cancel_by_handle() {
    let mut t = HrTimerSubsystem::new();
    let (h, _) = t.add_timer(40, false, None, TimerAction::ExecuteCallback { function: 2 }, 0);
    t.add_timer(60, false, None, TimerAction::Reschedule, 0);
    assert!(t.cancel(h));
    assert!(!t.cancel(h));
    assert_eq!(t.next_expiry(), Some(60));
}

#[test]
fn timer_remove_and_find_take_earliest_registration() {
    let mut t = HrTimerSubsystem::new();
    t.add_timer(80, false, None, TimerAction::ExecuteCallback { function: 1 }, 0);
    t.add_timer(80, false, None, TimerAction::ExecuteCallback { function: 2 }, 0);
    assert_eq!(t.find(80).unwrap().action, TimerAction::ExecuteCallback { function: 1 });
    assert!(t.remove_timer(80));
    assert_eq!(t.find(80).unwrap().action, TimerAction::ExecuteCallback { function: 2 });
    assert!(t.remove_timer(80));
    assert!(!t.remove_timer(80));
    assert!(t.find(80).is_none());
}

#[test]
fn timer_delay_is_at_least_one_nanosecond() {
    let mut t = HrTimerSubsystem::default();
    assert_eq!(t.delay_until_next_expiry(0), None);
    t.add_timer(100, false, None, TimerAction::Reschedule, 0);
    assert_eq!(t.delay_until_next_expiry(40), Some(60));
    assert_eq!(t.delay_until_next_expiry(100), Some(1));
    assert_eq!(t.delay_until_next_expiry(500), Some(1));
}

#[test]
fn duration_units_and_parts() {
    assert_eq!(Duration::from_millis(3).as_nanos(), 3_000_000);
    assert_eq!(Duration::from_secs(2).as_nanos(), 2_000_000_000);
    assert_eq!(Duration::from_nanos(999).display_parts(), (999, 0, DurationUnit::Nanoseconds));
    assert_eq!(Duration::from_nanos(1_500).display_parts(), (1, 500, DurationUnit::Microseconds));
    assert_eq!(Duration::from_nanos(2_345_678).display_parts(), (2, 345, DurationUnit::Milliseconds));
    assert_eq!(Duration::from_nanos(3_250_000_000).display_parts(), (3, 250, DurationUnit::Seconds));
}

#[test]
fn instant_arithmetic_round_trips() {
    let start = Instant::now(1_000);
    let later = start + Duration::from_nanos(500);
    assert_eq!(later.as_nanos(), 1_500);
    assert_eq!((later - start).as_nanos(), 500);
    assert_eq!((later - Duration::from_nanos(500)).as_nanos(), 1_000);
}

#[test]
fn logger_time_splits_seconds_and_micros() {
    assert_eq!(LoggerTime::from_mono_ns(12_345_678_901).seconds_and_micros(), (12, 345_678));
}

#[test]
fn logger_time_text_is_padded() {
    assert_eq!(LoggerTime::from_mono_ns(1_234_567_890).to_text(), "[01.234567]");
    assert_eq!(LoggerTime::from_mono_ns(123_000_001_000).to_text(), "[123.000001]");
    assert_eq!(LoggerTime::from_mono_ns(0).to_text(), "[00.000000]");
    assert_eq!(LoggerTime::from_mono_ns(u64::MAX).to_text(), "[18446744073.709551]");
}

#[test]
fn leap_years_follow_the_gregorian_rule() {
    assert!(is_leap_year(2024));
    assert!(!is_leap_year(2023));
    assert!(!is_leap_year(1900));
    assert!(is_leap_year(2000));
}

#[test]
fn unix_time_to_calendar() {
    let epoch = DateTime::from_unix_secs(0);
    assert_eq!((epoch.year, epoch.month, epoch.day), (1970, 1, 1));
    let d = DateTime::from_unix_secs(951_782_400);
    assert_eq!((d.year, d.month, d.day, d.hour, d.minute, d.second), (2000, 2, 29, 0, 0, 0));
    let e = DateTime::from_unix_secs(1_700_000_000);
    assert_eq!((e.year, e.month, e.day, e.hour, e.minute, e.second), (2023, 11, 14, 22, 13, 20));
}

#[test]
fn statistics_of_samples() {
    assert_eq!(average(&[2, 4, 6]), 4);
    assert_eq!(std_dev(&[5]), None);
    assert_eq!(std_dev(&[2, 4, 4, 4, 5, 5, 7, 9]), Some(2));
}

#[test]
fn thread_setup_values() {
    assert!(check_priority(HIGHEST_THREAD_PRIORITY).is_ok());
    assert!(check_priority(HIGHEST_THREAD_PRIORITY + 1).is_err());
    let u = user_thread_registers(0x40_0000, 0x10_0000, 7, 0x202);
    assert_eq!((u.rip, u.rsp, u.cs, u.ss, u.gs, u.rflags, u.rax), (0x40_0000, 0x10_0000 + 16384 - 16, 59, 67, 7, 0x202, 0));
    let k = kernel_thread_registers(0x1000, 0x2000, 0, 2);
    assert_eq!((k.cs, k.ss), (40, 48));
}

#[test]
fn address_space_indices() {
    assert_eq!(pml4_index(0xFFFF_FFFF_8000_0000), 511);
    assert_eq!(pml4_index(0x0000_0080_0000_0000), 1);
    assert_eq!(shared_kernel_entries(0xFFFF_FFFF_8000_0000, 0x0000_0100_0000_0000, 0), vec![511, 2, 0]);
    assert_eq!(stack_pages(0x1000), vec![0x1000, 0x2000, 0x3000, 0x4000]);
    assert_eq!(interrupt_stack_base(0x10_4000), 0x10_4000 - 16384 + 16);
    let pages = interrupt_stack_pages(&[0, 0x20_0000, 0]);
    assert_eq!(pages.len(), 4);
    assert_eq!(pages[0], 0x20_0000 - 16384 + 16);
}

#[test]
fn stacks_start_zeroed() {
    let s = ThreadStack::new();
    assert_eq!(s.0.len(), STACK_BYTES);
    assert!(s.0.iter().all(|b| *b == 0));
    assert_eq!(InterruptStack::new().0.len(), STACK_BYTES);
    assert_eq!(sleep_deadline(1_000, 500), 1_000 + 500_000_000);
}

#[test]
fn integer_square_roots() {
    assert_eq!(0u64.sqrt(), 0);
    assert_eq!(1u64.sqrt(), 1);
    assert_eq!(15u64.sqrt(), 3);
    assert_eq!(16u64.sqrt(), 4);
    assert_eq!(u64::MAX.sqrt(), 4_294_967_295);
    assert_eq!((u64::MAX - 1).sqrt(), 4_294_967_295);
    assert_eq!((4_294_967_295u64 * 4_294_967_295u64).sqrt(), 4_294_967_295);
}

#[test]
fn spawned_processes_get_fresh_ids_and_queued_threads() {
    let mut kernel = Kernel::new();
    let mut scheduler = Scheduler::new();
    assert_eq!(kernel.initialize_kernel_process(0x1000), 0);
    assert_eq!(kernel.spawn_process(&mut scheduler, 16, 0x40_0000, 0x8000, 0x2000, 0, 0x202), Err(()));
    assert_eq!(kernel.processes().len(), 1);
    assert_eq!(scheduler.take_next_thread(), None);

    let (p, t) = kernel.spawn_process(&mut scheduler, 3, 0x40_0000, 0x8000, 0x2000, 7, 0x202).unwrap();
    assert_eq!((p, t), (1, 0));
    let (p2, t2) = kernel.spawn_process(&mut scheduler, 3, 0x50_0000, 0x10000, 0x3000, 7, 0x202).unwrap();
    assert_eq!((p2, t2), (2, 1));
    let process = &kernel.processes()[1];
    assert_eq!(process.id(), 1);
    assert_eq!(process.threads(), &vec![0]);
    let thread = kernel.threads()[0];
    assert_eq!(thread.status(), Status::Running);
    assert_eq!(thread.priority(), 3);
    assert_eq!(thread.process(), 1);
    assert!(!thread.is_kernel_mode());
    assert_eq!(thread.registers.cs, 0x3B);
    assert_eq!(thread.registers.ss, 0x43);
    assert_eq!(thread.registers.rip, 0x40_0000);
    assert_eq!(thread.registers.rsp, 0x8000 + 16 * 1024 - 16);

    let k = kernel.spawn_kernel_thread(&mut scheduler, 0x9000, 15, 0x20000, 7, 0x2).unwrap();
    assert_eq!(k, 2);
    assert_eq!(kernel.processes()[0].threads(), &vec![2]);
    assert!(kernel.threads()[2].is_kernel_mode());
    assert_eq!(kernel.threads()[2].registers.cs, 0x28);
    assert_eq!(kernel.spawn_kernel_thread(&mut scheduler, 0x9000, 99, 0x20000, 7, 0x2), Err(()));

    assert_eq!(scheduler.take_next_thread(), Some(2));
    assert_eq!(scheduler.take_next_thread(), Some(0));
    assert_eq!(scheduler.take_next_thread(), Some(1));
    assert_eq!(scheduler.take_next_thread(), None);
}

#[test]
fn thread_status_changes_drive_the_scheduler() {
    let mut kernel = Kernel::new();
    let mut scheduler = Scheduler::new();
    kernel.spawn_process(&mut scheduler, 5, 0x40_0000, 0x8000, 0x2000, 0, 0).unwrap();
    let mut thread = kernel.threads()[0];
    thread.set_status(&mut scheduler, Status::Waiting);
    assert_eq!(thread.status(), Status::Waiting);
    assert_eq!(scheduler.take_next_thread(), None);
    thread.set_status(&mut scheduler, Status::Running);
    assert_eq!(scheduler.take_next_thread(), Some(0));
}
