use moose::rb_tree::{Color, RedBlackTree};
use moose::scheduler::{Event, Scheduler, PRIORITIES_NUM};
use moose::process::{scheduler_action, SchedulerAction, Status};
use moose::device_manager::{
    can_be_bus_controller, device_interrupt_vectors, driver_fits, register_device_interrupt,
    DeviceInterruptMap,
};
use moose::pci::{MassStorageControllerSubclass, NetworkControllerSubclass, PciDeviceClass};

#[test]
fn tree_insert_then_get_returns_value() {
    let mut t: RedBlackTree<u64, &str> = RedBlackTree::new();
    t.insert(17, "a");
    t.insert(18, "b");
    t.insert(17, "c");
    assert_eq!(t.get(&17), Some(&"c"));
    assert_eq!(t.get(&18), Some(&"b"));
    assert_eq!(t.get(&19), None);
    assert_eq!(t.len(), 2);
}

#[test]
fn tree_remove_returns_old_value_and_forgets_key() {
    let mut t: RedBlackTree<u64, u64> = RedBlackTree::new();
    for k in 0..100u64 {
        t.insert(k, k * 10);
    }
    assert_eq!(t.remove(&42), Some(420));
    assert_eq!(t.remove(&42), None);
    assert!(!t.contains(&42));
    assert_eq!(t.len(), 99);
    assert!(t.contains(&41));
}

#[test]
fn tree_min_max_and_in_order_are_sorted() {
    let mut t: RedBlackTree<u64, ()> = RedBlackTree::new();
    for k in [50u64, 20, 80, 10, 30, 70, 90, 25] {
        t.insert(k, ());
    }
    assert_eq!(t.min(), Some(&10));
    assert_eq!(t.max(), Some(&90));
    let keys: Vec<u64> = t.in_order().iter().map(|(k, _)| *k).collect();
    assert_eq!(keys, vec![10, 20, 25, 30, 50, 70, 80, 90]);
}

#[test]
fn tree_root_is_black_after_inserts() {
    let mut t: RedBlackTree<u64, ()> = RedBlackTree::new();
    for k in 0..32u64 {
        t.insert(k, ());
    }
    let nodes = t.in_order();
    assert_eq!(nodes.len(), 32);
    assert!(nodes.iter().any(|(_, c)| *c == Color::Black));
}

#[test]
fn tree_handles_survive_other_removals() {
    let mut t: RedBlackTree<u64, u64> = RedBlackTree::new();
    let h1 = t.insert(1, 100);
    let h2 = t.insert(2, 200);
    t.insert(3, 300);
    t.remove(&3);
    assert_eq!(t.arena_get(h1).map(|n| n.value), Some(100));
    t.remove(&2);
    assert!(t.arena_get(h2).is_none());
    assert_eq!(t.find_node(&1), Some(h1));
}

#[test]
fn tree_empty_queries() {
    let t: RedBlackTree<u64, u64> = RedBlackTree::new();
    assert!(t.is_empty());
    assert_eq!(t.min(), None);
    assert_eq!(t.max(), None);
    assert!(t.in_order().is_empty());
}

#[test]
fn scheduler_serves_highest_priority_first() {
    let mut s = Scheduler::new();
    assert!(s.schedule(1, 3, Status::Running));
    assert!(s.schedule(2, 10, Status::Running));
    assert!(s.schedule(3, 10, Status::Running));
    assert_eq!(s.take_next_thread(), Some(2));
    assert_eq!(s.current_thread(), Some(2));
    assert_eq!(s.take_next_thread(), Some(3));
    assert_eq!(s.take_next_thread(), Some(1));
    assert_eq!(s.take_next_thread(), None);
    assert_eq!(s.current_thread(), Some(1));
}

#[test]
fn scheduler_schedule_twice_queues_once() {
    let mut s = Scheduler::new();
    s.schedule(7, 5, Status::Running);
    s.schedule(7, 5, Status::Running);
    assert_eq!(s.take_next_thread(), Some(7));
    assert_eq!(s.take_next_thread(), None);
}

#[test]
fn scheduler_ignores_threads_that_do_not_run() {
    let mut s = Scheduler::new();
    assert!(!s.schedule(4, 2, Status::Waiting));
    assert!(!s.schedule(5, 2, Status::Stopped));
    assert_eq!(s.take_next_thread(), None);
}

#[test]
fn scheduler_unschedule_removes_thread() {
    let mut s = Scheduler::new();
    s.schedule(1, 8, Status::Running);
    s.schedule(2, 8, Status::Running);
    s.unschedule(1, 8);
    s.unschedule(9, 8);
    assert_eq!(s.take_next_thread(), Some(2));
    assert_eq!(s.take_next_thread(), None);
}

#[test]
fn scheduler_priority_above_range_uses_top_queue() {
    assert_eq!(Scheduler::queue_index(100), PRIORITIES_NUM - 1);
    assert_eq!(Scheduler::queue_index(3), 3);
    let mut s = Scheduler::new();
    s.schedule(1, 14, Status::Running);
    s.schedule(2, 100, Status::Running);
    assert_eq!(s.take_next_thread(), Some(2));
}

#[test]
fn scheduler_tick_requeues_previous_thread() {
    let mut s = Scheduler::new();
    s.schedule(1, 4, Status::Running);
    s.schedule(2, 4, Status::Running);
    assert_eq!(s.schedule_next_thread(true, 4), Some(1));
    assert_eq!(s.schedule_next_thread(true, 4), Some(2));
    assert_eq!(s.schedule_next_thread(false, 4), Some(1));
    assert_eq!(s.schedule_next_thread(false, 4), None);
    assert_eq!(s.current_thread(), None);
}

#[test]
fn status_changes_drive_the_scheduler() {
    assert_eq!(scheduler_action(Status::Running, Status::Waiting), SchedulerAction::Unschedule);
    assert_eq!(scheduler_action(Status::Running, Status::Stopped), SchedulerAction::Unschedule);
    assert_eq!(scheduler_action(Status::Waiting, Status::Running), SchedulerAction::Schedule);
    assert_eq!(scheduler_action(Status::Stopped, Status::Running), SchedulerAction::Schedule);
    assert_eq!(scheduler_action(Status::Running, Status::Running), SchedulerAction::Nothing);
    assert_eq!(scheduler_action(Status::Waiting, Status::Stopped), SchedulerAction::Nothing);
}

#[test]
fn event_notify_releases_waiters_in_order() {
    let mut e = Event::new();
    e.wait_on(3);
    e.wait_on(1);
    assert_eq!(e.notify(), vec![3, 1]);
    assert!(e.notify().is_empty());
}

#[test]
fn interrupt_map_appends_in_registration_order() {
    let mut m = DeviceInterruptMap::new();
    assert!(m.drivers_for(14).is_empty());
    assert!(register_device_interrupt(&mut m, 1, 14));
    assert!(register_device_interrupt(&mut m, 2, 14));
    assert!(register_device_interrupt(&mut m, 3, 15));
    assert_eq!(m.drivers_for(14), vec![1, 2]);
    assert_eq!(m.drivers_for(15), vec![3]);
    assert!(m.drivers_for(16).is_empty());
}

#[test]
fn device_vectors_skip_syscall() {
    let v = device_interrupt_vectors();
    assert_eq!(v.len(), 223);
    assert_eq!(v[0], 32);
    assert_eq!(*v.last().unwrap(), 255);
    assert!(!v.contains(&0x80));
}

#[test]
fn bus_controllers_take_bus_drivers() {
    assert!(can_be_bus_controller(PciDeviceClass::MassStorageController(
        MassStorageControllerSubclass::Ide
    )));
    assert!(!can_be_bus_controller(PciDeviceClass::NetworkController(
        NetworkControllerSubclass::Ethernet
    )));
    assert!(driver_fits(true, true));
    assert!(driver_fits(false, false));
    assert!(!driver_fits(true, false));
    assert!(!driver_fits(false, true));
}

#[test]
fn rb_tree_get_mut_writes_through() {
    let mut tree: RedBlackTree<u64, u64> = RedBlackTree::new();
    tree.insert(5, 10);
    tree.insert(7, 20);
    let handle = tree.find_node(&7).unwrap();
    *tree.get_mut(&5).unwrap() = 99;
    assert_eq!(tree.get(&5), Some(&99));
    assert_eq!(tree.get(&7), Some(&20));
    assert!(tree.get_mut(&6).is_none());
    assert_eq!(tree.find_node(&7), Some(handle));
    assert_eq!(tree.len(), 2);
}

#[test]
fn tree_survives_removals_of_black_leaves() {
    let mut t: RedBlackTree<u64, u64> = RedBlackTree::new();
    for k in 1..=4u64 {
        t.insert(k, k);
    }
    assert_eq!(t.remove(&1), Some(1));
    assert_eq!(
        t.in_order(),
        vec![(2, Color::Black), (3, Color::Black), (4, Color::Black)]
    );
    for k in 0..200u64 {
        t.insert(k, k + 1);
    }
    for k in (0..200u64).filter(|k| k % 3 == 0) {
        assert_eq!(t.remove(&k), Some(k + 1));
    }
    assert_eq!(t.len(), 133);
    for k in (0..200u64).rev() {
        assert_eq!(t.remove(&k), if k % 3 == 0 { None } else { Some(k + 1) });
    }
    assert!(t.is_empty());
    assert_eq!(t.min(), None);
}

#[test]
fn tree_insert_of_present_key_returns_its_handle() {
    let mut t: RedBlackTree<u64, u64> = RedBlackTree::new();
    let h = t.insert(7, 70);
    for k in 0..20u64 {
        t.insert(k + 100, k);
    }
    assert_eq!(t.insert(7, 71), h);
    assert_eq!(t.find_node(&7), Some(h));
    assert_eq!(t.get(&7), Some(&71));
}
