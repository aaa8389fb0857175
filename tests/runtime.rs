use notify_rt::runtime::{NotifyPad, PadState, Runtime, WaitNotification, WaitPoll, WaitState};

fn ready_runtime() -> Runtime {
    let mut rt = Runtime::dangling();
    rt.init();
    rt
}

#[test]
fn dangling_runtime_is_uninitialized() {
    let rt = Runtime::dangling();
    assert!(!rt.is_initialized());
    assert_eq!(rt.slot_count(), 1);
    assert_eq!(rt.slot_state(0), PadState::Vacant);
    let _pad = NotifyPad::dangling();
}

#[test]
fn init_makes_an_empty_cycle() {
    let rt = ready_runtime();
    assert!(rt.is_initialized());
    assert!(rt.root_is_cycle_empty());
    assert_eq!(rt.waiting_slots(), Vec::<usize>::new());
}

#[test]
fn first_poll_registers_and_is_pending() {
    let mut rt = ready_runtime();
    let mut w = WaitNotification::new();
    assert_eq!(w.state(), WaitState::Unresumed);
    assert_eq!(w.poll(&mut rt, 7), WaitPoll::Pending);
    assert_eq!(w.state(), WaitState::Registered(1));
    assert_eq!(rt.slot_state(1), PadState::Waiting(7));
    assert_eq!(rt.waiting_slots(), vec![1]);
    assert!(!rt.root_is_cycle_empty());
}

#[test]
fn notify_wakes_all_in_registration_order() {
    let mut rt = ready_runtime();
    let mut a = WaitNotification::new();
    let mut b = WaitNotification::new();
    let mut c = WaitNotification::new();
    assert_eq!(a.poll(&mut rt, 10), WaitPoll::Pending);
    assert_eq!(b.poll(&mut rt, 20), WaitPoll::Pending);
    assert_eq!(c.poll(&mut rt, 30), WaitPoll::Pending);
    assert_eq!(rt.waiting_slots(), vec![1, 2, 3]);
    assert_eq!(rt.notify_all(), vec![10, 20, 30]);
    assert!(rt.root_is_cycle_empty());
    assert_eq!(rt.slot_state(1), PadState::Notified);
    assert_eq!(rt.slot_state(2), PadState::Notified);
    assert_eq!(rt.slot_state(3), PadState::Notified);
    // a second notification wakes nobody again
    assert_eq!(rt.notify_all(), Vec::<u64>::new());
    assert_eq!(a.poll(&mut rt, 0), WaitPoll::Ready);
    assert_eq!(b.poll(&mut rt, 0), WaitPoll::Ready);
    assert_eq!(c.poll(&mut rt, 0), WaitPoll::Ready);
}

#[test]
fn dropped_pending_wait_is_never_woken() {
    let mut rt = ready_runtime();
    let mut a = WaitNotification::new();
    let mut b = WaitNotification::new();
    let mut c = WaitNotification::new();
    a.poll(&mut rt, 1);
    b.poll(&mut rt, 2);
    c.poll(&mut rt, 3);
    b.drop(&mut rt);
    assert_eq!(rt.waiting_slots(), vec![1, 3]);
    assert_eq!(rt.slot_state(2), PadState::Vacant);
    assert_eq!(rt.notify_all(), vec![1, 3]);
    assert_eq!(rt.slot_state(2), PadState::Vacant);
    assert!(rt.root_is_cycle_empty());
}

#[test]
fn dropping_first_and_last_keeps_the_cycle() {
    let mut rt = ready_runtime();
    let mut a = WaitNotification::new();
    let mut b = WaitNotification::new();
    let mut c = WaitNotification::new();
    a.poll(&mut rt, 1);
    b.poll(&mut rt, 2);
    c.poll(&mut rt, 3);
    a.drop(&mut rt);
    assert_eq!(rt.waiting_slots(), vec![2, 3]);
    c.drop(&mut rt);
    assert_eq!(rt.waiting_slots(), vec![2]);
    b.drop(&mut rt);
    assert!(rt.root_is_cycle_empty());
    assert_eq!(rt.notify_all(), Vec::<u64>::new());
}

#[test]
fn cancel_then_register_reuses_the_slot() {
    let mut rt = ready_runtime();
    let mut first = WaitNotification::new();
    first.poll(&mut rt, 5);
    assert_eq!(first.state(), WaitState::Registered(1));
    first.drop(&mut rt);
    assert!(rt.root_is_cycle_empty());
    let mut second = WaitNotification::new();
    second.poll(&mut rt, 6);
    assert_eq!(second.state(), WaitState::Registered(1));
    assert_eq!(rt.slot_count(), 2);
    assert_eq!(rt.notify_all(), vec![6]);
    assert_eq!(second.poll(&mut rt, 0), WaitPoll::Ready);
    assert_eq!(second.state(), WaitState::Completed);
}

#[test]
fn lowest_vacant_slot_is_taken_first() {
    let mut rt = ready_runtime();
    let mut a = WaitNotification::new();
    let mut b = WaitNotification::new();
    let mut c = WaitNotification::new();
    a.poll(&mut rt, 1);
    b.poll(&mut rt, 2);
    c.poll(&mut rt, 3);
    a.drop(&mut rt);
    b.drop(&mut rt);
    let mut d = WaitNotification::new();
    d.poll(&mut rt, 4);
    assert_eq!(d.state(), WaitState::Registered(1));
    assert_eq!(rt.waiting_slots(), vec![3, 1]);
    assert_eq!(rt.notify_all(), vec![3, 4]);
}

#[test]
fn notify_on_empty_registry_is_noop() {
    let mut rt = ready_runtime();
    assert_eq!(rt.notify_all(), Vec::<u64>::new());
    assert!(rt.root_is_cycle_empty());
    assert!(rt.is_initialized());
    assert_eq!(rt.slot_count(), 1);
}

#[test]
fn repoll_before_notify_replaces_the_handle() {
    let mut rt = ready_runtime();
    let mut w = WaitNotification::new();
    assert_eq!(w.poll(&mut rt, 1), WaitPoll::Pending);
    assert_eq!(w.poll(&mut rt, 2), WaitPoll::Pending);
    assert_eq!(rt.slot_state(1), PadState::Waiting(2));
    assert_eq!(rt.waiting_slots(), vec![1]);
    assert_eq!(rt.notify_all(), vec![2]);
    assert_eq!(w.poll(&mut rt, 3), WaitPoll::Ready);
}

#[test]
fn completed_wait_drop_changes_nothing() {
    let mut rt = ready_runtime();
    let mut w = WaitNotification::new();
    w.poll(&mut rt, 9);
    assert_eq!(rt.notify_all(), vec![9]);
    assert_eq!(w.poll(&mut rt, 9), WaitPoll::Ready);
    assert_eq!(rt.slot_state(1), PadState::Vacant);
    w.drop(&mut rt);
    assert_eq!(rt.slot_state(1), PadState::Vacant);
    assert_eq!(rt.slot_count(), 2);
    assert!(rt.root_is_cycle_empty());
}

#[test]
fn notified_but_unpolled_wait_drop_frees_slot() {
    let mut rt = ready_runtime();
    let mut w = WaitNotification::new();
    w.poll(&mut rt, 4);
    rt.notify_all();
    assert_eq!(rt.slot_state(1), PadState::Notified);
    w.drop(&mut rt);
    assert_eq!(rt.slot_state(1), PadState::Vacant);
    assert!(rt.root_is_cycle_empty());
}

#[test]
fn unresumed_wait_drop_changes_nothing() {
    let mut rt = ready_runtime();
    let w = WaitNotification::new();
    w.drop(&mut rt);
    assert_eq!(rt.slot_count(), 1);
    assert!(rt.root_is_cycle_empty());
}

#[test]
fn end_to_end_two_tasks_then_cancel() {
    let mut rt = ready_runtime();
    let mut wait1 = WaitNotification::new();
    let mut wait2 = WaitNotification::new();
    assert_eq!(wait1.poll(&mut rt, 100), WaitPoll::Pending);
    assert_eq!(wait2.poll(&mut rt, 200), WaitPoll::Pending);
    assert_eq!(rt.notify_all(), vec![100, 200]);
    assert_eq!(wait1.poll(&mut rt, 100), WaitPoll::Ready);
    assert_eq!(wait2.poll(&mut rt, 200), WaitPoll::Ready);
    assert!(rt.root_is_cycle_empty());
    wait1.drop(&mut rt);
    wait2.drop(&mut rt);
    let mut wait3 = WaitNotification::new();
    assert_eq!(wait3.poll(&mut rt, 100), WaitPoll::Pending);
    assert!(!rt.root_is_cycle_empty());
    wait3.drop(&mut rt);
    assert!(rt.root_is_cycle_empty());
    assert_eq!(rt.waiting_slots(), Vec::<usize>::new());
}
