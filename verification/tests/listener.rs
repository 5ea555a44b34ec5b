use snirelay::listener::{ListenEvent, ListenStep, Listener};

#[test]
fn slots_are_taken_before_clients_are_accepted() {
    let (mut l, first) = Listener::start();
    assert_eq!(first, ListenStep::TakeSlot);
    assert!(!l.holds_slot());
    assert_eq!(l.on_event(ListenEvent::Running), ListenStep::TakeSlot);
    assert_eq!(l.on_event(ListenEvent::SlotTaken), ListenStep::Accept);
    assert!(l.holds_slot());
    assert_eq!(l.on_event(ListenEvent::Running), ListenStep::Accept);
    assert_eq!(l.on_event(ListenEvent::Accepted), ListenStep::Serve);
    assert!(!l.holds_slot());
    assert_eq!(l.on_event(ListenEvent::SlotTaken), ListenStep::Accept);
    assert_eq!(l.on_event(ListenEvent::AcceptFailed), ListenStep::GiveBack);
    assert!(!l.holds_slot());
}

#[test]
fn shutdown_stops_a_listener_that_waits_for_a_slot() {
    let (mut l, _) = Listener::start();
    assert_eq!(l.on_event(ListenEvent::Shutdown), ListenStep::Stop);
    assert_eq!(l.on_event(ListenEvent::SlotTaken), ListenStep::Stop);
    assert!(!l.holds_slot());
    assert_eq!(l.on_event(ListenEvent::Running), ListenStep::Stop);
}

#[test]
fn shutdown_stops_a_listener_that_waits_for_a_client() {
    let (mut l, _) = Listener::start();
    l.on_event(ListenEvent::SlotTaken);
    assert_eq!(l.on_event(ListenEvent::Shutdown), ListenStep::Stop);
    assert!(!l.holds_slot());
    assert_eq!(l.on_event(ListenEvent::Accepted), ListenStep::Stop);
}

#[test]
fn closed_slots_stop_a_listener() {
    let (mut l, _) = Listener::start();
    assert_eq!(l.on_event(ListenEvent::SlotsClosed), ListenStep::Stop);
}
