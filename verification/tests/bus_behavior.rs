use sysbus::bus::Bus;
use sysbus::bus::BusError;
use sysbus::bus::RecvError;
use sysbus::event::SysEvent;

fn status(label: &str) -> SysEvent {
    SysEvent::MarketStatus(label.to_string())
}

#[test]
fn faithful_delivery_in_order() {
    let mut bus = Bus::new(8);
    let mut sub = bus.subscribe();
    assert_eq!(bus.publish(status("E1")), Ok(1));
    assert_eq!(bus.publish(status("E2")), Ok(1));
    assert_eq!(bus.publish(status("E3")), Ok(1));
    assert_eq!(sub.next(&bus), Ok(status("E1")));
    assert_eq!(sub.next(&bus), Ok(status("E2")));
    assert_eq!(sub.next(&bus), Ok(status("E3")));
    assert_eq!(sub.next(&bus), Err(RecvError::Empty));
}

#[test]
fn lag_reported_once_with_exact_count() {
    let mut bus = Bus::new(2);
    let mut sub = bus.subscribe();
    for label in ["E1", "E2", "E3", "E4"] {
        bus.publish(status(label)).unwrap();
    }
    // E1 and E2 were evicted while the subscription was not reading.
    assert_eq!(sub.next(&bus), Err(RecvError::Lagged(2)));
    assert_eq!(sub.next(&bus), Ok(status("E3")));
    assert_eq!(sub.next(&bus), Ok(status("E4")));
    assert_eq!(sub.next(&bus), Err(RecvError::Empty));
}

#[test]
fn overflow_with_capacity_four() {
    // Capacity 4; E1..E6 published with no subscriber reading: E1 and E2
    // are evicted, the lag is reported once with that exact count, and
    // delivery resumes at the oldest entry still available.
    let mut bus = Bus::new(4);
    let mut sub = bus.subscribe();
    for label in ["E1", "E2", "E3", "E4", "E5", "E6"] {
        bus.publish(status(label)).unwrap();
    }
    assert_eq!(sub.next(&bus), Err(RecvError::Lagged(2)));
    assert_eq!(sub.next(&bus), Ok(status("E3")));
    assert_eq!(sub.next(&bus), Ok(status("E4")));
}

#[test]
fn shutdown_resolves_pending_reader_with_closed() {
    let mut bus = Bus::new(4);
    let mut sub = bus.subscribe();
    bus.close();
    assert_eq!(sub.next(&bus), Err(RecvError::Closed));
    assert_eq!(sub.next(&bus), Err(RecvError::Closed));
}

#[test]
fn shutdown_lets_readers_drain_first() {
    let mut bus = Bus::new(4);
    let mut sub = bus.subscribe();
    bus.publish(status("last")).unwrap();
    bus.close();
    assert_eq!(sub.next(&bus), Ok(status("last")));
    assert_eq!(sub.next(&bus), Err(RecvError::Closed));
}

#[test]
fn publish_after_shutdown_fails() {
    let mut bus = Bus::new(4);
    bus.close();
    assert_eq!(bus.publish(SysEvent::ConfigReloaded), Err(BusError::ShutDown));
}

#[test]
fn every_live_subscription_receives_the_exact_value() {
    let mut bus = Bus::new(16);
    let mut first = bus.subscribe();
    let mut second = bus.subscribe();
    let event = SysEvent::AssetTransition {
        id: "AAPL".to_string(),
        state: "halted".to_string(),
        reason: Some("circuit-breaker".to_string()),
    };
    assert_eq!(bus.publish(event.clone()), Ok(2));
    assert_eq!(first.next(&bus), Ok(event.clone()));
    assert_eq!(second.next(&bus), Ok(event));
}

#[test]
fn publish_reports_deliverable_count() {
    let mut bus = Bus::new(4);
    assert_eq!(bus.publish(SysEvent::ConfigReloaded), Ok(0));
    let one = bus.subscribe();
    let _two = bus.subscribe();
    assert_eq!(bus.publish(SysEvent::ConfigReloaded), Ok(2));
    bus.unsubscribe(one);
    assert_eq!(bus.publish(SysEvent::ConfigReloaded), Ok(1));
}

#[test]
fn subscription_starts_at_now() {
    let mut bus = Bus::new(4);
    bus.publish(status("before")).unwrap();
    let mut sub = bus.subscribe();
    assert_eq!(sub.next(&bus), Err(RecvError::Empty));
    bus.publish(status("after")).unwrap();
    assert_eq!(sub.next(&bus), Ok(status("after")));
}
