use sysbus::bus::RecvError;
use sysbus::cell::Filter;
use sysbus::cell::ReconfigurationCell;
use sysbus::cell::SharedReconfigurationCell;
use sysbus::event::SysEvent;
use sysbus::registry::Subsystem;
use sysbus::registry::bootstrap;
use sysbus::registry::config_consumer_step;
use sysbus::registry::shared_config_consumer_step;

fn filter(text: &str) -> Filter {
    Filter { directive: text.to_string() }
}

#[test]
fn cell_is_empty_before_first_set() {
    let cell = ReconfigurationCell::new();
    assert_eq!(cell.get(), None);
}

#[test]
fn get_observes_whole_completed_sets_only() {
    let mut cell = ReconfigurationCell::new();
    let old = filter("info");
    let new = filter("debug,sysbus=trace");
    cell.set(old.clone());
    assert_eq!(cell.get(), Some(old.clone()));
    cell.set(new.clone());
    // A reader sees the prior filter or the new one in full, never a mix.
    let seen = cell.get().unwrap();
    assert!(seen == old || seen == new);
    assert_eq!(seen, new);
}

#[test]
fn shared_cell_swaps_whole_values() {
    let cell = SharedReconfigurationCell::new();
    assert_eq!(cell.get(), None);
    let old = filter("info");
    let new = filter("debug,sysbus=trace");
    cell.set(old.clone());
    assert_eq!(cell.get(), Some(old.clone()));
    let acted = shared_config_consumer_step(&cell, &SysEvent::ConfigReloaded, new.clone());
    assert!(acted);
    let seen = cell.get().unwrap();
    assert!(seen == old || seen == new);
    assert_eq!(seen, new);
    let ignored = shared_config_consumer_step(
        &cell,
        &SysEvent::MarketStatus("open".to_string()),
        filter("error"),
    );
    assert!(!ignored);
    assert_eq!(cell.get(), Some(new));
}

#[test]
fn reload_event_drives_the_cell() {
    let mut cell = ReconfigurationCell::new();
    let acted = config_consumer_step(&mut cell, &SysEvent::ConfigReloaded, filter("warn"));
    assert!(acted);
    assert_eq!(cell.get(), Some(filter("warn")));
    let ignored = config_consumer_step(
        &mut cell,
        &SysEvent::MarketStatus("open".to_string()),
        filter("error"),
    );
    assert!(!ignored);
    assert_eq!(cell.get(), Some(filter("warn")));
}

#[test]
fn startup_registers_every_subsystem_once() {
    let system = bootstrap();
    let subsystems: Vec<Subsystem> = system
        .registry
        .entries
        .iter()
        .map(|entry| entry.subsystem)
        .collect();
    assert_eq!(
        subsystems,
        vec![
            Subsystem::ServiceManager,
            Subsystem::ClientManager,
            Subsystem::AssetManager,
            Subsystem::Telemetry,
            Subsystem::MarketStatusTracker,
            Subsystem::PrimaryMonitor,
            Subsystem::ConfigManager,
            Subsystem::Persistence,
        ]
    );
}

#[test]
fn every_registered_subsystem_sees_a_published_event() {
    let mut system = bootstrap();
    assert_eq!(system.bus.publish(SysEvent::ConfigReloaded), Ok(8));
    for entry in system.registry.entries.iter_mut() {
        assert_eq!(entry.subscription.next(&system.bus), Ok(SysEvent::ConfigReloaded));
        assert_eq!(entry.subscription.next(&system.bus), Err(RecvError::Empty));
    }
}

#[test]
fn default_capacity_bus_starts_open_and_empty() {
    let mut bus = sysbus::init();
    let mut sub = bus.subscribe();
    assert_eq!(sub.next(&bus), Err(RecvError::Empty));
    assert_eq!(bus.publish(SysEvent::ConfigReloaded), Ok(1));
    assert_eq!(sub.next(&bus), Ok(SysEvent::ConfigReloaded));
}
