//! The subsystem registry: the consumer subscriptions established at
//! startup.
//!
//! Core data structures come up first; each subsystem then registers by
//! acquiring its own subscription, so the no-consumer case cannot arise.
//! What a subsystem does with an event is its own business — the bus does
//! not know or care — but the decision the configuration consumer makes is
//! part of this crate, since it drives the reconfiguration cell.

use vstd::prelude::*;

use crate::bus::Bus;
use crate::bus::Subscription;
use crate::bus::fresh_model;
use crate::cell::Filter;
use crate::cell::ReconfigurationCell;
use crate::cell::SharedReconfigurationCell;
use crate::event::SysEvent;
use crate::event::SysEventModel;

verus! {

/// The consumers that register at startup.
#[derive(Debug, PartialEq, Eq, Clone, Copy)]
pub enum Subsystem {
    ServiceManager,
    ClientManager,
    AssetManager,
    Telemetry,
    MarketStatusTracker,
    PrimaryMonitor,
    ConfigManager,
    Persistence,
}

/// The startup order in which the subsystems register.
pub open spec fn all_subsystems() -> Seq<Subsystem> {
    seq![
        Subsystem::ServiceManager,
        Subsystem::ClientManager,
        Subsystem::AssetManager,
        Subsystem::Telemetry,
        Subsystem::MarketStatusTracker,
        Subsystem::PrimaryMonitor,
        Subsystem::ConfigManager,
        Subsystem::Persistence,
    ]
}

/// One registered consumer: the subsystem and the subscription it owns.
pub struct RegistryEntry {
    pub subsystem: Subsystem,
    pub subscription: Subscription,
}

/// The set of consumer subscriptions established at startup.
pub struct Registry {
    pub entries: Vec<RegistryEntry>,
}

/// The process-wide core: the bus, the shared reconfiguration cell, and
/// the registry of subscriptions, each constructed once at startup and
/// living for the process's lifetime.
pub struct System {
    pub bus: Bus,
    pub cell: SharedReconfigurationCell,
    pub registry: Registry,
}

/// Builds the core in startup order: first the bus and the cell, then one
/// subscription per subsystem. Every subsystem's cursor starts at the
/// beginning of the (still empty) history, so nothing published afterwards
/// is missed until a subscription falls behind the retention window.
pub fn bootstrap() -> (r: System)
    ensures
        r.bus.wf(),
        r.bus.model() == fresh_model(crate::DEFAULT_CAPACITY as int),
        r.bus.subscriber_count() == all_subsystems().len(),
        r.cell.wf(),
        r.registry.entries@.len() == all_subsystems().len(),
        forall|i: int|
            0 <= i < r.registry.entries@.len() ==> (#[trigger] r.registry.entries@[i]).subsystem
                == all_subsystems()[i] && r.registry.entries@[i].subscription.position() == 0,
{
    let mut bus = Bus::new(crate::DEFAULT_CAPACITY);
    let cell = SharedReconfigurationCell::new();
    let mut entries: Vec<RegistryEntry> = Vec::new();
    let s0 = bus.subscribe();
    entries.push(RegistryEntry { subsystem: Subsystem::ServiceManager, subscription: s0 });
    let s1 = bus.subscribe();
    entries.push(RegistryEntry { subsystem: Subsystem::ClientManager, subscription: s1 });
    let s2 = bus.subscribe();
    entries.push(RegistryEntry { subsystem: Subsystem::AssetManager, subscription: s2 });
    let s3 = bus.subscribe();
    entries.push(RegistryEntry { subsystem: Subsystem::Telemetry, subscription: s3 });
    let s4 = bus.subscribe();
    entries.push(RegistryEntry { subsystem: Subsystem::MarketStatusTracker, subscription: s4 });
    let s5 = bus.subscribe();
    entries.push(RegistryEntry { subsystem: Subsystem::PrimaryMonitor, subscription: s5 });
    let s6 = bus.subscribe();
    entries.push(RegistryEntry { subsystem: Subsystem::ConfigManager, subscription: s6 });
    let s7 = bus.subscribe();
    entries.push(RegistryEntry { subsystem: Subsystem::Persistence, subscription: s7 });
    System { bus, cell, registry: Registry { entries } }
}

/// The decision the configuration consumer makes for one observed event:
/// a configuration reload installs the freshly re-read filter into the
/// cell, whole; every other variant takes the no-op route and leaves the
/// cell untouched. Returns whether the event was acted on.
pub fn config_consumer_step(
    cell: &mut ReconfigurationCell,
    event: &SysEvent,
    reloaded: Filter,
) -> (r: bool)
    requires
        old(cell).wf(),
    ensures
        final(cell).wf(),
        r == (event@ matches SysEventModel::ConfigReloaded),
        (event@ matches SysEventModel::ConfigReloaded) ==> final(cell).completed_sets() == old(
            cell,
        ).completed_sets().push(reloaded@) && final(cell).value() == Option::Some(reloaded@),
        !(event@ matches SysEventModel::ConfigReloaded) ==> *final(cell) == *old(cell),
{
    match event {
        SysEvent::ConfigReloaded => {
            cell.set(reloaded);
            true
        },
        _ => false,
    }
}

/// The same decision against the process-wide shared cell: a reload swaps
/// the filter in atomically through the shared reference; anything else
/// is the no-op route. Returns whether the event was acted on.
pub fn shared_config_consumer_step(
    cell: &SharedReconfigurationCell,
    event: &SysEvent,
    reloaded: Filter,
) -> (r: bool)
    requires
        cell.wf(),
    ensures
        r == (event@ matches SysEventModel::ConfigReloaded),
{
    match event {
        SysEvent::ConfigReloaded => {
            cell.set(reloaded);
            true
        },
        _ => false,
    }
}

} // verus!
