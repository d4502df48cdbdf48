//! An in-process event bus: a closed event taxonomy, a bounded broadcast
//! bus that fans every published event out to every live subscription, a
//! concurrency-safe holder for the active diagnostic-verbosity filter, and
//! the registry of subsystem subscriptions established at startup.

use vstd::prelude::*;

pub mod bus;
pub mod cell;
pub mod codec;
pub mod event;
pub mod registry;

pub use registry::bootstrap;

verus! {

/// Capacity used for the bus the startup path constructs.
pub const DEFAULT_CAPACITY: usize = 1024;

/// Constructs the bus with the default retention capacity; core data
/// structures come up before any subsystem registers.
pub fn init() -> (r: bus::Bus)
    ensures
        r.wf(),
        r.model() == bus::fresh_model(DEFAULT_CAPACITY as int),
        r.subscriber_count() == 0,
{
    bus::Bus::new(DEFAULT_CAPACITY)
}

} // verus!
