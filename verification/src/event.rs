//! The closed taxonomy of domain events distributed on the bus.

use vstd::prelude::*;

verus! {

/// One named integer measurement inside a telemetry snapshot.
#[derive(Debug, PartialEq, Eq)]
pub struct TelemetryField {
    pub key: String,
    pub value: i64,
}

/// Mathematical image of a `TelemetryField`: a key and its reading.
pub struct TelemetryFieldModel {
    pub key: Seq<char>,
    pub value: int,
}

impl View for TelemetryField {
    type V = TelemetryFieldModel;

    open spec fn view(&self) -> TelemetryFieldModel {
        TelemetryFieldModel { key: self.key@, value: self.value as int }
    }
}

impl Clone for TelemetryField {
    fn clone(&self) -> (r: Self)
        ensures
            r@ == self@,
    {
        TelemetryField { key: self.key.clone(), value: self.value }
    }
}

/// A structured measurement snapshot: a sequence of named readings.
pub type TelemetrySample = Vec<TelemetryField>;

/// Mathematical image of a telemetry snapshot.
pub open spec fn sample_model(fields: Seq<TelemetryField>) -> Seq<TelemetryFieldModel> {
    fields.map_values(|f: TelemetryField| f@)
}

/// The closed set of event variants; the tag and payload shape of each is
/// fixed at compile time, so no other kind of event can be constructed.
#[derive(Debug, PartialEq, Eq)]
pub enum SysEvent {
    ConfigReloaded,
    MarketStatus(String),
    AssetTransition { id: String, state: String, reason: Option<String> },
    TelemetryTick(TelemetrySample),
}

/// Mathematical image of a `SysEvent`, used by every contract that speaks
/// of events.
pub enum SysEventModel {
    ConfigReloaded,
    MarketStatus(Seq<char>),
    AssetTransition { id: Seq<char>, state: Seq<char>, reason: Option<Seq<char>> },
    TelemetryTick(Seq<TelemetryFieldModel>),
}

impl View for SysEvent {
    type V = SysEventModel;

    open spec fn view(&self) -> SysEventModel {
        match self {
            SysEvent::ConfigReloaded => SysEventModel::ConfigReloaded,
            SysEvent::MarketStatus(s) => SysEventModel::MarketStatus(s@),
            SysEvent::AssetTransition { id, state, reason } => (SysEventModel::AssetTransition {
                id: id@,
                state: state@,
                reason: match reason {
                    Option::Some(r) => Option::Some(r@),
                    Option::None => Option::None,
                },
            }),
            SysEvent::TelemetryTick(fields) => SysEventModel::TelemetryTick(sample_model(fields@)),
        }
    }
}

/// Clones a telemetry snapshot field by field.
fn clone_sample(fields: &TelemetrySample) -> (r: TelemetrySample)
    ensures
        sample_model(r@) == sample_model(fields@),
{
    let mut out: Vec<TelemetryField> = Vec::new();
    let mut i: usize = 0;
    while i < fields.len()
        invariant
            i <= fields@.len(),
            sample_model(out@) =~= sample_model(fields@).take(i as int),
        decreases fields@.len() - i,
    {
        let ghost prev = out@;
        out.push(fields[i].clone());
        proof {
            assert(sample_model(out@) =~= sample_model(prev).push(fields@[i as int]@));
            assert(sample_model(fields@).take(i + 1) =~= sample_model(fields@).take(
                i as int,
            ).push(fields@[i as int]@));
        }
        i = i + 1;
    }
    proof {
        assert(sample_model(fields@).take(fields@.len() as int) =~= sample_model(fields@));
        assert(sample_model(out@) =~= sample_model(fields@));
    }
    out
}

impl Clone for SysEvent {
    fn clone(&self) -> (r: Self)
        ensures
            r@ == self@,
    {
        match self {
            SysEvent::ConfigReloaded => SysEvent::ConfigReloaded,
            SysEvent::MarketStatus(s) => SysEvent::MarketStatus(s.clone()),
            SysEvent::AssetTransition { id, state, reason } => SysEvent::AssetTransition {
                id: id.clone(),
                state: state.clone(),
                reason: match reason {
                    Option::Some(r) => Option::Some(r.clone()),
                    Option::None => Option::None,
                },
            },
            SysEvent::TelemetryTick(fields) => SysEvent::TelemetryTick(clone_sample(fields)),
        }
    }
}

} // verus!
