//! The broadcast bus: a bounded multi-producer fan-out buffer.
//!
//! Every published event is appended to a shared bounded buffer; each
//! subscription owns a read cursor into that buffer. When the buffer is at
//! capacity the oldest retained entry is evicted to make room, so producers
//! never block on slow consumers; a subscription whose cursor has fallen
//! behind the oldest retained entry is told exactly how many events it
//! missed, once, and then resumes at the oldest entry still available.

use vstd::prelude::*;

use crate::event::SysEvent;
use crate::event::SysEventModel;

verus! {

/// Publish-time failure: the bus has been shut down.
#[derive(Debug, PartialEq, Eq, Clone, Copy)]
pub enum BusError {
    ShutDown,
}

/// Why a `next` call returned no event.
#[derive(Debug, PartialEq, Eq, Clone, Copy)]
pub enum RecvError {
    /// The subscription missed this many events to eviction; reported once,
    /// after which delivery resumes at the oldest retained event.
    Lagged(usize),
    /// The bus has been shut down and no buffered event remains: terminal.
    Closed,
    /// No event is buffered past the cursor yet; the caller should wait and
    /// call again once something has been published.
    Empty,
}

/// Pure image of the bus state: the full publish history, the count of
/// evicted entries, the fixed capacity, and whether the bus was shut down.
pub struct BusModel {
    pub hist: Seq<SysEventModel>,
    pub evicted: int,
    pub capacity: int,
    pub closed: bool,
}

/// Validity of a bus image: the retained window `hist[evicted ..]` never
/// exceeds the capacity fixed at construction.
pub open spec fn model_inv(m: BusModel) -> bool {
    &&& 1 <= m.capacity
    &&& 0 <= m.evicted <= m.hist.len()
    &&& m.hist.len() - m.evicted <= m.capacity
}

/// The image of a bus just constructed with the given capacity.
pub open spec fn fresh_model(capacity: int) -> BusModel {
    BusModel { hist: Seq::empty(), evicted: 0, capacity: capacity, closed: false }
}

/// What publishing one event does to the bus image: appended to the
/// history, evicting the oldest retained entry if the window was full;
/// ignored if the bus was already shut down.
pub open spec fn spec_publish(m: BusModel, e: SysEventModel) -> BusModel {
    if m.closed {
        m
    } else {
        BusModel {
            hist: m.hist.push(e),
            evicted: if m.hist.len() - m.evicted == m.capacity {
                m.evicted + 1
            } else {
                m.evicted
            },
            capacity: m.capacity,
            closed: false,
        }
    }
}

/// What one read attempt at the given cursor observes.
pub enum ReadOutcome {
    Delivered(SysEventModel),
    Lagged(int),
    ClosedOut,
    Pending,
}

/// One read step: the outcome observed and the cursor afterwards. A cursor
/// behind the eviction point reports the exact number of missed events and
/// jumps to the oldest retained entry; a cursor inside the retained window
/// delivers the event at that position; a cursor at the end observes
/// shutdown, or has to wait.
pub open spec fn spec_read(m: BusModel, cursor: int) -> (ReadOutcome, int) {
    if cursor < m.evicted {
        (ReadOutcome::Lagged(m.evicted - cursor), m.evicted)
    } else if cursor < m.hist.len() {
        (ReadOutcome::Delivered(m.hist[cursor]), cursor + 1)
    } else if m.closed {
        (ReadOutcome::ClosedOut, cursor)
    } else {
        (ReadOutcome::Pending, cursor)
    }
}

/// The bus: the retained window of events, the producer-side counters, and
/// the ghost history every contract is stated over.
pub struct Bus {
    buf: Vec<SysEvent>,
    evicted: usize,
    capacity: usize,
    closed: bool,
    subscribers: usize,
    hist: Ghost<Seq<SysEventModel>>,
}

/// An independent read handle into the bus; it owns nothing but its cursor.
pub struct Subscription {
    cursor: usize,
}

impl Subscription {
    /// Absolute position of this subscription's cursor in the history.
    pub closed spec fn position(&self) -> int {
        self.cursor as int
    }
}

impl Bus {
    /// The full sequence of events ever published on this bus.
    pub closed spec fn history(&self) -> Seq<SysEventModel> {
        self.hist@
    }

    /// How many of the oldest history entries were evicted.
    pub closed spec fn evicted_count(&self) -> int {
        self.evicted as int
    }

    /// The retention bound fixed at construction.
    pub closed spec fn cap(&self) -> int {
        self.capacity as int
    }

    /// Whether the bus has been shut down.
    pub closed spec fn is_closed(&self) -> bool {
        self.closed
    }

    /// How many subscriptions are currently registered.
    pub closed spec fn subscriber_count(&self) -> int {
        self.subscribers as int
    }

    /// The pure image of this bus.
    pub open spec fn model(&self) -> BusModel {
        BusModel {
            hist: self.history(),
            evicted: self.evicted_count(),
            capacity: self.cap(),
            closed: self.is_closed(),
        }
    }

    /// Internal invariant: the retained buffer is exactly the tail of the
    /// history past the eviction point.
    pub closed spec fn wf(&self) -> bool {
        &&& 1 <= self.capacity
        &&& self.buf@.len() <= self.capacity
        &&& self.hist@.len() == self.evicted + self.buf@.len()
        &&& self.evicted + self.buf@.len() <= usize::MAX
        &&& forall|i: int|
            0 <= i < self.buf@.len() ==> #[trigger] self.buf@[i]@ == self.hist@[self.evicted + i]
    }

    /// A well-formed bus has a valid image.
    pub proof fn lemma_wf_model(&self)
        requires
            self.wf(),
        ensures
            model_inv(self.model()),
    {
    }

    /// Constructs a bus that retains at most `capacity` events.
    pub fn new(capacity: usize) -> (r: Bus)
        requires
            1 <= capacity,
        ensures
            r.wf(),
            r.model() == fresh_model(capacity as int),
            r.subscriber_count() == 0,
    {
        Bus {
            buf: Vec::new(),
            evicted: 0,
            capacity: capacity,
            closed: false,
            subscribers: 0,
            hist: Ghost(Seq::empty()),
        }
    }

    /// Appends the event to the shared buffer, evicting the oldest retained
    /// entry if the buffer is full; succeeds even with zero subscriptions
    /// and reports to how many subscriptions the event is deliverable.
    /// Fails exactly when the bus has been shut down.
    pub fn publish(&mut self, event: SysEvent) -> (r: Result<usize, BusError>)
        requires
            old(self).wf(),
            old(self).history().len() < usize::MAX,
        ensures
            final(self).wf(),
            final(self).model() == spec_publish(old(self).model(), event@),
            final(self).subscriber_count() == old(self).subscriber_count(),
            !old(self).is_closed() ==> (r matches Ok(n) && n == old(self).subscriber_count()),
            old(self).is_closed() ==> r == Err::<usize, BusError>(BusError::ShutDown),
    {
        if self.closed {
            return Err(BusError::ShutDown);
        }
        let ghost ev = event@;
        if self.buf.len() == self.capacity {
            let _ = self.buf.remove(0);
            self.evicted = self.evicted + 1;
        }
        self.buf.push(event);
        proof {
            self.hist@ = self.hist@.push(ev);
        }
        Ok(self.subscribers)
    }

    /// Returns a new read handle whose cursor starts at "now": it will see
    /// only events published after this call.
    pub fn subscribe(&mut self) -> (r: Subscription)
        requires
            old(self).wf(),
            old(self).subscriber_count() < usize::MAX,
        ensures
            final(self).wf(),
            final(self).model() == old(self).model(),
            final(self).subscriber_count() == old(self).subscriber_count() + 1,
            r.position() == final(self).history().len(),
    {
        self.subscribers = self.subscribers + 1;
        Subscription { cursor: self.evicted + self.buf.len() }
    }

    /// Releases one read handle; the buffer and the other subscriptions are
    /// unaffected.
    pub fn unsubscribe(&mut self, subscription: Subscription) -> (r: ())
        requires
            old(self).wf(),
            old(self).subscriber_count() > 0,
        ensures
            final(self).wf(),
            final(self).model() == old(self).model(),
            final(self).subscriber_count() == old(self).subscriber_count() - 1,
    {
        let _ = subscription;
        self.subscribers = self.subscribers - 1;
    }

    /// Shuts the bus down: no further event can be published, and every
    /// subscription that drains the buffer then observes `Closed`.
    pub fn close(&mut self) -> (r: ())
        requires
            old(self).wf(),
        ensures
            final(self).wf(),
            final(self).model() == (BusModel { closed: true, ..old(self).model() }),
            final(self).subscriber_count() == old(self).subscriber_count(),
    {
        self.closed = true;
    }
}

impl Subscription {
    /// One read attempt on this subscription's cursor, exactly as
    /// `spec_read` describes it: an event inside the retained window is
    /// delivered in publish order; a cursor that fell behind the oldest
    /// retained entry reports `Lagged` with the exact count of missed
    /// events, once, and resumes there; a drained cursor observes `Closed`
    /// after shutdown and `Empty` otherwise. `Empty` means the caller
    /// should wait for a publish and call again.
    pub fn next(&mut self, bus: &Bus) -> (r: Result<SysEvent, RecvError>)
        requires
            bus.wf(),
            old(self).position() <= bus.history().len(),
        ensures
            final(self).position() <= bus.history().len(),
            final(self).position() == spec_read(bus.model(), old(self).position()).1,
            (match r {
                Ok(e) => ReadOutcome::Delivered(e@),
                Err(RecvError::Lagged(n)) => ReadOutcome::Lagged(n as int),
                Err(RecvError::Closed) => ReadOutcome::ClosedOut,
                Err(RecvError::Empty) => ReadOutcome::Pending,
            }) == spec_read(bus.model(), old(self).position()).0,
    {
        if self.cursor < bus.evicted {
            let missed = bus.evicted - self.cursor;
            self.cursor = bus.evicted;
            Err(RecvError::Lagged(missed))
        } else if self.cursor - bus.evicted < bus.buf.len() {
            let event = bus.buf[self.cursor - bus.evicted].clone();
            self.cursor = self.cursor + 1;
            Ok(event)
        } else if bus.closed {
            Err(RecvError::Closed)
        } else {
            Err(RecvError::Empty)
        }
    }
}

/// The image after publishing a whole sequence of events, one by one.
pub open spec fn spec_publish_all(m: BusModel, es: Seq<SysEventModel>) -> BusModel
    decreases es.len(),
{
    if es.len() == 0 {
        m
    } else {
        spec_publish_all(spec_publish(m, es[0]), es.drop_first())
    }
}

/// The outcomes of `k` successive read attempts starting at `cursor`.
pub open spec fn spec_read_all(m: BusModel, cursor: int, k: nat) -> Seq<ReadOutcome>
    decreases k,
{
    if k == 0 {
        Seq::empty()
    } else {
        let step = spec_read(m, cursor);
        seq![step.0] + spec_read_all(m, step.1, (k - 1) as nat)
    }
}

/// Publishing onto an open bus appends to the history; while the retained
/// window has room for the whole sequence, nothing is evicted.
pub proof fn lemma_publish_all_retained(m: BusModel, es: Seq<SysEventModel>)
    requires
        model_inv(m),
        !m.closed,
        m.hist.len() - m.evicted + es.len() <= m.capacity,
    ensures
        ({
            let p = spec_publish_all(m, es);
            &&& model_inv(p)
            &&& p.hist == m.hist + es
            &&& p.evicted == m.evicted
            &&& p.capacity == m.capacity
            &&& !p.closed
        }),
    decreases es.len(),
{
    if es.len() == 0 {
        assert(m.hist + es =~= m.hist);
    } else {
        let m1 = spec_publish(m, es[0]);
        assert(m1.hist =~= m.hist.push(es[0]));
        lemma_publish_all_retained(m1, es.drop_first());
        assert(m.hist.push(es[0]) + es.drop_first() =~= m.hist + es);
    }
}

/// In-order delivery: successive reads whose cursor lies inside the
/// retained window deliver exactly the history entries at the cursor, in
/// publish order, with no reordering and no duplication. Since this holds
/// for every cursor, any two subscriptions observe the same relative
/// order for the events both receive — eviction opens gaps, never
/// reorders.
pub proof fn lemma_window_reads_in_order(m: BusModel, cursor: int, k: nat)
    requires
        model_inv(m),
        m.evicted <= cursor,
        cursor + k <= m.hist.len(),
    ensures
        spec_read_all(m, cursor, k) == m.hist.subrange(cursor, cursor + k).map_values(
            |e: SysEventModel| ReadOutcome::Delivered(e),
        ),
    decreases k,
{
    if k == 0 {
        assert(spec_read_all(m, cursor, k) =~= m.hist.subrange(cursor, cursor + k).map_values(
            |e: SysEventModel| ReadOutcome::Delivered(e),
        ));
    } else {
        lemma_window_reads_in_order(m, cursor + 1, (k - 1) as nat);
        assert(spec_read_all(m, cursor, k) =~= m.hist.subrange(cursor, cursor + k).map_values(
            |e: SysEventModel| ReadOutcome::Delivered(e),
        ));
    }
}

/// A subscription created before publishing begins, on a bus whose capacity
/// never forces an eviction past it, receives exactly the published
/// sequence: same events, same order, nothing duplicated, nothing dropped.
pub proof fn lemma_faithful_delivery(capacity: int, es: Seq<SysEventModel>)
    requires
        1 <= capacity,
        es.len() <= capacity,
    ensures
        ({
            let p = spec_publish_all(fresh_model(capacity), es);
            spec_read_all(p, 0, es.len()) == es.map_values(
                |e: SysEventModel| ReadOutcome::Delivered(e),
            )
        }),
{
    lemma_publish_all_retained(fresh_model(capacity), es);
    let p = spec_publish_all(fresh_model(capacity), es);
    assert(p.hist =~= es);
    lemma_window_reads_in_order(p, 0, es.len());
    assert(p.hist.subrange(0, es.len() as int) =~= es);
}

/// One interaction with the bus, as one subscription experiences it:
/// somebody publishes an event, or the subscription attempts a read.
pub enum BusStep {
    Publish(SysEventModel),
    Read,
}

/// A run of one subscription against the bus: the bus image, the
/// subscription's cursor, what it has received so far, and whether it has
/// ever been told it lagged.
pub struct RunState {
    pub bus: BusModel,
    pub cursor: int,
    pub received: Seq<SysEventModel>,
    pub lagged: bool,
}

/// A run as it begins: a fresh bus, the subscription's cursor at the
/// start of the (empty) history, nothing received yet.
pub open spec fn init_run(capacity: int) -> RunState {
    RunState {
        bus: fresh_model(capacity),
        cursor: 0,
        received: Seq::empty(),
        lagged: false,
    }
}

/// What one step does to a run: a publish moves the bus alone; a read
/// moves the cursor and either delivers into `received` or records the
/// lag.
pub open spec fn run_step(r: RunState, step: BusStep) -> RunState {
    match step {
        BusStep::Publish(e) => RunState { bus: spec_publish(r.bus, e), ..r },
        BusStep::Read => {
            let outcome = spec_read(r.bus, r.cursor);
            RunState {
                cursor: outcome.1,
                received: match outcome.0 {
                    ReadOutcome::Delivered(e) => r.received.push(e),
                    _ => r.received,
                },
                lagged: r.lagged || (outcome.0 matches ReadOutcome::Lagged(_)),
                ..r
            }
        },
    }
}

/// A whole run, step by step.
pub open spec fn run(r: RunState, steps: Seq<BusStep>) -> RunState
    decreases steps.len(),
{
    if steps.len() == 0 {
        r
    } else {
        run(run_step(r, steps[0]), steps.drop_first())
    }
}

/// The running invariant behind faithful delivery: while a subscription
/// has never lagged, what it has received is exactly the history up to
/// its cursor.
pub open spec fn run_inv(r: RunState) -> bool {
    &&& model_inv(r.bus)
    &&& 0 <= r.cursor <= r.bus.hist.len()
    &&& (!r.lagged ==> r.received == r.bus.hist.subrange(0, r.cursor))
}

/// One step preserves the running invariant.
proof fn lemma_run_step_preserves(r: RunState, step: BusStep)
    requires
        run_inv(r),
    ensures
        run_inv(run_step(r, step)),
{
    match step {
        BusStep::Publish(e) => {
            if !r.bus.closed {
                assert(spec_publish(r.bus, e).hist.subrange(0, r.cursor) =~= r.bus.hist.subrange(
                    0,
                    r.cursor,
                ));
            }
        },
        BusStep::Read => {
            let outcome = spec_read(r.bus, r.cursor);
            if r.bus.evicted <= r.cursor < r.bus.hist.len() && !r.lagged {
                assert(r.bus.hist.subrange(0, r.cursor + 1) =~= r.bus.hist.subrange(
                    0,
                    r.cursor,
                ).push(r.bus.hist[r.cursor]));
            }
        },
    }
}

/// For every interleaving of publishes and read attempts: a subscription
/// created before publishing begins and never lagging has received, at
/// every point of the run, exactly the events published so far up to its
/// cursor — the exact published sequence in publish order, with no
/// reordering and no duplication, and nothing once its cursor has caught
/// up.
pub proof fn lemma_faithful_delivery_any_interleaving(capacity: int, steps: Seq<BusStep>)
    requires
        1 <= capacity,
    ensures
        run_inv(run(init_run(capacity), steps)),
        ({
            let end = run(init_run(capacity), steps);
            !end.lagged ==> end.received == end.bus.hist.subrange(0, end.cursor)
        }),
{
    assert(init_run(capacity).received =~= init_run(capacity).bus.hist.subrange(0, 0));
    lemma_run_preserves(init_run(capacity), steps);
}

/// A whole run preserves the running invariant.
proof fn lemma_run_preserves(r: RunState, steps: Seq<BusStep>)
    requires
        run_inv(r),
    ensures
        run_inv(run(r, steps)),
    decreases steps.len(),
{
    if steps.len() > 0 {
        lemma_run_step_preserves(r, steps[0]);
        lemma_run_preserves(run_step(r, steps[0]), steps.drop_first());
    }
}

/// A lag is reported exactly once: a cursor that fell `n` events behind the
/// oldest retained entry observes `Lagged(n)` with the exact count of
/// evicted-and-unread events, and the very next read attempt delivers the
/// oldest retained event (or observes shutdown once the bus is drained).
pub proof fn lemma_lag_reported_once(m: BusModel, cursor: int)
    requires
        model_inv(m),
        0 <= cursor < m.evicted,
    ensures
        spec_read(m, cursor).0 == ReadOutcome::Lagged(m.evicted - cursor),
        spec_read(m, cursor).1 == m.evicted,
        m.evicted < m.hist.len() ==> spec_read(m, m.evicted).0 == ReadOutcome::Delivered(
            m.hist[m.evicted],
        ),
{
}

} // verus!
