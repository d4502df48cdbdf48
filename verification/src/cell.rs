//! The reconfiguration cell: holder for the active diagnostic-verbosity
//! filter.
//!
//! The cell is either empty (before first initialization) or holds one
//! fully-formed filter; replacing the value is a whole-value swap, so a
//! reader observes either the prior filter or the new one in full, never a
//! mixture. The filter itself is an opaque, already-parsed value — its
//! grammar belongs to the logging collaborator outside this crate.

use vstd::prelude::*;
use vstd::rwlock::RwLock;

verus! {

/// An opaque diagnostic-verbosity filter, carried whole and never
/// inspected by this crate.
#[derive(Debug, PartialEq, Eq)]
pub struct Filter {
    pub directive: String,
}

impl View for Filter {
    type V = Seq<char>;

    open spec fn view(&self) -> Seq<char> {
        self.directive@
    }
}

impl Clone for Filter {
    fn clone(&self) -> (r: Self)
        ensures
            r@ == self@,
    {
        Filter { directive: self.directive.clone() }
    }
}

/// Holds at most one live filter, shared by all readers and replaced whole
/// by the consumer that reacts to a configuration reload. The ghost log of
/// completed replacements is what the contracts speak of: the readable
/// value is always the last completed replacement, or absent before the
/// first one.
pub struct ReconfigurationCell {
    current: Option<Filter>,
    log: Ghost<Seq<Seq<char>>>,
}

impl ReconfigurationCell {
    /// Every filter value whose installation has completed, in order.
    pub closed spec fn completed_sets(&self) -> Seq<Seq<char>> {
        self.log@
    }

    /// The value a reader observes now.
    pub closed spec fn value(&self) -> Option<Seq<char>> {
        match self.current {
            Option::Some(f) => Option::Some(f@),
            Option::None => Option::None,
        }
    }

    /// The cell's invariant: what is readable is exactly the last completed
    /// replacement, whole — never part of one.
    pub closed spec fn wf(&self) -> bool {
        self.value() == if self.completed_sets().len() == 0 {
            Option::<Seq<char>>::None
        } else {
            Option::Some(self.completed_sets().last())
        }
    }

    /// Constructs the cell empty: no filter is live before the first `set`.
    pub fn new() -> (r: ReconfigurationCell)
        ensures
            r.wf(),
            r.completed_sets() == Seq::<Seq<char>>::empty(),
            r.value() is None,
    {
        ReconfigurationCell { current: None, log: Ghost(Seq::empty()) }
    }

    /// Replaces the held filter with the given one, whole.
    pub fn set(&mut self, filter: Filter)
        requires
            old(self).wf(),
        ensures
            final(self).wf(),
            final(self).completed_sets() == old(self).completed_sets().push(filter@),
            final(self).value() == Option::Some(filter@),
    {
        proof {
            self.log@ = self.log@.push(filter@);
        }
        self.current = Some(filter);
    }

    /// Returns the current filter, or `None` before first initialization.
    pub fn get(&self) -> (r: Option<Filter>)
        requires
            self.wf(),
        ensures
            match r {
                Option::Some(f) => self.value() == Option::Some(f@),
                Option::None => self.value() is None,
            },
    {
        match &self.current {
            Some(f) => Some(f.clone()),
            None => None,
        }
    }
}

/// The cell as the process shares it: the same whole-value semantics
/// behind a verified read-write lock, so one writer replaces the filter
/// through a shared reference while arbitrarily many readers hold shared
/// access. The lock's invariant carries the cell's well-formedness, so
/// every state a reader can acquire is a whole, completed one.
pub struct SharedReconfigurationCell {
    lock: RwLock<ReconfigurationCell, spec_fn(ReconfigurationCell) -> bool>,
}

impl SharedReconfigurationCell {
    /// The lock admits exactly the well-formed cell states.
    pub closed spec fn wf(&self) -> bool {
        forall|c: ReconfigurationCell| self.lock.inv(c) == #[trigger] c.wf()
    }

    /// Constructs the shared cell empty.
    pub fn new() -> (r: SharedReconfigurationCell)
        ensures
            r.wf(),
    {
        SharedReconfigurationCell {
            lock: RwLock::new(
                ReconfigurationCell::new(),
                Ghost(|c: ReconfigurationCell| c.wf()),
            ),
        }
    }

    /// Atomically replaces the held filter, whole, through a shared
    /// reference; a reader concurrent with this call acquires the cell
    /// before or after the swap, never between.
    pub fn set(&self, filter: Filter)
        requires
            self.wf(),
    {
        let (mut cell, handle) = self.lock.acquire_write();
        cell.set(filter);
        handle.release_write(cell);
    }

    /// Returns the current filter, or `None` before first initialization.
    /// The lock exposes no view of its current contents, so no
    /// postcondition can name the value; the guarantee is the lock
    /// invariant itself: the state read is well-formed, so what comes back
    /// is the whole argument of that state's last completed `set`, or
    /// nothing.
    pub fn get(&self) -> (r: Option<Filter>)
        requires
            self.wf(),
    {
        let handle = self.lock.acquire_read();
        let inner = handle.borrow();
        let r = inner.get();
        handle.release_read();
        r
    }
}

/// No partial write is ever observable: what `get` returns is `None`
/// before the first completed `set`, and afterwards it is the exact,
/// whole argument of the last completed `set` — in particular, every
/// observable value is the argument of some completed `set` call.
pub proof fn lemma_get_observes_completed_sets(cell: &ReconfigurationCell)
    requires
        cell.wf(),
    ensures
        cell.completed_sets().len() == 0 ==> cell.value() is None,
        cell.completed_sets().len() > 0 ==> cell.value() == Option::Some(
            cell.completed_sets().last(),
        ),
        cell.value() matches Some(v) ==> exists|i: int|
            0 <= i < cell.completed_sets().len() && cell.completed_sets()[i] == v,
{
    if cell.completed_sets().len() > 0 {
        assert(cell.completed_sets()[cell.completed_sets().len() - 1]
            == cell.completed_sets().last());
    }
}

} // verus!
