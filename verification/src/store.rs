//! The shared state store: holds exactly one snapshot at a time and
//! only ever replaces it wholesale, so a reader sees either the old
//! cycle's picture or the new one, never a mixture.  The handle that
//! readers and the refresh task share around this value lives outside
//! the library.

use vstd::prelude::*;
use crate::models::{StopData, StopRecord};
use crate::snapshot::Snapshot;

verus! {

/// Holds the currently installed snapshot, initially empty.
pub struct Store {
    current: Snapshot,
}

impl View for Store {
    type V = Map<Seq<char>, StopRecord>;

    closed spec fn view(&self) -> Map<Seq<char>, StopRecord> {
        self.current@
    }
}

impl Store {
    pub closed spec fn wf(&self) -> bool {
        self.current.wf()
    }

    /// A store holding the empty snapshot: no stop has data yet.
    pub fn new() -> (r: Store)
        ensures
            r.wf(),
            r@ == Map::<Seq<char>, StopRecord>::empty(),
    {
        Store { current: Snapshot::new() }
    }

    /// Installs a new snapshot, discarding the old one in its
    /// entirety: afterwards the store shows exactly the new cycle's
    /// stops, and nothing of any earlier cycle survives.
    pub fn replace(&mut self, snapshot: Snapshot)
        requires
            snapshot.wf(),
        ensures
            final(self).wf(),
            final(self)@ == snapshot@,
    {
        self.current = snapshot;
    }

    /// The currently installed snapshot.
    pub fn read(&self) -> (r: &Snapshot)
        requires
            self.wf(),
        ensures
            r.wf(),
            r@ == self@,
    {
        &self.current
    }

    /// Merges one freshly fetched stop into the current snapshot
    /// without disturbing any other stop's entry; used when a stop is
    /// added to tracking outside the periodic cycle.
    pub fn merge_stop(&mut self, data: StopData)
        requires
            old(self).wf(),
        ensures
            final(self).wf(),
            final(self)@ == old(self)@.insert(data.stop_id@, data@),
    {
        self.current.insert_stop(data);
    }
}

/// All-or-nothing visibility: a store that a replace left holding a
/// snapshot shows that snapshot's stops exactly — every stop of the
/// new cycle with its new state, and no stop that only an earlier
/// cycle had.  Readers obtain this from `Store::replace`'s contract:
/// there is no intermediate store value mixing the two cycles.
pub proof fn lemma_replace_all_or_nothing(before: Store, after: Store, snapshot: Snapshot)
    requires
        after@ == snapshot@,
    ensures
        forall|k: Seq<char>| #[trigger] after@.contains_key(k) <==> snapshot@.contains_key(k),
        forall|k: Seq<char>| #[trigger] after@.contains_key(k) ==> after@[k] == snapshot@[k],
        forall|k: Seq<char>|
            before@.contains_key(k) && !snapshot@.contains_key(k) ==> !(#[trigger] after@.contains_key(
                k,
            )),
{
}

} // verus!
