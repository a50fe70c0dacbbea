//! The snapshot: one consistent picture of all successfully fetched
//! stops, keyed by stop identifier, and its assembly from the joined
//! outcomes of a fetch cycle.

use vstd::prelude::*;
use crate::fetcher::{consistent, FetchOutcome};
use crate::models::{StopData, StopRecord};

verus! {

/// The mapping an association list of stop states denotes; a later
/// entry for the same identifier overrides an earlier one.
pub open spec fn assoc_map(s: Seq<StopData>) -> Map<Seq<char>, StopRecord>
    decreases s.len(),
{
    if s.len() == 0 {
        Map::empty()
    } else {
        assoc_map(s.drop_last()).insert(s.last().stop_id@, s.last()@)
    }
}

/// A mapping from stop identifier to stop state, covering exactly the
/// stops whose most recent fetch succeeded.  A stop missing from the
/// snapshot has no data yet; that is not an error.
pub struct Snapshot {
    stops: Vec<StopData>,
}

impl View for Snapshot {
    type V = Map<Seq<char>, StopRecord>;

    closed spec fn view(&self) -> Map<Seq<char>, StopRecord> {
        assoc_map(self.stops@)
    }
}

impl Snapshot {
    /// The entries carry pairwise distinct stop identifiers.
    pub closed spec fn wf(&self) -> bool {
        forall|i: int, j: int|
            0 <= i < j < self.stops@.len() ==> (#[trigger] self.stops@[i]).stop_id@ != (
            #[trigger] self.stops@[j]).stop_id@
    }

    /// The empty snapshot: no stop has data yet.
    pub fn new() -> (r: Snapshot)
        ensures
            r.wf(),
            r@ == Map::<Seq<char>, StopRecord>::empty(),
    {
        Snapshot { stops: Vec::new() }
    }

    /// The index of the entry for this identifier, if one is present.
    fn find_index(&self, stop_id: &String) -> (r: Option<usize>)
        ensures
            match r {
                Some(k) => k < self.stops@.len() && self.stops@[k as int].stop_id@ == stop_id@,
                None => forall|i: int|
                    0 <= i < self.stops@.len() ==> (#[trigger] self.stops@[i]).stop_id@
                        != stop_id@,
            },
    {
        let mut k: usize = 0;
        while k < self.stops.len()
            invariant
                0 <= k <= self.stops@.len(),
                forall|i: int| 0 <= i < k ==> (#[trigger] self.stops@[i]).stop_id@ != stop_id@,
            decreases self.stops@.len() - k,
        {
            if self.stops[k].stop_id.eq(stop_id) {
                return Some(k);
            }
            k += 1;
        }
        None
    }

    /// The state of one stop, or nothing if its last fetch failed or
    /// has not happened yet.
    pub fn get(&self, stop_id: &String) -> (r: Option<&StopData>)
        requires
            self.wf(),
        ensures
            match r {
                Some(d) => self@.contains_key(stop_id@) && d@ == self@[stop_id@] && d.stop_id@
                    == stop_id@,
                None => !self@.contains_key(stop_id@),
            },
    {
        let found = self.find_index(stop_id);
        match found {
            Some(k) => {
                proof {
                    lemma_assoc_at(self.stops@, k as int);
                }
                Some(&self.stops[k])
            },
            None => {
                proof {
                    lemma_assoc_dom(self.stops@, stop_id@);
                }
                None
            },
        }
    }

    /// Installs or replaces the state of one stop, leaving every other
    /// stop's entry untouched.
    pub fn insert_stop(&mut self, data: StopData)
        requires
            old(self).wf(),
        ensures
            final(self).wf(),
            final(self)@ == old(self)@.insert(data.stop_id@, data@),
    {
        let found = self.find_index(&data.stop_id);
        let ghost before = self.stops@;
        match found {
            Some(k) => {
                proof {
                    lemma_assoc_update(before, k as int, data);
                }
                self.stops[k] = data;
            },
            None => {
                self.stops.push(data);
                proof {
                    assert(self.stops@.drop_last() =~= before);
                }
            },
        }
    }

    /// The entries of the snapshot: each stands in the mapping under
    /// its identifier, and every mapped identifier is among them.
    pub fn entries(&self) -> (r: &Vec<StopData>)
        requires
            self.wf(),
        ensures
            forall|i: int|
                0 <= i < r@.len() ==> self@.contains_key((#[trigger] r@[i]).stop_id@)
                    && self@[r@[i].stop_id@] == r@[i]@,
            forall|k: Seq<char>|
                #[trigger] self@.contains_key(k) ==> exists|i: int|
                    0 <= i < r@.len() && (#[trigger] r@[i]).stop_id@ == k,
    {
        proof {
            assert forall|i: int|
                0 <= i < self.stops@.len() implies self@.contains_key(
                (#[trigger] self.stops@[i]).stop_id@,
            ) && self@[self.stops@[i].stop_id@] == self.stops@[i]@ by {
                lemma_assoc_at(self.stops@, i);
            }
            assert forall|k: Seq<char>| #[trigger] self@.contains_key(k) implies exists|i: int|
                0 <= i < self.stops@.len() && (#[trigger] self.stops@[i]).stop_id@ == k by {
                lemma_assoc_dom(self.stops@, k);
            }
        }
        &self.stops
    }
}

/// An association list maps an identifier exactly when one of its
/// entries carries it.
proof fn lemma_assoc_dom(s: Seq<StopData>, k: Seq<char>)
    ensures
        assoc_map(s).contains_key(k) <==> exists|i: int|
            0 <= i < s.len() && (#[trigger] s[i]).stop_id@ == k,
    decreases s.len(),
{
    if s.len() == 0 {
    } else {
        lemma_assoc_dom(s.drop_last(), k);
        let n = s.len() - 1;
        assert(forall|i: int| 0 <= i < n ==> #[trigger] s.drop_last()[i] == s[i]);
        if assoc_map(s).contains_key(k) {
            if s.last().stop_id@ == k {
                assert(s[n].stop_id@ == k);
            } else {
                assert(assoc_map(s.drop_last()).contains_key(k));
                let i = choose|i: int|
                    0 <= i < s.drop_last().len() && (#[trigger] s.drop_last()[i]).stop_id@ == k;
                assert(s[i].stop_id@ == k);
            }
        }
        if exists|i: int| 0 <= i < s.len() && (#[trigger] s[i]).stop_id@ == k {
            let i = choose|i: int| 0 <= i < s.len() && (#[trigger] s[i]).stop_id@ == k;
            if i < n {
                assert(s.drop_last()[i].stop_id@ == k);
                assert(assoc_map(s.drop_last()).contains_key(k));
            } else {
                assert(s.last().stop_id@ == k);
            }
            assert(assoc_map(s).contains_key(k));
        }
    }
}

/// With distinct identifiers, each entry is the one its identifier
/// maps to.
proof fn lemma_assoc_at(s: Seq<StopData>, i: int)
    requires
        forall|a: int, b: int|
            0 <= a < b < s.len() ==> (#[trigger] s[a]).stop_id@ != (#[trigger] s[b]).stop_id@,
        0 <= i < s.len(),
    ensures
        assoc_map(s).contains_key(s[i].stop_id@),
        assoc_map(s)[s[i].stop_id@] == s[i]@,
    decreases s.len(),
{
    let n = s.len() - 1;
    if i == n {
        assert(s.last() == s[n]);
    } else {
        assert(forall|a: int| 0 <= a < n ==> #[trigger] s.drop_last()[a] == s[a]);
        lemma_assoc_at(s.drop_last(), i);
        assert(s.last().stop_id@ != s[i].stop_id@);
    }
}

/// Replacing the entry that carries an identifier updates the mapping
/// at that identifier alone.
proof fn lemma_assoc_update(s: Seq<StopData>, k: int, d: StopData)
    requires
        forall|a: int, b: int|
            0 <= a < b < s.len() ==> (#[trigger] s[a]).stop_id@ != (#[trigger] s[b]).stop_id@,
        0 <= k < s.len(),
        s[k].stop_id@ == d.stop_id@,
    ensures
        assoc_map(s.update(k, d)) == assoc_map(s).insert(d.stop_id@, d@),
    decreases s.len(),
{
    let n = s.len() - 1;
    let u = s.update(k, d);
    if k == n {
        assert(u.drop_last() =~= s.drop_last());
        assert(u.last() == d);
        assert(assoc_map(u) == assoc_map(s.drop_last()).insert(d.stop_id@, d@));
        assert(s.last() == s[n]);
        assert(assoc_map(s).insert(d.stop_id@, d@) =~= assoc_map(s.drop_last()).insert(
            s[n].stop_id@,
            s[n]@,
        ).insert(d.stop_id@, d@));
        assert(assoc_map(s.drop_last()).insert(s[n].stop_id@, s[n]@).insert(d.stop_id@, d@)
            =~= assoc_map(s.drop_last()).insert(d.stop_id@, d@));
    } else {
        assert(forall|a: int| 0 <= a < n ==> #[trigger] s.drop_last()[a] == s[a]);
        lemma_assoc_update(s.drop_last(), k, d);
        assert(u.drop_last() =~= s.drop_last().update(k, d));
        assert(u.last() == s.last());
        assert(assoc_map(u) == assoc_map(s.drop_last().update(k, d)).insert(
            s.last().stop_id@,
            s.last()@,
        ));
        assert(s.last() == s[n]);
        assert(s[n].stop_id@ != d.stop_id@);
        assert(assoc_map(s.drop_last()).insert(d.stop_id@, d@).insert(s[n].stop_id@, s[n]@)
            =~= assoc_map(s.drop_last()).insert(s[n].stop_id@, s[n]@).insert(d.stop_id@, d@));
    }
}

/// The mapping a cycle's joined outcomes produce: exactly the
/// successful stops, each under its identifier.
pub open spec fn spec_build(outs: Seq<FetchOutcome>) -> Map<Seq<char>, StopRecord>
    decreases outs.len(),
{
    if outs.len() == 0 {
        Map::empty()
    } else {
        let rest = spec_build(outs.drop_last());
        match outs.last().result {
            Ok(d) => rest.insert(d.stop_id@, d@),
            Err(_) => rest,
        }
    }
}

/// Joins the outcomes of one fetch cycle into a snapshot containing
/// exactly the stops whose fetch succeeded; a failed stop is simply
/// absent.
pub fn build_snapshot(outcomes: Vec<FetchOutcome>) -> (r: Snapshot)
    ensures
        r.wf(),
        r@ == spec_build(outcomes@),
{
    let ghost all = outcomes@;
    let mut outs = outcomes;
    let mut snap = Snapshot::new();
    while outs.len() > 0
        invariant
            outs@.len() <= all.len(),
            outs@ == all.skip(all.len() - outs@.len()),
            snap.wf(),
            snap@ == spec_build(all.take(all.len() - outs@.len())),
        decreases outs@.len(),
    {
        let ghost done = all.len() - outs@.len();
        proof {
            assert(outs@[0] == all.skip(done)[0]);
            assert(all.skip(done)[0] == all[done]);
        }
        let o = outs.remove(0);
        match o.result {
            Ok(d) => snap.insert_stop(d),
            Err(_) => (),
        }
        proof {
            assert(outs@ =~= all.skip(done + 1));
            assert(all.take(done + 1).drop_last() =~= all.take(done));
            assert(all.take(done + 1).last() == all[done]);
            assert(snap@ == spec_build(all.take(done + 1)));
        }
    }
    proof {
        assert(all.take(all.len() as int) =~= all);
    }
    snap
}

/// A built snapshot holds a stop exactly when some outcome of the
/// cycle succeeded with that stop's state: the stops whose fetch
/// failed are exactly the ones omitted.
pub proof fn lemma_build_covers_successes(outs: Seq<FetchOutcome>, k: Seq<char>)
    ensures
        spec_build(outs).contains_key(k) <==> exists|i: int|
            0 <= i < outs.len() && (#[trigger] outs[i]).result is Ok
                && outs[i].result->Ok_0.stop_id@ == k,
    decreases outs.len(),
{
    if outs.len() == 0 {
    } else {
        lemma_build_covers_successes(outs.drop_last(), k);
        let n = outs.len() - 1;
        assert(forall|i: int| 0 <= i < n ==> #[trigger] outs.drop_last()[i] == outs[i]);
        let witnessed = exists|i: int|
            0 <= i < outs.len() && (#[trigger] outs[i]).result is Ok
                && outs[i].result->Ok_0.stop_id@ == k;
        if spec_build(outs).contains_key(k) {
            match outs.last().result {
                Ok(d) => {
                    if d.stop_id@ == k {
                        assert(outs[n].result is Ok && outs[n].result->Ok_0.stop_id@ == k);
                    } else {
                        assert(spec_build(outs.drop_last()).contains_key(k));
                        let i = choose|i: int|
                            0 <= i < outs.drop_last().len() && (#[trigger] outs.drop_last()[i]).result
                                is Ok && outs.drop_last()[i].result->Ok_0.stop_id@ == k;
                        assert(outs[i].result is Ok && outs[i].result->Ok_0.stop_id@ == k);
                    }
                },
                Err(_) => {
                    assert(spec_build(outs.drop_last()).contains_key(k));
                    let i = choose|i: int|
                        0 <= i < outs.drop_last().len() && (#[trigger] outs.drop_last()[i]).result
                            is Ok && outs.drop_last()[i].result->Ok_0.stop_id@ == k;
                    assert(outs[i].result is Ok && outs[i].result->Ok_0.stop_id@ == k);
                },
            }
            assert(witnessed);
        }
        if witnessed {
            let i = choose|i: int|
                0 <= i < outs.len() && (#[trigger] outs[i]).result is Ok
                    && outs[i].result->Ok_0.stop_id@ == k;
            if i < n {
                assert(outs.drop_last()[i].result is Ok && outs.drop_last()[i].result->Ok_0.stop_id@
                    == k);
                assert(spec_build(outs.drop_last()).contains_key(k));
            }
            assert(spec_build(outs).contains_key(k));
        }
    }
}

/// A snapshot built from outcomes for the configured stops never
/// contains a stop identifier absent from the configuration.
pub proof fn lemma_build_within_config(outs: Seq<FetchOutcome>, config_ids: Set<Seq<char>>)
    requires
        forall|i: int| 0 <= i < outs.len() ==> consistent(#[trigger] outs[i]),
        forall|i: int| 0 <= i < outs.len() ==> config_ids.contains((#[trigger] outs[i]).stop_id@),
    ensures
        forall|k: Seq<char>| #[trigger] spec_build(outs).contains_key(k) ==> config_ids.contains(k),
{
    assert forall|k: Seq<char>| #[trigger] spec_build(outs).contains_key(k) implies config_ids.contains(
        k,
    ) by {
        lemma_build_covers_successes(outs, k);
        let i = choose|i: int|
            0 <= i < outs.len() && (#[trigger] outs[i]).result is Ok
                && outs[i].result->Ok_0.stop_id@ == k;
        assert(consistent(outs[i]));
        assert(outs[i].stop_id@ == k);
    }
}

/// Both halves of the snapshot guarantee at once: a snapshot built
/// from one cycle's outcomes, each drawn for a configured stop, never
/// contains a stop identifier absent from the configuration, and it
/// holds a stop exactly when that stop's fetch succeeded.
pub proof fn lemma_snapshot_respects_config(
    outs: Seq<FetchOutcome>,
    settings: crate::settings::Settings,
)
    requires
        forall|i: int| 0 <= i < outs.len() ==> consistent(#[trigger] outs[i]),
        forall|i: int|
            0 <= i < outs.len() ==> settings.spec_id_set().contains(
                (#[trigger] outs[i]).stop_id@,
            ),
    ensures
        forall|k: Seq<char>|
            #[trigger] spec_build(outs).contains_key(k) ==> settings.spec_id_set().contains(k),
        forall|k: Seq<char>|
            #[trigger] spec_build(outs).contains_key(k) <==> exists|i: int|
                0 <= i < outs.len() && (#[trigger] outs[i]).result is Ok
                    && outs[i].result->Ok_0.stop_id@ == k,
{
    lemma_build_within_config(outs, settings.spec_id_set());
    assert forall|k: Seq<char>| true implies (#[trigger] spec_build(outs).contains_key(k)
        <==> exists|i: int|
        0 <= i < outs.len() && (#[trigger] outs[i]).result is Ok
            && outs[i].result->Ok_0.stop_id@ == k) by {
        lemma_build_covers_successes(outs, k);
    }
}

} // verus!
