//! The departure normalizer: turns one stop's raw schedule entries
//! into a filtered, time-sorted, bounded list of display-ready
//! departures, all at one fixed evaluation instant.

use vstd::prelude::*;
use vstd::string::StringExecFns;
use crate::clock::{spec_clock_hm, format_clock_hm, EvalInstant};
use crate::models::{DepRecord, DepartureInfo, StopTime};
use crate::MAX_OFFSET_SECONDS;

verus! {

/// The effective offset from local midnight of a raw entry: the
/// realtime prediction where live tracking is on, the timetable
/// otherwise.
pub open spec fn effective_offset(st: StopTime) -> int {
    if st.realtime {
        st.realtime_departure as int
    } else {
        st.scheduled_departure as int
    }
}

/// Both offsets of a raw entry are small enough for the remaining-time
/// arithmetic to stay inside `i64`.
pub open spec fn offsets_ok(st: StopTime) -> bool {
    &&& -MAX_OFFSET_SECONDS <= st.realtime_departure <= MAX_OFFSET_SECONDS
    &&& -MAX_OFFSET_SECONDS <= st.scheduled_departure <= MAX_OFFSET_SECONDS
}

/// An accept-set containing the label "ALL" is the wildcard: it accepts
/// every line.
pub open spec fn is_wildcard(wanted: Seq<String>) -> bool {
    exists|i: int| 0 <= i < wanted.len() && (#[trigger] wanted[i])@ == "ALL"@
}

/// Whether the accept-set admits a line label.
pub open spec fn accepts_line(wanted: Seq<String>, line: Seq<char>) -> bool {
    ||| is_wildcard(wanted)
    ||| exists|i: int| 0 <= i < wanted.len() && (#[trigger] wanted[i])@ == line
}

/// Whether a raw entry survives both filters: its line is admitted and
/// it has not already departed.
pub open spec fn keeps(st: StopTime, wanted: Seq<String>, inst: EvalInstant) -> bool {
    &&& accepts_line(wanted, st.trip.route.short_name@)
    &&& inst.spec_seconds_left(effective_offset(st)) >= 0
}

/// The departure record a raw entry normalizes to.
pub open spec fn dep_of(st: StopTime, inst: EvalInstant) -> DepRecord {
    let o = effective_offset(st);
    DepRecord {
        line: st.trip.route.short_name@,
        headsign: st.trip.headsign@,
        time_str: spec_clock_hm(inst.spec_display_second(o)),
        minutes_left: inst.spec_seconds_left(o) / 60,
        seconds_left: inst.spec_seconds_left(o),
        is_realtime: st.realtime,
    }
}

/// The filter stage: the records of the surviving entries, in their
/// original order.
pub open spec fn filtered(sts: Seq<StopTime>, wanted: Seq<String>, inst: EvalInstant) -> Seq<
    DepRecord,
>
    decreases sts.len(),
{
    if sts.len() == 0 {
        Seq::empty()
    } else {
        let rest = filtered(sts.drop_last(), wanted, inst);
        if keeps(sts.last(), wanted, inst) {
            rest.push(dep_of(sts.last(), inst))
        } else {
            rest
        }
    }
}

/// Stable insertion of a record into a sequence: it lands after every
/// record already there whose remaining time is no larger.
pub open spec fn insert_sorted(s: Seq<DepRecord>, d: DepRecord) -> Seq<DepRecord>
    decreases s.len(),
{
    if s.len() == 0 {
        seq![d]
    } else if s.last().seconds_left <= d.seconds_left {
        s.push(d)
    } else {
        insert_sorted(s.drop_last(), d).push(s.last())
    }
}

/// Stable sort by remaining seconds, soonest first; records with equal
/// remaining time keep their original order.
pub open spec fn sort_by_seconds(s: Seq<DepRecord>) -> Seq<DepRecord>
    decreases s.len(),
{
    if s.len() == 0 {
        Seq::empty()
    } else {
        insert_sorted(sort_by_seconds(s.drop_last()), s.last())
    }
}

/// Non-decreasing by remaining seconds.
pub open spec fn sorted_by_seconds(s: Seq<DepRecord>) -> bool {
    forall|i: int, j: int| 0 <= i <= j < s.len() ==> s[i].seconds_left <= s[j].seconds_left
}

/// What normalization returns: filter, stable-sort, cap at five.
pub open spec fn spec_normalize(
    sts: Seq<StopTime>,
    wanted: Seq<String>,
    inst: EvalInstant,
) -> Seq<DepRecord> {
    let sorted = sort_by_seconds(filtered(sts, wanted, inst));
    if sorted.len() <= 5 {
        sorted
    } else {
        sorted.take(5)
    }
}

/// The records of a departure list, element by element.
pub open spec fn dep_views(s: Seq<DepartureInfo>) -> Seq<DepRecord> {
    Seq::new(s.len(), |i: int| s[i]@)
}

proof fn lemma_insert_sorted_len(s: Seq<DepRecord>, d: DepRecord)
    ensures
        insert_sorted(s, d).len() == s.len() + 1,
    decreases s.len(),
{
    if s.len() == 0 {
    } else if s.last().seconds_left <= d.seconds_left {
    } else {
        lemma_insert_sorted_len(s.drop_last(), d);
    }
}

/// Sorting keeps the length.
pub proof fn lemma_sort_len(s: Seq<DepRecord>)
    ensures
        sort_by_seconds(s).len() == s.len(),
    decreases s.len(),
{
    if s.len() == 0 {
    } else {
        lemma_sort_len(s.drop_last());
        lemma_insert_sorted_len(sort_by_seconds(s.drop_last()), s.last());
    }
}

/// Inserting at the position whose whole suffix is strictly later, and
/// whose left neighbour is not, is exactly stable insertion.
proof fn lemma_insert_sorted_at(s: Seq<DepRecord>, d: DepRecord, pos: int)
    requires
        0 <= pos <= s.len(),
        forall|k: int| pos <= k < s.len() ==> (#[trigger] s[k]).seconds_left > d.seconds_left,
        pos > 0 ==> s[pos - 1].seconds_left <= d.seconds_left,
    ensures
        insert_sorted(s, d) =~= s.insert(pos, d),
    decreases s.len(),
{
    if s.len() == 0 {
        assert(insert_sorted(s, d) =~= s.insert(pos, d));
    } else if pos == s.len() {
        assert(s.last().seconds_left <= d.seconds_left);
        assert(insert_sorted(s, d) == s.push(d));
        assert(s.push(d) =~= s.insert(pos, d));
    } else {
        assert(s.last().seconds_left > d.seconds_left);
        lemma_insert_sorted_at(s.drop_last(), d, pos);
        assert(insert_sorted(s, d) == insert_sorted(s.drop_last(), d).push(s.last()));
        assert(s.drop_last().insert(pos, d).push(s.last()) =~= s.insert(pos, d));
    }
}

/// Stable insertion keeps every element-wise property.
proof fn lemma_insert_sorted_all(s: Seq<DepRecord>, d: DepRecord, p: spec_fn(DepRecord) -> bool)
    requires
        forall|i: int| 0 <= i < s.len() ==> p(#[trigger] s[i]),
        p(d),
    ensures
        forall|i: int| 0 <= i < insert_sorted(s, d).len() ==> p(#[trigger] insert_sorted(s, d)[i]),
    decreases s.len(),
{
    let r = insert_sorted(s, d);
    if s.len() == 0 {
        assert forall|i: int| 0 <= i < r.len() implies p(r[i]) by {
            assert(r[i] == d);
        }
    } else if s.last().seconds_left <= d.seconds_left {
        assert(r == s.push(d));
        assert forall|i: int| 0 <= i < r.len() implies p(r[i]) by {
            if i < s.len() {
                assert(r[i] == s[i]);
            } else {
                assert(r[i] == d);
            }
        }
    } else {
        lemma_insert_sorted_all(s.drop_last(), d, p);
        lemma_insert_sorted_len(s.drop_last(), d);
        let rr = insert_sorted(s.drop_last(), d);
        assert(r == rr.push(s.last()));
        assert forall|i: int| 0 <= i < r.len() implies p(r[i]) by {
            if i < rr.len() {
                assert(r[i] == rr[i]);
            } else {
                assert(r[i] == s.last());
                assert(s.last() == s[s.len() - 1]);
            }
        }
    }
}

/// Sorting keeps every element-wise property.
pub proof fn lemma_sort_all(s: Seq<DepRecord>, p: spec_fn(DepRecord) -> bool)
    requires
        forall|i: int| 0 <= i < s.len() ==> p(#[trigger] s[i]),
    ensures
        forall|i: int| 0 <= i < sort_by_seconds(s).len() ==> p(#[trigger] sort_by_seconds(s)[i]),
    decreases s.len(),
{
    if s.len() == 0 {
    } else {
        lemma_sort_all(s.drop_last(), p);
        lemma_insert_sorted_all(sort_by_seconds(s.drop_last()), s.last(), p);
    }
}

/// Stable insertion into a sorted sequence yields a sorted sequence.
proof fn lemma_insert_sorted_sorted(s: Seq<DepRecord>, d: DepRecord)
    requires
        sorted_by_seconds(s),
    ensures
        sorted_by_seconds(insert_sorted(s, d)),
    decreases s.len(),
{
    if s.len() == 0 {
    } else if s.last().seconds_left <= d.seconds_left {
    } else {
        assert(sorted_by_seconds(s.drop_last()));
        lemma_insert_sorted_sorted(s.drop_last(), d);
        let bound = s.last().seconds_left;
        lemma_insert_sorted_all(s.drop_last(), d, |e: DepRecord| e.seconds_left <= bound);
        lemma_insert_sorted_len(s.drop_last(), d);
    }
}

/// The stable sort really sorts.
pub proof fn lemma_sort_sorted(s: Seq<DepRecord>)
    ensures
        sorted_by_seconds(sort_by_seconds(s)),
    decreases s.len(),
{
    if s.len() == 0 {
    } else {
        lemma_sort_sorted(s.drop_last());
        lemma_insert_sorted_sorted(sort_by_seconds(s.drop_last()), s.last());
    }
}

/// Every record the filter stage keeps has not departed, and its
/// minutes are the whole minutes of its seconds.
pub proof fn lemma_filtered_good(sts: Seq<StopTime>, wanted: Seq<String>, inst: EvalInstant)
    ensures
        forall|i: int|
            0 <= i < filtered(sts, wanted, inst).len() ==> (#[trigger] filtered(
                sts,
                wanted,
                inst,
            )[i]).seconds_left >= 0 && filtered(sts, wanted, inst)[i].minutes_left == filtered(
                sts,
                wanted,
                inst,
            )[i].seconds_left / 60,
    decreases sts.len(),
{
    let f = filtered(sts, wanted, inst);
    if sts.len() == 0 {
    } else {
        lemma_filtered_good(sts.drop_last(), wanted, inst);
        let rest = filtered(sts.drop_last(), wanted, inst);
        if keeps(sts.last(), wanted, inst) {
            assert(f == rest.push(dep_of(sts.last(), inst)));
            assert forall|i: int|
                0 <= i < f.len() implies f[i].seconds_left >= 0 && f[i].minutes_left
                == f[i].seconds_left / 60 by {
                if i < rest.len() {
                    assert(f[i] == rest[i]);
                } else {
                    assert(f[i] == dep_of(sts.last(), inst));
                }
            }
        } else {
            assert(f == rest);
        }
    }
}

/// A record comes out of the filter stage exactly when some raw entry
/// survives both filters and normalizes to it.
pub proof fn lemma_filtered_membership(
    sts: Seq<StopTime>,
    wanted: Seq<String>,
    inst: EvalInstant,
    d: DepRecord,
)
    ensures
        filtered(sts, wanted, inst).contains(d) <==> exists|i: int|
            0 <= i < sts.len() && keeps(#[trigger] sts[i], wanted, inst) && dep_of(sts[i], inst)
                == d,
    decreases sts.len(),
{
    let f = filtered(sts, wanted, inst);
    if sts.len() == 0 {
    } else {
        lemma_filtered_membership(sts.drop_last(), wanted, inst, d);
        let rest = filtered(sts.drop_last(), wanted, inst);
        let n = sts.len() - 1;
        assert(forall|i: int| 0 <= i < n ==> #[trigger] sts.drop_last()[i] == sts[i]);
        let witnessed = exists|i: int|
            0 <= i < sts.len() && keeps(#[trigger] sts[i], wanted, inst) && dep_of(sts[i], inst)
                == d;
        if keeps(sts.last(), wanted, inst) {
            assert(f == rest.push(dep_of(sts.last(), inst)));
            if f.contains(d) {
                let k = choose|k: int| 0 <= k < f.len() && f[k] == d;
                if k < rest.len() {
                    assert(rest[k] == d);
                    assert(rest.contains(d));
                    let i = choose|i: int|
                        0 <= i < sts.drop_last().len() && keeps(
                            #[trigger] sts.drop_last()[i],
                            wanted,
                            inst,
                        ) && dep_of(sts.drop_last()[i], inst) == d;
                    assert(keeps(sts[i], wanted, inst) && dep_of(sts[i], inst) == d);
                } else {
                    assert(d == dep_of(sts.last(), inst));
                    assert(sts.last() == sts[n]);
                    assert(keeps(sts[n], wanted, inst) && dep_of(sts[n], inst) == d);
                }
                assert(witnessed);
            }
            if witnessed {
                let i = choose|i: int|
                    0 <= i < sts.len() && keeps(#[trigger] sts[i], wanted, inst) && dep_of(
                        sts[i],
                        inst,
                    ) == d;
                if i < n {
                    assert(keeps(sts.drop_last()[i], wanted, inst) && dep_of(
                        sts.drop_last()[i],
                        inst,
                    ) == d);
                    assert(rest.contains(d));
                    let k = choose|k: int| 0 <= k < rest.len() && rest[k] == d;
                    assert(f[k] == d);
                } else {
                    assert(f[rest.len() as int] == d);
                }
                assert(f.contains(d));
            }
        } else {
            assert(f == rest);
            if f.contains(d) {
                let i = choose|i: int|
                    0 <= i < sts.drop_last().len() && keeps(
                        #[trigger] sts.drop_last()[i],
                        wanted,
                        inst,
                    ) && dep_of(sts.drop_last()[i], inst) == d;
                assert(keeps(sts[i], wanted, inst) && dep_of(sts[i], inst) == d);
                assert(witnessed);
            }
            if witnessed {
                let i = choose|i: int|
                    0 <= i < sts.len() && keeps(#[trigger] sts[i], wanted, inst) && dep_of(
                        sts[i],
                        inst,
                    ) == d;
                assert(i < n);
                assert(keeps(sts.drop_last()[i], wanted, inst) && dep_of(sts.drop_last()[i], inst)
                    == d);
                assert(rest.contains(d));
            }
        }
    }
}

/// Under the wildcard, the filter keeps every raw entry that has not
/// departed, whatever its line label.
pub proof fn lemma_wildcard_retains(
    sts: Seq<StopTime>,
    wanted: Seq<String>,
    inst: EvalInstant,
    i: int,
)
    requires
        is_wildcard(wanted),
        0 <= i < sts.len(),
        inst.spec_seconds_left(effective_offset(sts[i])) >= 0,
    ensures
        filtered(sts, wanted, inst).contains(dep_of(sts[i], inst)),
{
    assert(keeps(sts[i], wanted, inst));
    lemma_filtered_membership(sts, wanted, inst, dep_of(sts[i], inst));
}

/// Among the raw entries that have not departed, the filter keeps
/// exactly those whose line label the accept-set admits.
pub proof fn lemma_accept_exact(
    sts: Seq<StopTime>,
    wanted: Seq<String>,
    inst: EvalInstant,
    i: int,
)
    requires
        0 <= i < sts.len(),
        inst.spec_seconds_left(effective_offset(sts[i])) >= 0,
    ensures
        filtered(sts, wanted, inst).contains(dep_of(sts[i], inst)) <==> accepts_line(
            wanted,
            sts[i].trip.route.short_name@,
        ),
{
    lemma_filtered_membership(sts, wanted, inst, dep_of(sts[i], inst));
    if filtered(sts, wanted, inst).contains(dep_of(sts[i], inst)) {
        let j = choose|j: int|
            0 <= j < sts.len() && keeps(#[trigger] sts[j], wanted, inst) && dep_of(sts[j], inst)
                == dep_of(sts[i], inst);
        assert(dep_of(sts[j], inst).line == sts[j].trip.route.short_name@);
        assert(accepts_line(wanted, sts[i].trip.route.short_name@));
    }
    if accepts_line(wanted, sts[i].trip.route.short_name@) {
        assert(keeps(sts[i], wanted, inst));
    }
}

/// Stable insertion adds exactly one record to the contents.
proof fn lemma_insert_sorted_multiset(s: Seq<DepRecord>, d: DepRecord)
    ensures
        insert_sorted(s, d).to_multiset() == s.to_multiset().insert(d),
    decreases s.len(),
{
    broadcast use vstd::seq_lib::group_to_multiset_ensures;

    if s.len() == 0 {
        assert(insert_sorted(s, d) == Seq::<DepRecord>::empty().push(d));
        assert(s =~= Seq::<DepRecord>::empty());
    } else if s.last().seconds_left <= d.seconds_left {
    } else {
        lemma_insert_sorted_multiset(s.drop_last(), d);
        assert(insert_sorted(s, d) == insert_sorted(s.drop_last(), d).push(s.last()));
        assert(insert_sorted(s.drop_last(), d).push(s.last()).to_multiset() =~= insert_sorted(
            s.drop_last(),
            d,
        ).to_multiset().insert(s.last()));
        assert(s.drop_last().push(s.last()) =~= s);
        assert(s.drop_last().push(s.last()).to_multiset() =~= s.drop_last().to_multiset().insert(
            s.last(),
        ));
        assert(s.to_multiset() =~= s.drop_last().to_multiset().insert(s.last()));
        assert(insert_sorted(s, d).to_multiset() =~= s.drop_last().to_multiset().insert(
            d,
        ).insert(s.last()));
        assert(s.drop_last().to_multiset().insert(d).insert(s.last())
            =~= s.drop_last().to_multiset().insert(s.last()).insert(d));
    }
}

/// Sorting permutes the records and loses none.
pub proof fn lemma_sort_multiset(s: Seq<DepRecord>)
    ensures
        sort_by_seconds(s).to_multiset() == s.to_multiset(),
    decreases s.len(),
{
    broadcast use vstd::seq_lib::group_to_multiset_ensures;

    if s.len() == 0 {
    } else {
        lemma_sort_multiset(s.drop_last());
        lemma_insert_sorted_multiset(sort_by_seconds(s.drop_last()), s.last());
        assert(s.drop_last().push(s.last()) =~= s);
        assert(s.drop_last().push(s.last()).to_multiset() =~= s.drop_last().to_multiset().insert(
            s.last(),
        ));
    }
}

/// Normalization is a pure function of the raw entries, the accept-set
/// and the evaluation instant: normalizing the same input at the same
/// fixed instant twice yields identical output.
pub proof fn lemma_normalize_deterministic(
    r1: Seq<DepRecord>,
    r2: Seq<DepRecord>,
    sts: Seq<StopTime>,
    wanted: Seq<String>,
    inst: EvalInstant,
)
    requires
        r1 == spec_normalize(sts, wanted, inst),
        r2 == spec_normalize(sts, wanted, inst),
    ensures
        r1 == r2,
{
}

/// Whether the accept-set, as a vector of labels, contains this label.
fn contains_label(wanted: &Vec<String>, label: &String) -> (r: bool)
    ensures
        r == exists|i: int| 0 <= i < wanted@.len() && (#[trigger] wanted@[i])@ == label@,
{
    let mut k: usize = 0;
    while k < wanted.len()
        invariant
            0 <= k <= wanted@.len(),
            forall|j: int| 0 <= j < k ==> (#[trigger] wanted@[j])@ != label@,
        decreases wanted@.len() - k,
    {
        if wanted[k].eq(label) {
            return true;
        }
        k += 1;
    }
    false
}

/// Normalizes one stop's raw schedule entries at a fixed evaluation
/// instant: keeps the entries whose line the accept-set admits (the
/// label "ALL" acting as the wildcard) and which have not departed,
/// orders them soonest first (stable), caps the result at five, and
/// renders clock time and whole minutes remaining for each.
pub fn normalize(
    stoptimes: &Vec<StopTime>,
    wanted_lines: &Vec<String>,
    inst: &EvalInstant,
) -> (r: Vec<DepartureInfo>)
    requires
        inst.wf(),
        forall|i: int| 0 <= i < stoptimes@.len() ==> offsets_ok(#[trigger] stoptimes@[i]),
    ensures
        dep_views(r@) == spec_normalize(stoptimes@, wanted_lines@, *inst),
        r@.len() <= 5,
        sorted_by_seconds(dep_views(r@)),
        forall|i: int| 0 <= i < r@.len() ==> (#[trigger] r@[i])@.seconds_left >= 0,
        forall|i: int|
            0 <= i < r@.len() ==> (#[trigger] r@[i])@.minutes_left == r@[i]@.seconds_left / 60,
{
    let all_label = String::from_str("ALL");
    let wildcard = contains_label(wanted_lines, &all_label);
    let mut kept: Vec<DepartureInfo> = Vec::new();
    let mut i: usize = 0;
    while i < stoptimes.len()
        invariant
            0 <= i <= stoptimes@.len(),
            inst.wf(),
            all_label@ == "ALL"@,
            wildcard == is_wildcard(wanted_lines@),
            forall|j: int| 0 <= j < stoptimes@.len() ==> offsets_ok(#[trigger] stoptimes@[j]),
            dep_views(kept@) == filtered(stoptimes@.take(i as int), wanted_lines@, *inst),
        decreases stoptimes@.len() - i,
    {
        let st = &stoptimes[i];
        let accept = wildcard || contains_label(wanted_lines, &st.trip.route.short_name);
        proof {
            assert(accept == accepts_line(
                wanted_lines@,
                stoptimes@[i as int].trip.route.short_name@,
            ));
        }
        if accept {
            let o: i64 = if st.realtime {
                st.realtime_departure
            } else {
                st.scheduled_departure
            };
            let ambiguous = inst.is_ambiguous(o);
            let secs: i64 = if ambiguous {
                0
            } else {
                o - inst.now_offset
            };
            if secs >= 0 {
                let display: i64 = if ambiguous {
                    inst.clock_now
                } else {
                    ((o as u64) % 86_400) as i64
                };
                proof {
                    assert(display as int == inst.spec_display_second(o as int));
                }
                let minutes: i64 = ((secs as u64) / 60) as i64;
                let dep = DepartureInfo {
                    line: st.trip.route.short_name.clone(),
                    headsign: st.trip.headsign.clone(),
                    time_str: format_clock_hm(display),
                    minutes_left: minutes,
                    seconds_left: secs,
                    is_realtime: st.realtime,
                };
                proof {
                    assert(dep@ == dep_of(stoptimes@[i as int], *inst));
                }
                kept.push(dep);
            }
        }
        proof {
            assert(stoptimes@.take(i + 1).drop_last() =~= stoptimes@.take(i as int));
            assert(stoptimes@.take(i + 1).last() == stoptimes@[i as int]);
            assert(dep_views(kept@) =~= filtered(stoptimes@.take(i + 1), wanted_lines@, *inst));
        }
        i += 1;
    }
    proof {
        assert(stoptimes@.take(stoptimes@.len() as int) =~= stoptimes@);
    }
    sort_departures(&mut kept);
    if kept.len() > 5 {
        kept.truncate(5);
    }
    proof {
        let f = filtered(stoptimes@, wanted_lines@, *inst);
        lemma_filtered_good(stoptimes@, wanted_lines@, *inst);
        lemma_sort_all(f, |d: DepRecord| d.seconds_left >= 0 && d.minutes_left == d.seconds_left / 60);
        lemma_sort_sorted(f);
        lemma_sort_len(f);
        assert(dep_views(kept@) =~= spec_normalize(stoptimes@, wanted_lines@, *inst));
        assert(forall|i: int|
            0 <= i < kept@.len() ==> (#[trigger] kept@[i])@ == dep_views(kept@)[i]);
    }
    kept
}

/// Stable insertion sort of a departure list by remaining seconds.
fn sort_departures(v: &mut Vec<DepartureInfo>)
    ensures
        dep_views(final(v)@) == sort_by_seconds(dep_views(old(v)@)),
{
    let ghost orig = v@;
    if v.len() <= 1 {
        proof {
            let dv = dep_views(orig);
            if orig.len() == 0 {
                assert(dep_views(v@) =~= sort_by_seconds(dv));
            } else {
                assert(sort_by_seconds(dv) == insert_sorted(
                    sort_by_seconds(dv.drop_last()),
                    dv.last(),
                ));
                assert(dv.drop_last() =~= Seq::<DepRecord>::empty());
                assert(sort_by_seconds(Seq::<DepRecord>::empty()) == Seq::<DepRecord>::empty());
                assert(insert_sorted(Seq::<DepRecord>::empty(), dv.last()) == seq![dv.last()]);
                assert(dep_views(v@) =~= seq![dv.last()]);
            }
        }
        return ;
    }
    proof {
        let t1 = dep_views(orig.take(1));
        assert(sort_by_seconds(t1) == insert_sorted(sort_by_seconds(t1.drop_last()), t1.last()));
        assert(t1.drop_last() =~= Seq::<DepRecord>::empty());
        assert(sort_by_seconds(Seq::<DepRecord>::empty()) == Seq::<DepRecord>::empty());
        assert(insert_sorted(Seq::<DepRecord>::empty(), t1.last()) == seq![t1.last()]);
        assert(dep_views(v@) =~= seq![t1.last()] + dep_views(orig).skip(1));
    }
    let mut j: usize = 1;
    while j < v.len()
        invariant
            1 <= j <= orig.len(),
            v@.len() == orig.len(),
            dep_views(v@) == sort_by_seconds(dep_views(orig.take(j as int))) + dep_views(
                orig,
            ).skip(j as int),
        decreases orig.len() - j,
    {
        proof {
            lemma_sort_len(dep_views(orig.take(j as int)));
        }
        let ghost sorted_prefix = sort_by_seconds(dep_views(orig.take(j as int)));
        proof {
            assert(sorted_prefix.len() == j);
            assert(dep_views(v@)[j as int] == (sorted_prefix + dep_views(orig).skip(j as int))[
                j as int
            ]);
            assert((sorted_prefix + dep_views(orig).skip(j as int))[j as int] == dep_views(
                orig,
            ).skip(j as int)[0]);
            assert(dep_views(orig).skip(j as int)[0] == dep_views(orig)[j as int]);
            assert(v@[j as int]@ == dep_views(v@)[j as int]);
        }
        let ghost before = v@;
        let x = v.remove(j);
        proof {
            assert(x@ == dep_views(orig)[j as int]);
            assert forall|k: int|
                0 <= k < dep_views(v@).len() implies dep_views(v@)[k] == (sorted_prefix
                + dep_views(orig).skip(j + 1))[k] by {
                if k < j {
                    assert(v@[k] == before[k]);
                    assert(dep_views(before)[k] == sorted_prefix[k]);
                } else {
                    assert(v@[k] == before[k + 1]);
                    assert(dep_views(before)[k + 1] == dep_views(orig).skip(j as int)[k + 1 - j]);
                    assert(dep_views(orig).skip(j as int)[k + 1 - j] == dep_views(orig)[k + 1]);
                    assert((sorted_prefix + dep_views(orig).skip(j + 1))[k] == dep_views(
                        orig,
                    ).skip(j + 1)[k - j]);
                    assert(dep_views(orig).skip(j + 1)[k - j] == dep_views(orig)[k + 1]);
                }
            }
            assert(dep_views(v@) =~= sorted_prefix + dep_views(orig).skip(j + 1));
        }
        let mut pos: usize = j;
        while pos > 0 && v[pos - 1].seconds_left > x.seconds_left
            invariant
                0 <= pos <= j < orig.len(),
                v@.len() == orig.len() - 1,
                x@ == dep_views(orig)[j as int],
                sorted_prefix == sort_by_seconds(dep_views(orig.take(j as int))),
                sorted_prefix.len() == j,
                dep_views(v@) == sorted_prefix + dep_views(orig).skip(j + 1),
                forall|k: int|
                    pos <= k < j ==> (#[trigger] sorted_prefix[k]).seconds_left
                        > x@.seconds_left,
            decreases pos,
        {
            proof {
                assert(dep_views(v@)[pos - 1] == (sorted_prefix + dep_views(orig).skip(j + 1))[
                    pos - 1
                ]);
                assert(dep_views(v@)[pos - 1] == v@[pos - 1]@);
            }
            pos -= 1;
        }
        proof {
            if pos > 0 {
                assert(dep_views(v@)[pos - 1] == (sorted_prefix + dep_views(orig).skip(j + 1))[
                    pos - 1
                ]);
                assert(dep_views(v@)[pos - 1] == v@[pos - 1]@);
            }
        }
        let ghost mid = v@;
        v.insert(pos, x);
        proof {
            lemma_insert_sorted_at(sorted_prefix, x@, pos as int);
            assert(dep_views(orig.take(j + 1)).drop_last() =~= dep_views(orig.take(j as int)));
            assert(dep_views(orig.take(j + 1)).last() == x@);
            assert(sort_by_seconds(dep_views(orig.take(j + 1))) == insert_sorted(
                sorted_prefix,
                x@,
            ));
            mid.insert_ensures(pos as int, x);
            sorted_prefix.insert_ensures(pos as int, x@);
            assert forall|k: int|
                0 <= k < dep_views(v@).len() implies dep_views(v@)[k] == (sorted_prefix.insert(
                pos as int,
                x@,
            ) + dep_views(orig).skip(j + 1))[k] by {
                assert(dep_views(v@)[k] == v@[k]@);
                if k < pos {
                    assert(v@[k] == mid[k]);
                    assert(dep_views(mid)[k] == sorted_prefix[k]);
                } else if k == pos {
                    assert(v@[k] == x);
                } else if k <= j {
                    assert(v@[k] == mid[k - 1]);
                    assert(dep_views(mid)[k - 1] == sorted_prefix[k - 1]);
                } else {
                    assert(v@[k] == mid[k - 1]);
                    assert(dep_views(mid)[k - 1] == dep_views(orig).skip(j + 1)[k - 1 - j]);
                }
            }
            assert(dep_views(v@) =~= sorted_prefix.insert(pos as int, x@) + dep_views(orig).skip(
                j + 1,
            ));
            assert(dep_views(v@) =~= sort_by_seconds(dep_views(orig.take(j + 1))) + dep_views(
                orig,
            ).skip(j + 1));
        }
        j += 1;
    }
    proof {
        assert(orig.take(orig.len() as int) =~= orig);
        assert(dep_views(orig).skip(orig.len() as int) =~= Seq::<DepRecord>::empty());
        assert(dep_views(v@) =~= sort_by_seconds(dep_views(orig)));
    }
}

} // verus!
