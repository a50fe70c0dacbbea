//! The computed part of the stop-search lookup: unwrapping the
//! descriptive properties out of a search response.  The request
//! itself and the decoding of its bytes happen outside the library.

use vstd::prelude::*;
use crate::models::{GeoProperties, GeoResponse};

verus! {

/// The descriptive properties of each search hit, in response order.
pub fn extract_properties(resp: GeoResponse) -> (r: Vec<GeoProperties>)
    ensures
        r@.len() == resp.features@.len(),
        forall|i: int| 0 <= i < r@.len() ==> #[trigger] r@[i] == resp.features@[i].properties,
{
    let ghost all = resp.features@;
    let mut feats = resp.features;
    let mut out: Vec<GeoProperties> = Vec::new();
    while feats.len() > 0
        invariant
            out@.len() + feats@.len() == all.len(),
            feats@ == all.skip(out@.len() as int),
            forall|i: int| 0 <= i < out@.len() ==> #[trigger] out@[i] == all[i].properties,
        decreases feats@.len(),
    {
        let ghost done = out@.len() as int;
        proof {
            assert(feats@[0] == all.skip(done)[0]);
            assert(all.skip(done)[0] == all[done]);
        }
        let f = feats.remove(0);
        out.push(f.properties);
        proof {
            assert(feats@ =~= all.skip(done + 1));
        }
    }
    out
}

/// The marker "GTFS:" as bytes.
pub open spec fn marker() -> Seq<u8> {
    seq![71u8, 84u8, 70u8, 83u8, 58u8]
}

/// The bytes with every occurrence of the marker struck out, scanning
/// left to right without overlap.
pub open spec fn spec_strip_marker(s: Seq<u8>) -> Seq<u8>
    decreases s.len(),
{
    if s.len() == 0 {
        Seq::empty()
    } else if s.len() >= 5 && s.take(5) == marker() {
        spec_strip_marker(s.skip(5))
    } else {
        seq![s[0]] + spec_strip_marker(s.skip(1))
    }
}

/// The bytes up to, and not including, the first '#'.
pub open spec fn spec_before_hash(s: Seq<u8>) -> Seq<u8>
    decreases s.len(),
{
    if s.len() == 0 {
        Seq::empty()
    } else if s[0] == 35u8 {
        Seq::empty()
    } else {
        seq![s[0]] + spec_before_hash(s.skip(1))
    }
}

/// A raw geocoding identifier reduced to the bare stop identifier:
/// the marker struck out, then cut at the first '#'.
pub open spec fn spec_clean_gtfs_id(s: Seq<u8>) -> Seq<u8> {
    spec_before_hash(spec_strip_marker(s))
}

/// Strikes every occurrence of the marker "GTFS:" out of the bytes.
fn strip_marker(raw: &Vec<u8>) -> (r: Vec<u8>)
    ensures
        r@ == spec_strip_marker(raw@),
{
    let mut out: Vec<u8> = Vec::new();
    let mut i: usize = 0;
    proof {
        assert(raw@.skip(0) =~= raw@);
        assert(out@ + spec_strip_marker(raw@) =~= spec_strip_marker(raw@));
    }
    while i < raw.len()
        invariant
            0 <= i <= raw@.len(),
            spec_strip_marker(raw@) == out@ + spec_strip_marker(raw@.skip(i as int)),
        decreases raw@.len() - i,
    {
        let ghost rest = raw@.skip(i as int);
        if raw.len() - i >= 5 && raw[i] == 71 && raw[i + 1] == 84 && raw[i + 2] == 70 && raw[i
            + 3] == 83 && raw[i + 4] == 58 {
            proof {
                assert(rest.take(5) =~= marker());
                assert(rest.skip(5) =~= raw@.skip(i + 5));
                assert(spec_strip_marker(rest) == spec_strip_marker(raw@.skip(i + 5)));
            }
            i += 5;
        } else {
            proof {
                if rest.len() >= 5 && rest.take(5) == marker() {
                    assert(rest.take(5)[0] == raw@[i as int]);
                    assert(rest.take(5)[1] == raw@[i + 1]);
                    assert(rest.take(5)[2] == raw@[i + 2]);
                    assert(rest.take(5)[3] == raw@[i + 3]);
                    assert(rest.take(5)[4] == raw@[i + 4]);
                    assert(false);
                }
                assert(rest[0] == raw@[i as int]);
                assert(rest.skip(1) =~= raw@.skip(i + 1));
                assert(spec_strip_marker(rest) == seq![raw@[i as int]] + spec_strip_marker(
                    raw@.skip(i + 1),
                ));
                assert((out@ + seq![raw@[i as int]]) + spec_strip_marker(raw@.skip(i + 1))
                    =~= out@ + spec_strip_marker(rest));
            }
            let b = raw[i];
            out.push(b);
            i += 1;
        }
    }
    proof {
        assert(raw@.skip(raw@.len() as int) =~= Seq::<u8>::empty());
        assert(out@ + Seq::<u8>::empty() =~= out@);
    }
    out
}

/// Cuts the bytes at the first '#'.
fn before_hash(raw: &Vec<u8>) -> (r: Vec<u8>)
    ensures
        r@ == spec_before_hash(raw@),
{
    let mut out: Vec<u8> = Vec::new();
    let mut i: usize = 0;
    while i < raw.len()
        invariant
            0 <= i <= raw@.len(),
            forall|j: int| 0 <= j < i ==> raw@[j] != 35u8,
            out@ =~= raw@.take(i as int),
        decreases raw@.len() - i,
    {
        let b = raw[i];
        if b == 35 {
            proof {
                lemma_before_hash_stops(raw@, i as int);
            }
            return out;
        }
        out.push(b);
        proof {
            assert(out@ =~= raw@.take(i + 1));
        }
        i += 1;
    }
    proof {
        lemma_before_hash_all(raw@);
        assert(out@ =~= raw@.take(raw@.len() as int));
        assert(raw@.take(raw@.len() as int) =~= raw@);
    }
    out
}

/// Where a '#' stands at position `i` and none earlier, the cut is the
/// prefix before it.
proof fn lemma_before_hash_stops(s: Seq<u8>, i: int)
    requires
        0 <= i < s.len(),
        s[i] == 35u8,
        forall|j: int| 0 <= j < i ==> s[j] != 35u8,
    ensures
        spec_before_hash(s) == s.take(i),
    decreases i,
{
    if i == 0 {
        assert(spec_before_hash(s) =~= s.take(0));
    } else {
        assert(s.skip(1)[i - 1] == s[i]);
        assert(forall|j: int| 0 <= j < i - 1 ==> s.skip(1)[j] == s[j + 1]);
        lemma_before_hash_stops(s.skip(1), i - 1);
        assert(spec_before_hash(s) == seq![s[0]] + s.skip(1).take(i - 1));
        assert(seq![s[0]] + s.skip(1).take(i - 1) =~= s.take(i));
    }
}

/// Without any '#', the cut keeps everything.
proof fn lemma_before_hash_all(s: Seq<u8>)
    requires
        forall|j: int| 0 <= j < s.len() ==> s[j] != 35u8,
    ensures
        spec_before_hash(s) == s,
    decreases s.len(),
{
    if s.len() == 0 {
        assert(spec_before_hash(s) =~= s);
    } else {
        assert(forall|j: int| 0 <= j < s.len() - 1 ==> s.skip(1)[j] == s[j + 1]);
        lemma_before_hash_all(s.skip(1));
        assert(seq![s[0]] + s.skip(1) =~= s);
    }
}

/// Reduces a raw geocoding identifier to the bare stop identifier:
/// every "GTFS:" marker struck out, then everything from the first
/// '#' on dropped.
pub fn clean_gtfs_id(raw: &Vec<u8>) -> (r: Vec<u8>)
    ensures
        r@ == spec_clean_gtfs_id(raw@),
{
    let stripped = strip_marker(raw);
    before_hash(&stripped)
}

} // verus!
