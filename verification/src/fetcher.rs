//! The per-stop fetch outcome: the error taxonomy of a failed fetch,
//! the outcome record a cycle collects for every configured stop, and
//! the assembly of a successful fetch into a stop state.

use vstd::prelude::*;
use crate::clock::EvalInstant;
use crate::models::{StopData, StopTime};
use crate::normalize::{dep_views, normalize, offsets_ok, spec_normalize};

verus! {

/// Why a stop's fetch yielded no data this cycle.  Every failure is
/// local to its stop: it never aborts sibling fetches or the cycle.
#[derive(Clone, Copy, Debug, PartialEq, Eq, Structural)]
pub enum FetchError {
    /// The remote source could not be reached, or refused the request.
    Transport,
    /// The response could not be decoded.
    Decode,
    /// The response was well-formed but did not carry the stop.
    StopNotFound,
}

/// The outcome of one stop's fetch within a cycle.
#[derive(Debug)]
pub struct FetchOutcome {
    pub stop_id: String,
    pub result: Result<StopData, FetchError>,
}

/// A successful outcome carries the state of the stop it was fetched
/// for.
pub open spec fn consistent(o: FetchOutcome) -> bool {
    match o.result {
        Ok(d) => d.stop_id@ == o.stop_id@,
        Err(_) => true,
    }
}

/// Packages a successful fetch into the stop's new state: the
/// normalized departures together with the stop's identity, position,
/// and the evaluation instant's wall clock as the refresh time.
pub fn assemble_stop_data(
    stop_id: String,
    stop_name: String,
    lat_microdeg: i64,
    lon_microdeg: i64,
    stoptimes: &Vec<StopTime>,
    wanted_lines: &Vec<String>,
    inst: &EvalInstant,
) -> (r: StopData)
    requires
        inst.wf(),
        forall|i: int| 0 <= i < stoptimes@.len() ==> offsets_ok(#[trigger] stoptimes@[i]),
    ensures
        r.stop_id@ == stop_id@,
        r.stop_name@ == stop_name@,
        r.lat_microdeg == lat_microdeg,
        r.lon_microdeg == lon_microdeg,
        dep_views(r.departures@) == spec_normalize(stoptimes@, wanted_lines@, *inst),
        r@.departures == spec_normalize(stoptimes@, wanted_lines@, *inst),
        r.last_updated_clock == inst.clock_now,
{
    let departures = normalize(stoptimes, wanted_lines, inst);
    let r = StopData {
        stop_id,
        stop_name,
        lat_microdeg,
        lon_microdeg,
        departures,
        last_updated_clock: inst.clock_now,
    };
    proof {
        assert(r@.departures =~= dep_views(r.departures@));
    }
    r
}

} // verus!
