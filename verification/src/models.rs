//! Data model: raw schedule entries as the remote source reports them,
//! normalized departure records, per-stop state, and the record types
//! returned by the stop-search lookup.

use vstd::prelude::*;

verus! {

/// One raw schedule entry for a stop: the remote source reports a
/// scheduled and (when live tracking is available) a realtime departure
/// offset, both in seconds from local midnight of the service day.
#[derive(Debug, Clone, PartialEq, Eq)]
pub struct StopTime {
    pub realtime_departure: i64,
    pub scheduled_departure: i64,
    pub realtime: bool,
    pub trip: Trip,
}

/// The trip a raw schedule entry belongs to.
#[derive(Debug, Clone, PartialEq, Eq)]
pub struct Trip {
    pub route: Route,
    pub headsign: String,
}

/// The route (line) of a trip, identified by its public label.
#[derive(Debug, Clone, PartialEq, Eq)]
pub struct Route {
    pub short_name: String,
}

/// A normalized, display-ready departure record.
#[derive(Debug, Clone, PartialEq, Eq)]
pub struct DepartureInfo {
    pub line: String,
    pub headsign: String,
    pub time_str: String,
    pub minutes_left: i64,
    pub seconds_left: i64,
    pub is_realtime: bool,
}

/// Mathematical image of a [`DepartureInfo`]: strings as character
/// sequences, integers unbounded.
pub struct DepRecord {
    pub line: Seq<char>,
    pub headsign: Seq<char>,
    pub time_str: Seq<char>,
    pub minutes_left: int,
    pub seconds_left: int,
    pub is_realtime: bool,
}

impl View for DepartureInfo {
    type V = DepRecord;

    open spec fn view(&self) -> DepRecord {
        DepRecord {
            line: self.line@,
            headsign: self.headsign@,
            time_str: self.time_str@,
            minutes_left: self.minutes_left as int,
            seconds_left: self.seconds_left as int,
            is_realtime: self.is_realtime,
        }
    }
}

/// The state of one tracked stop after a successful fetch: identity,
/// position (in microdegrees, so the record stays within plain
/// integers), the normalized departures, and the wall-clock second of
/// the local day at which the fetch completed.
#[derive(Debug, Clone, PartialEq, Eq)]
pub struct StopData {
    pub stop_id: String,
    pub stop_name: String,
    pub lat_microdeg: i64,
    pub lon_microdeg: i64,
    pub departures: Vec<DepartureInfo>,
    pub last_updated_clock: i64,
}

/// Mathematical image of a [`StopData`].
pub struct StopRecord {
    pub stop_id: Seq<char>,
    pub stop_name: Seq<char>,
    pub lat_microdeg: int,
    pub lon_microdeg: int,
    pub departures: Seq<DepRecord>,
    pub last_updated_clock: int,
}

impl View for StopData {
    type V = StopRecord;

    open spec fn view(&self) -> StopRecord {
        StopRecord {
            stop_id: self.stop_id@,
            stop_name: self.stop_name@,
            lat_microdeg: self.lat_microdeg as int,
            lon_microdeg: self.lon_microdeg as int,
            departures: Seq::new(self.departures@.len(), |i: int| self.departures@[i]@),
            last_updated_clock: self.last_updated_clock as int,
        }
    }
}

/// Result list of a stop-search lookup.
#[derive(Debug, Clone, PartialEq, Eq)]
pub struct GeoResponse {
    pub features: Vec<GeoFeature>,
}

/// One search hit; only its properties carry information.
#[derive(Debug, Clone, PartialEq, Eq)]
pub struct GeoFeature {
    pub properties: GeoProperties,
}

/// The descriptive part of a search hit.
#[derive(Debug, Clone, PartialEq, Eq)]
pub struct GeoProperties {
    pub name: String,
    pub label: String,
    pub gtfs_id: Option<String>,
    pub addendum: Option<GeoAddendum>,
}

/// Optional extra block of a search hit.
#[derive(Debug, Clone, PartialEq, Eq)]
pub struct GeoAddendum {
    pub gtfs: Option<GeoGtfs>,
}

/// Schedule-source identifiers inside the extra block.
#[derive(Debug, Clone, PartialEq, Eq)]
pub struct GeoGtfs {
    pub code: Option<String>,
}

} // verus!
