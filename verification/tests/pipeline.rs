use bussivahti_pro::clock::EvalInstant;
use bussivahti_pro::fetcher::{assemble_stop_data, FetchError, FetchOutcome};
use bussivahti_pro::geocode::extract_properties;
use bussivahti_pro::models::{
    GeoAddendum, GeoFeature, GeoGtfs, GeoProperties, GeoResponse, Route, StopData, StopTime, Trip,
};
use bussivahti_pro::settings::{Settings, StopConfig};
use bussivahti_pro::snapshot::build_snapshot;
use bussivahti_pro::store::Store;

fn inst_at(now_offset: i64) -> EvalInstant {
    EvalInstant { now_offset, clock_now: now_offset % 86_400, amb_start: 0, amb_end: 0 }
}

fn entry(line: &str, headsign: &str, sched_off: i64) -> StopTime {
    StopTime {
        realtime_departure: 0,
        scheduled_departure: sched_off,
        realtime: false,
        trip: Trip { route: Route { short_name: line.to_string() }, headsign: headsign.to_string() },
    }
}

fn stop(id: &str, name: &str, offs: &[i64]) -> StopData {
    let raw: Vec<StopTime> = offs.iter().map(|o| entry("1", "X", *o)).collect();
    assemble_stop_data(
        id.to_string(),
        name.to_string(),
        61_498_000,
        23_760_000,
        &raw,
        &vec!["ALL".to_string()],
        &inst_at(3000),
    )
}

fn ok(id: &str, offs: &[i64]) -> FetchOutcome {
    FetchOutcome { stop_id: id.to_string(), result: Ok(stop(id, id, offs)) }
}

fn failed(id: &str, err: FetchError) -> FetchOutcome {
    FetchOutcome { stop_id: id.to_string(), result: Err(err) }
}

#[test]
fn assembled_stop_carries_identity_and_departures() {
    let data = stop("tre:0001", "Keskustori", &[3600, 7200]);
    assert_eq!(data.stop_id, "tre:0001");
    assert_eq!(data.stop_name, "Keskustori");
    assert_eq!(data.lat_microdeg, 61_498_000);
    assert_eq!(data.lon_microdeg, 23_760_000);
    assert_eq!(data.last_updated_clock, 3000);
    assert_eq!(data.departures.len(), 2);
    assert_eq!(data.departures[0].seconds_left, 600);
    assert_eq!(data.departures[1].seconds_left, 4200);
}

#[test]
fn one_failure_among_four_leaves_exactly_three() {
    // One stop's fetch fails on transport while three succeed: the
    // snapshot holds exactly the three successful stops.
    let outcomes = vec![
        ok("a", &[3600]),
        failed("b", FetchError::Transport),
        ok("c", &[4000]),
        ok("d", &[5000]),
    ];
    let snap = build_snapshot(outcomes);
    assert_eq!(snap.entries().len(), 3);
    assert!(snap.get(&"a".to_string()).is_some());
    assert!(snap.get(&"b".to_string()).is_none());
    assert!(snap.get(&"c".to_string()).is_some());
    assert!(snap.get(&"d".to_string()).is_some());
}

#[test]
fn every_failure_kind_is_omitted_alike() {
    let outcomes = vec![
        failed("t", FetchError::Transport),
        failed("d", FetchError::Decode),
        failed("n", FetchError::StopNotFound),
        ok("good", &[3600]),
    ];
    let snap = build_snapshot(outcomes);
    assert_eq!(snap.entries().len(), 1);
    assert!(snap.get(&"t".to_string()).is_none());
    assert!(snap.get(&"d".to_string()).is_none());
    assert!(snap.get(&"n".to_string()).is_none());
    assert!(snap.get(&"good".to_string()).is_some());
}

#[test]
fn all_failures_give_empty_snapshot() {
    let outcomes = vec![
        failed("a", FetchError::Transport),
        failed("b", FetchError::Decode),
    ];
    let snap = build_snapshot(outcomes);
    assert_eq!(snap.entries().len(), 0);
}

#[test]
fn later_outcome_for_same_stop_wins() {
    let outcomes = vec![ok("a", &[3600]), ok("a", &[7200])];
    let snap = build_snapshot(outcomes);
    assert_eq!(snap.entries().len(), 1);
    let d = snap.get(&"a".to_string()).unwrap();
    assert_eq!(d.departures[0].seconds_left, 4200);
}

#[test]
fn store_starts_empty() {
    let store = Store::new();
    assert_eq!(store.read().entries().len(), 0);
    assert!(store.read().get(&"a".to_string()).is_none());
}

#[test]
fn replace_installs_the_new_cycle_entire() {
    // The store first shows stops a and b; after installing a cycle
    // with b (changed) and c, nothing of the old cycle remains: no a,
    // no old b, and c is present — never a mixture.
    let mut store = Store::new();
    store.replace(build_snapshot(vec![ok("a", &[3600]), ok("b", &[4000])]));
    assert!(store.read().get(&"a".to_string()).is_some());

    store.replace(build_snapshot(vec![ok("b", &[9000]), ok("c", &[5000])]));
    let snap = store.read();
    assert!(snap.get(&"a".to_string()).is_none());
    let b = snap.get(&"b".to_string()).unwrap();
    assert_eq!(b.departures[0].seconds_left, 6000);
    assert!(snap.get(&"c".to_string()).is_some());
    assert_eq!(snap.entries().len(), 2);
}

#[test]
fn merge_adds_one_stop_without_disturbing_others() {
    let mut store = Store::new();
    store.replace(build_snapshot(vec![ok("a", &[3600]), ok("b", &[4000])]));
    store.merge_stop(stop("c", "New stop", &[5000]));
    let snap = store.read();
    assert_eq!(snap.entries().len(), 3);
    assert_eq!(snap.get(&"a".to_string()).unwrap().departures[0].seconds_left, 600);
    assert_eq!(snap.get(&"b".to_string()).unwrap().departures[0].seconds_left, 1000);
    assert_eq!(snap.get(&"c".to_string()).unwrap().stop_name, "New stop");
}

#[test]
fn merge_replaces_an_existing_entry() {
    let mut store = Store::new();
    store.replace(build_snapshot(vec![ok("a", &[3600])]));
    store.merge_stop(stop("a", "Refetched", &[7200]));
    let snap = store.read();
    assert_eq!(snap.entries().len(), 1);
    let a = snap.get(&"a".to_string()).unwrap();
    assert_eq!(a.stop_name, "Refetched");
    assert_eq!(a.departures[0].seconds_left, 4200);
}

#[test]
fn settings_list_ids_in_configuration_order() {
    let settings = Settings {
        api_key: "SECRET-REDACTED".to_string(),
        update_interval: 30,
        stops: vec![
            StopConfig { stop_id: "x".to_string(), lines: vec!["7".to_string()] },
            StopConfig { stop_id: "y".to_string(), lines: vec!["ALL".to_string()] },
        ],
    };
    assert_eq!(settings.stop_ids(), vec!["x".to_string(), "y".to_string()]);
}

#[test]
fn search_response_unwraps_to_properties() {
    let hit = |name: &str, code: Option<&str>| GeoFeature {
        properties: GeoProperties {
            name: name.to_string(),
            label: format!("{}, Tampere", name),
            gtfs_id: Some(format!("GTFS:tre:{}", name)),
            addendum: code.map(|c| GeoAddendum {
                gtfs: Some(GeoGtfs { code: Some(c.to_string()) }),
            }),
        },
    };
    let resp = GeoResponse { features: vec![hit("Alpha", Some("0101")), hit("Beta", None)] };
    let props = extract_properties(resp);
    assert_eq!(props.len(), 2);
    assert_eq!(props[0].name, "Alpha");
    assert_eq!(
        props[0].addendum.as_ref().unwrap().gtfs.as_ref().unwrap().code.as_deref(),
        Some("0101")
    );
    assert_eq!(props[1].name, "Beta");
    assert!(props[1].addendum.is_none());
}

#[test]
fn geocoding_id_is_cleaned_to_bare_stop_id() {
    let clean = |s: &str| {
        String::from_utf8(bussivahti_pro::geocode::clean_gtfs_id(&s.as_bytes().to_vec())).unwrap()
    };
    assert_eq!(clean("GTFS:tre:0001#stop"), "tre:0001");
    assert_eq!(clean("tre:0001"), "tre:0001");
    assert_eq!(clean("GTFS:GTFS:x"), "x");
    assert_eq!(clean("#rest"), "");
    assert_eq!(clean("aGTFS:b"), "ab");
    assert_eq!(clean(""), "");
}
