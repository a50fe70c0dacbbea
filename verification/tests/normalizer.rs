use bussivahti_pro::clock::{format_clock_hm, EvalInstant};
use bussivahti_pro::models::{Route, StopTime, Trip};
use bussivahti_pro::normalize::normalize;

fn inst_at(now_offset: i64) -> EvalInstant {
    EvalInstant { now_offset, clock_now: now_offset % 86_400, amb_start: 0, amb_end: 0 }
}

fn entry(line: &str, headsign: &str, realtime: bool, rt_off: i64, sched_off: i64) -> StopTime {
    StopTime {
        realtime_departure: rt_off,
        scheduled_departure: sched_off,
        realtime,
        trip: Trip { route: Route { short_name: line.to_string() }, headsign: headsign.to_string() },
    }
}

fn labels(v: &[&str]) -> Vec<String> {
    v.iter().map(|s| s.to_string()).collect()
}

#[test]
fn two_entries_after_midnight() {
    // Stop "A": scheduled offsets 3600 s and 7200 s, no realtime,
    // evaluated at local midnight + 3000 s.
    let raw = vec![
        entry("1", "Centre", false, 0, 3600),
        entry("2", "Harbour", false, 0, 7200),
    ];
    let out = normalize(&raw, &labels(&["ALL"]), &inst_at(3000));
    assert_eq!(out.len(), 2);
    assert_eq!(out[0].seconds_left, 600);
    assert_eq!(out[1].seconds_left, 4200);
    assert_eq!(out[0].minutes_left, 10);
    assert_eq!(out[1].minutes_left, 70);
    assert_eq!(out[0].time_str, "01:00");
    assert_eq!(out[1].time_str, "02:00");
    assert_eq!(out[0].line, "1");
    assert_eq!(out[1].line, "2");
}

#[test]
fn finite_accept_set_keeps_exactly_members() {
    // Accept-set {"7"}: the "7" entry appears, the "9" entry does not.
    let raw = vec![
        entry("7", "East", false, 0, 4000),
        entry("9", "West", false, 0, 4100),
    ];
    let out = normalize(&raw, &labels(&["7"]), &inst_at(3000));
    assert_eq!(out.len(), 1);
    assert_eq!(out[0].line, "7");
    assert_eq!(out[0].headsign, "East");
}

#[test]
fn wildcard_keeps_every_line() {
    let raw = vec![
        entry("7", "East", false, 0, 4000),
        entry("9", "West", false, 0, 4100),
        entry("33", "North", false, 0, 4200),
    ];
    let out = normalize(&raw, &labels(&["ALL"]), &inst_at(3000));
    assert_eq!(out.len(), 3);
    assert_eq!(out[0].line, "7");
    assert_eq!(out[1].line, "9");
    assert_eq!(out[2].line, "33");
}

#[test]
fn departed_entries_are_dropped() {
    // One entry 500 s in the past, one exactly now, one in the future.
    let raw = vec![
        entry("1", "Past", false, 0, 2500),
        entry("1", "Now", false, 0, 3000),
        entry("1", "Soon", false, 0, 3500),
    ];
    let out = normalize(&raw, &labels(&["ALL"]), &inst_at(3000));
    assert_eq!(out.len(), 2);
    assert_eq!(out[0].headsign, "Now");
    assert_eq!(out[0].seconds_left, 0);
    assert_eq!(out[1].headsign, "Soon");
    assert_eq!(out[1].seconds_left, 500);
}

#[test]
fn output_capped_at_five_sorted_soonest_first() {
    let raw = vec![
        entry("1", "a", false, 0, 9000),
        entry("1", "b", false, 0, 4000),
        entry("1", "c", false, 0, 8000),
        entry("1", "d", false, 0, 5000),
        entry("1", "e", false, 0, 7000),
        entry("1", "f", false, 0, 3500),
        entry("1", "g", false, 0, 6000),
    ];
    let out = normalize(&raw, &labels(&["ALL"]), &inst_at(3000));
    assert_eq!(out.len(), 5);
    let secs: Vec<i64> = out.iter().map(|d| d.seconds_left).collect();
    assert_eq!(secs, vec![500, 1000, 2000, 3000, 4000]);
    for w in out.windows(2) {
        assert!(w[0].seconds_left <= w[1].seconds_left);
    }
}

#[test]
fn equal_times_keep_original_order() {
    let raw = vec![
        entry("5", "First", false, 0, 4000),
        entry("6", "Second", false, 0, 4000),
        entry("4", "Earlier", false, 0, 3600),
    ];
    let out = normalize(&raw, &labels(&["ALL"]), &inst_at(3000));
    assert_eq!(out.len(), 3);
    assert_eq!(out[0].headsign, "Earlier");
    assert_eq!(out[1].headsign, "First");
    assert_eq!(out[2].headsign, "Second");
}

#[test]
fn realtime_flag_selects_offset() {
    let live = entry("3", "Live", true, 3900, 4500);
    let timetable = entry("3", "Planned", false, 3900, 4500);
    let out = normalize(&vec![live, timetable], &labels(&["ALL"]), &inst_at(3000));
    assert_eq!(out.len(), 2);
    assert_eq!(out[0].headsign, "Live");
    assert_eq!(out[0].seconds_left, 900);
    assert!(out[0].is_realtime);
    assert_eq!(out[1].headsign, "Planned");
    assert_eq!(out[1].seconds_left, 1500);
    assert!(!out[1].is_realtime);
}

#[test]
fn ambiguous_time_falls_back_to_now() {
    // Offsets in 7200..10800 resolve ambiguously today; such a
    // departure counts as leaving right now and shows the current
    // wall clock.
    let inst = EvalInstant { now_offset: 3000, clock_now: 2520, amb_start: 7200, amb_end: 10_800 };
    let raw = vec![
        entry("1", "InFold", false, 0, 9000),
        entry("1", "Plain", false, 0, 12_000),
    ];
    let out = normalize(&raw, &labels(&["ALL"]), &inst);
    assert_eq!(out.len(), 2);
    assert_eq!(out[0].headsign, "InFold");
    assert_eq!(out[0].seconds_left, 0);
    assert_eq!(out[0].minutes_left, 0);
    assert_eq!(out[0].time_str, "00:42");
    assert_eq!(out[1].headsign, "Plain");
    assert_eq!(out[1].seconds_left, 9000);
}

#[test]
fn empty_raw_list_gives_empty_result() {
    let out = normalize(&Vec::new(), &labels(&["ALL"]), &inst_at(3000));
    assert!(out.is_empty());
}

#[test]
fn empty_accept_set_drops_everything() {
    let raw = vec![entry("7", "East", false, 0, 4000)];
    let out = normalize(&raw, &Vec::new(), &inst_at(3000));
    assert!(out.is_empty());
}

#[test]
fn offsets_beyond_one_day_fold_into_clock() {
    // 90000 s past midnight is 25:00 on the timetable: shown as 01:00.
    let raw = vec![entry("N1", "NightBus", false, 0, 90_000)];
    let out = normalize(&raw, &labels(&["ALL"]), &inst_at(3000));
    assert_eq!(out.len(), 1);
    assert_eq!(out[0].seconds_left, 87_000);
    assert_eq!(out[0].time_str, "01:00");
}

#[test]
fn normalizing_twice_gives_identical_output() {
    let raw = vec![
        entry("7", "East", true, 3605, 3600),
        entry("9", "West", false, 0, 4100),
        entry("7", "East", false, 0, 4100),
    ];
    let wanted = labels(&["7", "9"]);
    let inst = inst_at(3000);
    let first = normalize(&raw, &wanted, &inst);
    let second = normalize(&raw, &wanted, &inst);
    assert_eq!(first, second);
}

#[test]
fn clock_rendering_pads_with_zeros() {
    assert_eq!(format_clock_hm(0), "00:00");
    assert_eq!(format_clock_hm(3661), "01:01");
    assert_eq!(format_clock_hm(86_399), "23:59");
    assert_eq!(format_clock_hm(45_296), "12:34");
}

#[test]
fn current_instant_is_well_formed() {
    let inst = EvalInstant::now();
    assert!(inst.now_offset >= 0);
    assert!(inst.now_offset <= 100_000);
    assert!(inst.clock_now >= 0);
    assert!(inst.clock_now < 86_400);
    assert_eq!(inst.amb_start, inst.amb_end);
}

#[test]
fn ambiguity_range_is_half_open() {
    let inst = EvalInstant { now_offset: 3000, clock_now: 3000, amb_start: 7000, amb_end: 8000 };
    let raw = vec![
        entry("1", "AtStart", false, 0, 7000),
        entry("1", "AtEnd", false, 0, 8000),
    ];
    let out = normalize(&raw, &labels(&["ALL"]), &inst);
    assert_eq!(out.len(), 2);
    // 7000 lies in the range: fallback to now.  8000 does not: plain arithmetic.
    assert_eq!(out[0].headsign, "AtStart");
    assert_eq!(out[0].seconds_left, 0);
    assert_eq!(out[1].headsign, "AtEnd");
    assert_eq!(out[1].seconds_left, 5000);
}
