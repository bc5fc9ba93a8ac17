//! The vessels heard on AIS, and how close each will come.

use omakeel::ais::{Class, Particulars, Position, Report};
use omakeel::clock::SECOND;
use omakeel::double::Double;
use omakeel::nmea::Coordinate;
use omakeel::number::Number;
use omakeel::protocol::{FixState, FixStatus, Target};
use omakeel::targets::{
    kind, motion, own, plot, status, Closest, Motion, Plot, Sighting, Traffic, CIRCLE_DEG,
    DANGER_CPA_NM, DANGER_TCPA_MIN, LOST_AFTER, MAX_VESSELS, STEERAGE_KN,
};

const LAT: f64 = 37.865;
const LON: f64 = -122.32;
const T: u64 = 1_000_000_000_000;

/// Where the boat is and how she's moving.
#[derive(Clone, Copy)]
struct Boat {
    lat: f64,
    lon: f64,
    sog_kn: Option<f64>,
    cog_deg: Option<f64>,
}

fn bits(x: f64) -> Double {
    Double { bits: x.to_bits() }
}

fn number(x: Option<Double>) -> Option<f64> {
    x.map(|x| f64::from_bits(x.bits))
}

fn round(value: f64, places: i32) -> f64 {
    let scale = 10f64.powi(places);
    (value * scale).round() / scale
}

/// Knots east and north.
fn velocity(motion: Motion) -> (f64, f64) {
    match motion {
        Motion::UnderWay { sog_kn, cog_deg } => {
            let sog = f64::from_bits(sog_kn.bits);
            let cog = f64::from_bits(cog_deg.bits).to_radians();
            (sog * cog.sin(), sog * cog.cos())
        }
        _ => (0.0, 0.0),
    }
}

/// Miles east and north from one position to another.
fn offset(from: (f64, f64), to: (f64, f64)) -> (f64, f64) {
    let dlon = (to.1 - from.1 + 540.0).rem_euclid(360.0) - 180.0;
    let mid = ((from.0 + to.0) / 2.0).to_radians();
    (dlon * 60.0 * mid.cos(), (to.0 - from.0) * 60.0)
}

/// Miles at the closest point of approach, and minutes until it.
fn closest(at: (f64, f64), relative: (f64, f64)) -> (f64, f64) {
    let speed2 = relative.0 * relative.0 + relative.1 * relative.1;
    let hours = if speed2 < 1e-9 {
        0.0
    } else {
        (-(at.0 * relative.0 + at.1 * relative.1) / speed2).max(0.0)
    };
    let cpa = (at.0 + relative.0 * hours).hypot(at.1 + relative.1 * hours);
    (cpa, hours * 60.0)
}

/// A sighting as the boat plots it.
fn plotted(boat: &Boat, s: &Sighting) -> Plot {
    let p = &s.position;
    let tenths = |v: u16| bits(f64::from(v) / 10.0);
    let theirs = motion(p.sog_tenths.map(tenths), p.cog_tenths.map(tenths));
    let ours = motion(boat.sog_kn.map(bits), boat.cog_deg.map(bits));
    let (ve, vn) = velocity(theirs);
    let (oe, on) = velocity(ours);
    let hours = s.age as f64 / 1e9 / 3600.0;
    let there = (f64::from(p.lat) / 600_000.0, f64::from(p.lon) / 600_000.0);
    let (east, north) = offset((boat.lat, boat.lon), there);
    let (east, north) = (east + ve * hours, north + vn * hours);
    let (cpa, tcpa) = closest((east, north), (ve - oe, vn - on));
    plot(
        s.mmsi,
        bits(round(east.hypot(north), 2)),
        bits(round(east.atan2(north).to_degrees().rem_euclid(360.0), 1)),
        theirs,
        ours,
        Closest {
            cpa_nm: bits(cpa),
            tcpa_minutes: bits(tcpa),
            shown_cpa_nm: bits(round(cpa, 2)),
            shown_tcpa_minutes: bits(round(tcpa, 1)),
        },
    )
}

/// Every vessel as the boat sees it.
fn targets(traffic: &Traffic, now: u64, boat: Option<Boat>) -> Vec<Target> {
    let plots = match boat {
        Some(boat) => traffic
            .sightings(now)
            .iter()
            .map(|s| plotted(&boat, s))
            .collect(),
        None => Vec::new(),
    };
    traffic.targets(now, &plots)
}

/// A position `north` and `east` miles from the boat.
fn at(north: f64, east: f64) -> (f64, f64) {
    (
        LAT + north / 60.0,
        LON + east / (60.0 * LAT.to_radians().cos()),
    )
}

fn report(mmsi: u32, (lat, lon): (f64, f64), sog: f64, cog: f64) -> Report {
    Report::Position(Position {
        mmsi,
        class: Class::A,
        status: Some(0),
        lat: (lat * 600_000.0).round() as i32,
        lon: (lon * 600_000.0).round() as i32,
        sog_tenths: Some((sog * 10.0) as u16),
        cog_tenths: Some((cog * 10.0) as u16),
        heading_deg: None,
    })
}

fn named(mmsi: u32, name: &str) -> Report {
    Report::Particulars(Particulars {
        mmsi,
        name: Some(name.into()),
        ..Particulars::default()
    })
}

fn still() -> Option<Boat> {
    Some(Boat {
        lat: LAT,
        lon: LON,
        sog_kn: Some(0.0),
        cog_deg: None,
    })
}

#[test]
fn a_vessel_heading_straight_for_us_is_a_danger() {
    let mut traffic = Traffic::default();
    traffic.update(report(1, at(1.0, 0.0), 6.0, 180.0), T);
    let [target] = &targets(&traffic, T, still())[..] else {
        panic!()
    };
    assert_eq!(number(target.range_nm), Some(1.0));
    assert_eq!(number(target.bearing_deg), Some(0.0));
    assert_eq!(
        (number(target.cpa_nm), number(target.tcpa_minutes)),
        (Some(0.0), Some(10.0))
    );
    assert!(target.danger);
    assert_eq!(target.status, Some("under way using engine"));
}

#[test]
fn a_vessel_passing_close_abeam_is_a_danger_and_one_far_off_is_not() {
    let mut traffic = Traffic::default();
    traffic.update(report(1, at(1.0, 0.3), 6.0, 180.0), T);
    traffic.update(report(2, at(1.0, 0.8), 6.0, 180.0), T);
    let targets = targets(&traffic, T, still());
    assert_eq!(
        (number(targets[0].cpa_nm), number(targets[0].tcpa_minutes)),
        (Some(0.3), Some(10.0))
    );
    assert!(targets[0].danger);
    assert_eq!(number(targets[1].cpa_nm), Some(0.8));
    assert!(!targets[1].danger);
}

#[test]
fn a_vessel_heading_away_is_closest_now() {
    let mut traffic = Traffic::default();
    traffic.update(report(1, at(1.0, 0.0), 6.0, 0.0), T);
    let target = &targets(&traffic, T, still())[0];
    assert_eq!(
        (number(target.cpa_nm), number(target.tcpa_minutes)),
        (Some(1.0), Some(0.0))
    );
    assert!(!target.danger);
}

#[test]
fn a_danger_too_far_ahead_in_time_is_not_one_yet() {
    let mut traffic = Traffic::default();
    // Dead ahead, but 3 miles away at 6 knots: 30 minutes out.
    traffic.update(report(1, at(3.0, 0.0), 6.0, 180.0), T);
    let target = &targets(&traffic, T, still())[0];
    assert_eq!(number(target.tcpa_minutes), Some(30.0));
    assert!(!target.danger);
}

#[test]
fn an_old_report_is_carried_forward() {
    let mut traffic = Traffic::default();
    traffic.update(report(1, at(1.0, 0.0), 10.0, 180.0), T);
    // Six minutes at 10 knots is the whole mile.
    let target = &targets(&traffic, T + 360 * SECOND, still())[0];
    assert_eq!(number(target.range_nm), Some(0.0));
    assert_eq!(target.age_seconds, Some(360));
    assert_eq!(
        target.lat.map(|v| round(f64::from(v) / 600_000.0, 7)),
        Some(round(at(1.0, 0.0).0, 7)),
        "reported, not moved"
    );
}

#[test]
fn without_a_fix_there_is_no_range_and_without_our_speed_no_cpa() {
    let mut traffic = Traffic::default();
    traffic.update(report(1, at(1.0, 0.0), 6.0, 180.0), T);
    let target = &targets(&traffic, T, None)[0];
    assert_eq!((target.range_nm, target.cpa_nm), (None, None));
    assert!(target.lat.is_some());
    let moving_unknown = Some(Boat {
        sog_kn: Some(5.0),
        cog_deg: None,
        ..still().unwrap()
    });
    let target = &targets(&traffic, T, moving_unknown)[0];
    assert_eq!(
        (number(target.range_nm), number(target.cpa_nm)),
        (Some(1.0), None)
    );
    assert!(!target.danger);
}

#[test]
fn particulars_fill_in_across_messages() {
    let mut traffic = Traffic::default();
    traffic.update(
        Report::Particulars(Particulars {
            mmsi: 7,
            name: Some("SEA LARK".into()),
            ..Particulars::default()
        }),
        T,
    );
    traffic.update(
        Report::Particulars(Particulars {
            mmsi: 7,
            callsign: Some("WDY9103".into()),
            ship_type: Some(36),
            ..Particulars::default()
        }),
        T,
    );
    let target = &targets(&traffic, T, still())[0];
    assert_eq!(target.name.as_deref(), Some("SEA LARK"));
    assert_eq!(target.callsign.as_deref(), Some("WDY9103"));
    assert_eq!(target.kind, Some("sailing"));
    assert_eq!(target.range_nm, None, "no position yet");
}

#[test]
fn nearest_first_and_the_unranged_last() {
    let mut traffic = Traffic::default();
    traffic.update(report(3, at(3.0, 0.0), 0.0, 0.0), T);
    traffic.update(
        Report::Particulars(Particulars {
            mmsi: 1,
            ..Particulars::default()
        }),
        T,
    );
    traffic.update(report(2, at(0.0, -2.0), 0.0, 0.0), T);
    let order: Vec<u32> = targets(&traffic, T, still()).iter().map(|t| t.mmsi).collect();
    assert_eq!(order, [2, 3, 1]);
}

#[test]
fn a_position_ten_minutes_old_is_dropped_though_its_name_still_comes() {
    let mut traffic = Traffic::default();
    traffic.update(report(1, at(1.0, 0.0), 10.0, 180.0), T);
    traffic.update(named(1, "QUIET ONE"), T + 540 * SECOND);
    let now = T + LOST_AFTER + 60 * SECOND;
    traffic.update(named(1, "QUIET ONE"), now);
    let target = &targets(&traffic, now, still())[0];
    assert_eq!(target.name.as_deref(), Some("QUIET ONE"));
    assert_eq!(
        (target.lat, target.range_nm, target.cpa_nm),
        (None, None, None)
    );
    assert!(!target.danger, "not carried forward for eleven minutes");
    traffic.expire(now);
    assert_eq!(targets(&traffic, now, still())[0].lat, None);
}

#[test]
fn a_full_table_makes_room_for_a_vessel_with_a_position() {
    let mut traffic = Traffic::default();
    for mmsi in 1..=MAX_VESSELS as u32 {
        traffic.update(
            Report::Particulars(Particulars {
                mmsi,
                ..Particulars::default()
            }),
            T,
        );
    }
    traffic.update(report(5000, at(1.0, 0.0), 6.0, 180.0), T);
    let targets = targets(&traffic, T, still());
    assert_eq!(targets.len(), MAX_VESSELS);
    assert_eq!(targets[0].mmsi, 5000, "the newcomer, nearest and first");
    assert!(targets[0].danger);
}

#[test]
fn a_full_table_keeps_its_vessels_with_positions_against_a_name() {
    let mut traffic = Traffic::default();
    for mmsi in 1..=MAX_VESSELS as u32 {
        traffic.update(report(mmsi, at(1.0, 0.0), 6.0, 180.0), T);
    }
    traffic.update(named(5000, "NEWCOMER"), T + SECOND);
    let targets = targets(&traffic, T, still());
    assert_eq!(targets.len(), MAX_VESSELS);
    assert!(targets.iter().all(|t| t.mmsi != 5000));
    assert!(
        targets.iter().all(|t| t.danger),
        "no danger displaced by a name"
    );
}

#[test]
fn a_full_table_lets_go_of_the_one_heard_longest_ago() {
    let mut traffic = Traffic::default();
    for mmsi in 1..=MAX_VESSELS as u32 {
        let heard = if mmsi == 500 { T } else { T + SECOND };
        traffic.update(report(mmsi, at(1.0, 0.0), 6.0, 180.0), heard);
    }
    traffic.update(report(5000, at(2.0, 0.0), 6.0, 180.0), T + 2 * SECOND);
    let left: Vec<u32> = targets(&traffic, T, None).iter().map(|t| t.mmsi).collect();
    assert_eq!(left.len(), MAX_VESSELS);
    assert!(!left.contains(&500));
    assert!(left.contains(&5000));
    // A vessel that is known already displaces nobody.
    traffic.update(named(5000, "NEWCOMER"), T + 3 * SECOND);
    let after = targets(&traffic, T + 3 * SECOND, None);
    assert_eq!(after.len(), MAX_VESSELS);
    assert!(after.iter().any(|t| t.name.as_deref() == Some("NEWCOMER")));
}

#[test]
fn a_full_table_first_drops_whoever_is_gone() {
    let mut traffic = Traffic::default();
    for mmsi in 1..=MAX_VESSELS as u32 {
        traffic.update(report(mmsi, at(1.0, 0.0), 6.0, 180.0), T);
    }
    traffic.update(named(5000, "NEWCOMER"), T + LOST_AFTER);
    let left = targets(&traffic, T + LOST_AFTER, None);
    assert_eq!(left.len(), 1);
    assert_eq!(left[0].name.as_deref(), Some("NEWCOMER"));
}

#[test]
fn vessels_not_heard_for_ten_minutes_are_gone() {
    let mut traffic = Traffic::default();
    traffic.update(report(1, at(1.0, 0.0), 0.0, 0.0), T);
    traffic.update(report(2, at(2.0, 0.0), 0.0, 0.0), T + 300 * SECOND);
    traffic.expire(T + LOST_AFTER);
    let left: Vec<u32> = targets(&traffic, T + LOST_AFTER, None)
        .iter()
        .map(|t| t.mmsi)
        .collect();
    assert_eq!(left, [2]);
}

#[test]
fn expiring_again_changes_nothing() {
    let mut traffic = Traffic::default();
    traffic.update(report(1, at(1.0, 0.0), 0.0, 0.0), T);
    traffic.update(report(2, at(2.0, 0.0), 0.0, 0.0), T + 300 * SECOND);
    let now = T + 500 * SECOND;
    let before = targets(&traffic, now, still());
    traffic.expire(now);
    let once = targets(&traffic, now, still());
    traffic.expire(now);
    assert_eq!(once, targets(&traffic, now, still()));
    assert_eq!(once, before);
}

#[test]
fn a_position_leaves_the_particulars_and_other_vessels_alone() {
    let mut traffic = Traffic::default();
    traffic.update(named(1, "SEA LARK"), T);
    traffic.update(named(2, "BAY RUNNER"), T);
    traffic.update(report(1, at(1.0, 0.0), 0.0, 0.0), T);
    let list = targets(&traffic, T, None);
    assert_eq!(list.len(), 2);
    assert_eq!(list[0].name.as_deref(), Some("SEA LARK"));
    assert_eq!((list[0].class, list[1].class), (Some("A"), None));
    assert_eq!(list[1].lat, None);
    traffic.update(named(1, "SEA LARK II"), T);
    assert_eq!(
        targets(&traffic, T, None)[0].name.as_deref(),
        Some("SEA LARK II")
    );
}

#[test]
fn two_at_one_range_go_by_number() {
    let mut traffic = Traffic::default();
    for mmsi in [9, 4, 7, 1] {
        traffic.update(report(mmsi, at(1.0, 0.0), 0.0, 0.0), T);
    }
    for mmsi in [8, 2] {
        traffic.update(named(mmsi, "NOWHERE"), T);
    }
    let order: Vec<u32> = targets(&traffic, T, still()).iter().map(|t| t.mmsi).collect();
    assert_eq!(order, [1, 4, 7, 9, 2, 8]);
}

#[test]
fn sightings_are_the_vessels_with_a_live_position() {
    let mut traffic = Traffic::default();
    traffic.update(report(1, at(1.0, 0.0), 6.0, 180.0), T);
    traffic.update(named(2, "NOWHERE"), T);
    let [sighting] = &traffic.sightings(T + 7 * SECOND)[..] else {
        panic!()
    };
    assert_eq!((sighting.mmsi, sighting.age), (1, 7 * SECOND));
    assert_eq!(sighting.position.lat, 22_729_000);
    assert!(traffic.sightings(T + LOST_AFTER).is_empty());
}

#[test]
fn the_limits_are_the_doubles_they_say() {
    assert_eq!(f64::from_bits(DANGER_CPA_NM), 0.5);
    assert_eq!(f64::from_bits(DANGER_TCPA_MIN), 12.0);
    assert_eq!(f64::from_bits(STEERAGE_KN), 0.5);
    assert_eq!(f64::from_bits(CIRCLE_DEG), 360.0);
}

/// What becomes of a vessel at a mile, for a given bearing and approach.
fn judged(bearing: f64, cpa: f64, tcpa: f64) -> Target {
    let mut traffic = Traffic::default();
    traffic.update(report(1, at(1.0, 0.0), 6.0, 180.0), T);
    let plots = vec![Plot {
        mmsi: 1,
        range_nm: bits(1.0),
        bearing_deg: bits(bearing),
        closest: Some(Closest {
            cpa_nm: bits(cpa),
            tcpa_minutes: bits(tcpa),
            shown_cpa_nm: bits(round(cpa, 2)),
            shown_tcpa_minutes: bits(round(tcpa, 1)),
        }),
    }];
    traffic.targets(T, &plots).remove(0)
}

#[test]
fn danger_is_judged_before_rounding() {
    assert!(judged(0.0, 0.5, 12.0).danger);
    let close = judged(0.0, 0.504, 12.0);
    assert_eq!(number(close.cpa_nm), Some(0.5));
    assert!(!close.danger);
    let late = judged(0.0, 0.5, 12.04);
    assert_eq!(number(late.tcpa_minutes), Some(12.0));
    assert!(!late.danger);
    assert!(judged(0.0, 0.0, 0.0).danger);
    assert!(!judged(0.0, f64::NAN, 0.0).danger);
    assert!(!judged(0.0, f64::INFINITY, 0.0).danger);
}

#[test]
fn all_the_way_round_is_north() {
    assert_eq!(number(judged(360.0, 1.0, 1.0).bearing_deg), Some(0.0));
    assert_eq!(number(judged(359.9, 1.0, 1.0).bearing_deg), Some(359.9));
}

#[test]
fn a_vessel_barely_moving_is_stopped() {
    let kn = |x: f64| Some(bits(x));
    assert_eq!(motion(None, kn(90.0)), Motion::Unknown);
    assert_eq!(motion(kn(0.4), None), Motion::Stopped);
    assert_eq!(motion(kn(0.5), None), Motion::Unknown);
    assert_eq!(motion(kn(-1.0), None), Motion::Stopped);
    assert_eq!(motion(kn(f64::NAN), None), Motion::Unknown);
    assert_eq!(
        motion(kn(0.4), kn(90.0)),
        Motion::UnderWay {
            sog_kn: bits(0.4),
            cog_deg: bits(90.0)
        }
    );
}

#[test]
fn only_a_current_fix_ranges() {
    let place = |minutes: &str| {
        Some(Coordinate {
            negative: false,
            degrees: 37,
            minutes: minutes.into(),
        })
    };
    for status in [FixStatus::Nofix, FixStatus::Current, FixStatus::Stale] {
        let fix = FixState {
            lat: place("51.900"),
            lon: place("19.200"),
            sog_kn: Some(Number { text: "5.0".into() }),
            ..FixState::without_position(status)
        };
        let own = own(&fix);
        assert_eq!(own.is_some(), status == FixStatus::Current);
        if let Some(own) = own {
            assert_eq!(Some(own.lat), place("51.900"));
            assert_eq!(own.sog_kn.unwrap().text, "5.0");
            assert_eq!(own.cog_deg, None);
        }
    }
    assert_eq!(own(&FixState::without_position(FixStatus::Current)), None);
}

#[test]
fn codes_are_put_into_words() {
    for (code, words) in [
        (0, None),
        (19, None),
        (20, Some("wing in ground")),
        (29, Some("wing in ground")),
        (30, Some("fishing")),
        (31, Some("towing")),
        (32, Some("towing")),
        (33, Some("dredging")),
        (34, Some("diving")),
        (35, Some("military")),
        (36, Some("sailing")),
        (37, Some("pleasure craft")),
        (38, None),
        (40, Some("high speed craft")),
        (50, Some("pilot")),
        (51, Some("search and rescue")),
        (52, Some("tug")),
        (53, Some("port tender")),
        (54, None),
        (55, Some("law enforcement")),
        (56, None),
        (58, Some("medical transport")),
        (59, None),
        (60, Some("passenger")),
        (79, Some("cargo")),
        (80, Some("tanker")),
        (99, Some("other")),
        (100, None),
    ] {
        assert_eq!(kind(code), words, "{code}");
    }
    for (code, words) in [
        (0, Some("under way using engine")),
        (1, Some("at anchor")),
        (2, Some("not under command")),
        (3, Some("restricted maneuverability")),
        (4, Some("constrained by draught")),
        (5, Some("moored")),
        (6, Some("aground")),
        (7, Some("engaged in fishing")),
        (8, Some("under way sailing")),
        (9, None),
        (14, Some("AIS-SART active")),
        (15, None),
    ] {
        assert_eq!(status(code), words, "{code}");
    }
}

#[test]
fn doubles_compare_as_numbers() {
    let values = [
        f64::NEG_INFINITY,
        -1.5,
        -f64::MIN_POSITIVE,
        -0.0,
        0.0,
        5e-324,
        f64::MIN_POSITIVE,
        0.1,
        0.5,
        12.0,
        359.9,
        360.0,
        1e300,
        f64::INFINITY,
        f64::NAN,
    ];
    for x in values {
        for y in values {
            let (a, b) = (bits(x), bits(y));
            assert_eq!(a.precedes(b), x.total_cmp(&y).is_lt(), "{x} {y}");
            if y > 0.0 {
                assert_eq!(a.at_most(b), x <= y, "{x} {y}");
                assert_eq!(a.below(b), x < y, "{x} {y}");
                assert_eq!(a.at_least(b), x >= y, "{x} {y}");
            }
        }
    }
}
