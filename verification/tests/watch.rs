//! The hub's messages as lines for a terminal.

use omakeel::double::Double;
use omakeel::watch::{
    describe, describe_targets, dm, figures, glance, glance_targets, hear, judge, nearest, Angle,
    Glance, Heard, Shown, ShownNearest,
};

fn number(x: Double) -> f64 {
    f64::from_bits(x.bits)
}

/// Whole degrees and thousandths of a minute.
fn angle(value: f64) -> Angle {
    let degrees = value.abs().trunc();
    Angle {
        negative: value < 0.0,
        degrees: format!("{degrees:.0}"),
        next_degrees: format!("{:.0}", degrees + 1.0),
        thousandths: ((value.abs() - degrees) * 60_000.0).round() as u32,
    }
}

/// A glance's numbers as they are printed.
fn shown(glance: &Glance) -> Shown {
    Shown {
        place: match (glance.lat, glance.lon) {
            (Some(lat), Some(lon)) => Some((angle(number(lat)), angle(number(lon)))),
            _ => None,
        },
        sog_kn: glance.sog_kn.map(|sog| format!("{:4.1}", number(sog))),
        cog_deg: glance.cog_deg.map(|cog| format!("{:03.0}", number(cog))),
    }
}

fn described(message: &str) -> String {
    let glance = glance(message);
    describe(&glance, &shown(&glance))
}

fn described_targets(message: &str) -> String {
    let vessels = glance_targets(message);
    let shown = match nearest(&vessels) {
        Some(i) => {
            let figures = figures(&vessels[i]);
            ShownNearest {
                range_nm: format!("{:.2}", number(figures.range_nm)),
                bearing_deg: format!("{:03.0}", number(figures.bearing_deg)),
                cpa_nm: format!("{:.2}", number(figures.cpa_nm)),
                tcpa_minutes: format!("{:.1}", number(figures.tcpa_minutes)),
            }
        }
        None => ShownNearest {
            range_nm: String::new(),
            bearing_deg: String::new(),
            cpa_nm: String::new(),
            tcpa_minutes: String::new(),
        },
    };
    describe_targets(&vessels, &shown)
}

#[test]
fn describes_a_fix_like_a_gps_would() {
    let state = r#"{
        "type": "state", "v": 1,
        "fix": {"status": "ok", "lat": 37.865, "lon": -122.32, "sogKn": 5.0, "cogDeg": 255.0, "ageSeconds": 0},
        "sources": [{"name": "serial:/dev/ttyUSB0:4800", "status": "ok", "sentences": 12, "rejected": 1}]
    }"#;
    assert_eq!(
        described(state),
        "ok      37°51.900′N  122°19.200′W   5.0 kn  255°T  0s ago  | serial:/dev/ttyUSB0:4800 ok (12 ok, 1 bad)"
    );
}

#[test]
fn describes_the_traffic_and_names_a_danger() {
    let message = r#"{"type": "targets", "v": 1, "targets": [
        {"mmsi": 366999101, "name": "BAY RUNNER", "rangeNm": 1.52, "bearingDeg": 311.2, "cpaNm": 0.19, "tcpaMinutes": 4.2, "danger": true},
        {"mmsi": 366999102, "rangeNm": 3.1, "bearingDeg": 190.0, "danger": false},
        {"mmsi": 338999103, "danger": false}
    ]}"#;
    assert_eq!(
        described_targets(message),
        "AIS    3 vessels  · nearest BAY RUNNER 1.52 nm 311°T, CPA 0.19 nm in 4.2 min  DANGER BAY RUNNER"
    );
    let quiet = r#"{"type": "targets", "v": 1, "targets": []}"#;
    assert_eq!(described_targets(quiet), "AIS    0 vessels");
}

#[test]
fn describes_no_fix_without_inventing_one() {
    let state = r#"{"fix": {"status": "none"}, "sources": []}"#;
    assert_eq!(described(state), "none  ");
}

#[test]
fn describes_what_is_missing_with_a_question_mark() {
    assert_eq!(described("{}"), "?     ");
    assert_eq!(described("17"), "?     ");
    assert_eq!(described(r#"{"fix": 5, "sources": 6}"#), "?     ");
    assert_eq!(
        described(r#"{"fix": {"status": "stale", "lat": 1.5, "sogKn": "5"}, "sources": [{}, {"name": "a", "status": "quiet", "sentences": 1.50, "rejected": null}]}"#),
        "stale   | ? ? (null ok, null bad)  | a quiet (1.5 ok, null bad)"
    );
}

#[test]
fn a_print_without_its_number_is_not_shown() {
    let glance = glance(r#"{"fix": {"status": "nofix", "lon": 2.0}}"#);
    let invented = Shown {
        place: Some((angle(1.0), angle(2.0))),
        sog_kn: Some(" 5.0".into()),
        cog_deg: Some("255".into()),
    };
    assert_eq!(describe(&glance, &invented), "nofix ");
}

#[test]
fn every_danger_is_told() {
    let one = r#"{"targets": [{"mmsi": 7, "danger": true, "rangeNm": 2}]}"#;
    assert_eq!(
        described_targets(one),
        "AIS    1 vessel  · nearest MMSI 7 2.00 nm 000°T  DANGER MMSI 7"
    );
    let more = r#"{"targets": [
        {"mmsi": 1, "danger": true}, {"name": "B", "danger": "true"}, {"name": "C", "danger": true},
        {"name": "D", "rangeNm": 1, "cpaNm": 1, "danger": false}, {"danger": true}
    ]}"#;
    assert_eq!(
        described_targets(more),
        "AIS    5 vessels  · nearest D 1.00 nm 000°T  DANGER MMSI 1, C, MMSI null"
    );
    assert_eq!(described_targets("[]"), "AIS    0 vessels");
}

#[test]
fn minutes_carry_over_into_degrees() {
    let text = |negative: bool, degrees: u32, thousandths: u32| {
        let angle = Angle {
            negative,
            degrees: degrees.to_string(),
            next_degrees: (degrees + 1).to_string(),
            thousandths,
        };
        dm(&angle, 'E', 'W', 3)
    };
    assert_eq!(text(false, 0, 0), "000°00.000′E");
    assert_eq!(text(true, 9, 5), "009°00.005′W");
    assert_eq!(text(false, 122, 59_999), "122°59.999′E");
    assert_eq!(text(true, 179, 60_000), "180°00.000′W");
    assert_eq!(dm(&angle(37.99999999), 'N', 'S', 2), "38°00.000′N");
    assert_eq!(dm(&angle(-0.0), 'N', 'S', 2), "00°00.000′N");
    assert_eq!(text(false, 1234, 1), "1234°00.001′E");
    assert_eq!(dm(&angle(1e20), 'N', 'S', 2), "100000000000000000000°00.000′N");
}

#[test]
fn no_key_is_taken_for_anything_but_itself() {
    let line = r#"{"v":1,"type":"state","fix":{"$serde_json::private::RawValue":"x"}}"#;
    assert!(matches!(hear(line), Heard::State));
    assert_eq!(described(line), "?     ");
}

#[test]
fn another_version_is_an_error() {
    let other = |line: &str| match hear(line) {
        Heard::OtherVersion(message) => message,
        _ => panic!("{line} is of another version"),
    };
    assert_eq!(
        other(r#"{"type":"state","v":2}"#),
        "the hub speaks protocol v2; this watch speaks v1"
    );
    assert_eq!(
        other(r#"{"type":"state","v":1.0}"#),
        "the hub speaks protocol v1.0; this watch speaks v1"
    );
    assert_eq!(
        other(r#"{"type":"hello"}"#),
        "the hub speaks protocol vnull; this watch speaks v1"
    );
    assert_eq!(
        other("[1]"),
        "the hub speaks protocol vnull; this watch speaks v1"
    );
    assert_eq!(
        other(r#"{"v":"1"}"#),
        "the hub speaks protocol v\"1\"; this watch speaks v1"
    );
}

#[test]
fn messages_are_told_apart() {
    let Heard::Hello(greeting) = hear(r#"{"type":"hello","v":1,"keel":"0.1.0"}"#) else {
        panic!("expected a greeting");
    };
    assert_eq!(greeting, "omakeel 0.1.0 · protocol v1");
    let Heard::Hello(greeting) = hear(r#"{"type":"hello","v":1}"#) else {
        panic!("expected a greeting");
    };
    assert_eq!(greeting, "omakeel ? · protocol v1");
    assert!(matches!(hear(r#"{"type":"state","v":1}"#), Heard::State));
    assert!(matches!(hear(r#"{"v":1,"type":"targets"}"#), Heard::Targets));
    assert!(matches!(hear(r#"{"v":1,"type":"anchor"}"#), Heard::Nothing));
    assert!(matches!(hear(r#"{"v":1,"type":7}"#), Heard::Nothing));
    assert!(matches!(hear(r#"{"v":1}"#), Heard::Nothing));
}

#[test]
fn what_is_not_json_is_unreadable() {
    for line in ["", "{", "hello", "{\"v\":1} x"] {
        let Heard::Unreadable(error) = hear(line) else {
            panic!("{line:?} isn't JSON");
        };
        let expected = serde_json::from_str::<serde_json::Value>(line).unwrap_err();
        assert_eq!(error, expected.to_string());
    }
}

#[test]
fn a_message_is_judged_by_what_it_says_of_itself() {
    let some = |s: &str| Some(s.to_string());
    assert!(matches!(
        judge(Some(1), "1", &some("state"), &None),
        Heard::State
    ));
    assert!(matches!(
        judge(None, "null", &some("state"), &None),
        Heard::OtherVersion(_)
    ));
    assert!(matches!(
        judge(Some(1), "1", &None, &some("0.1.0")),
        Heard::Nothing
    ));
    let Heard::Hello(greeting) = judge(Some(1), "1", &some("hello"), &some("9")) else {
        panic!("expected a greeting");
    };
    assert_eq!(greeting, "omakeel 9 · protocol v1");
}
