//! The boat's fix, and how fresh it is.

use omakeel::clock::SECOND;
use omakeel::fix::{Navigation, STALE_AFTER};
use omakeel::nmea::{Coordinate, Kind, Position};
use omakeel::number::Number;
use omakeel::protocol::{FixState, FixStatus};

const T: u64 = 1_000_000_000_000;

fn number(text: &str) -> Option<Number> {
    Some(Number { text: text.into() })
}

/// 37.865.
fn lat() -> Coordinate {
    Coordinate {
        negative: false,
        degrees: 37,
        minutes: "51.900".into(),
    }
}

/// -122.32.
fn lon() -> Coordinate {
    Coordinate {
        negative: true,
        degrees: 122,
        minutes: "19.200".into(),
    }
}

/// A coordinate in decimal degrees, to seven places.
fn degrees(c: &Option<Coordinate>) -> Option<f64> {
    c.as_ref().map(|c| {
        let value = f64::from(c.degrees) + c.minutes.parse::<f64>().unwrap() / 60.0;
        let value = if c.negative { -value } else { value };
        (value * 1e7).round() / 1e7
    })
}

fn knots(n: &Option<Number>) -> Option<f64> {
    n.as_ref().map(|n| n.text.parse().unwrap())
}

fn rmc(valid: bool, sog_kn: Option<Number>) -> Position {
    Position {
        kind: Kind::Rmc,
        valid,
        lat: valid.then(lat),
        lon: valid.then(lon),
        cog_deg: sog_kn.as_ref().and_then(|_| number("255.0")),
        sog_kn,
        utc: Some("2026-09-13T21:00:00Z".into()),
        satellites: None,
        hdop: None,
    }
}

fn gga() -> Position {
    Position {
        kind: Kind::Gga,
        valid: true,
        lat: Some(lat()),
        lon: Some(lon()),
        sog_kn: None,
        cog_deg: None,
        utc: None,
        satellites: Some(9),
        hdop: number("0.9"),
    }
}

#[test]
fn nothing_heard_is_none() {
    let state = Navigation::default().state(T);
    assert_eq!(state, FixState::without_position(FixStatus::Unheard));
    assert_eq!(state.status.name(), "none");
}

#[test]
fn a_fresh_fix_is_ok_then_stale() {
    let mut nav = Navigation::default();
    nav.update(rmc(true, number("5.0")), T);
    let state = nav.state(T + 4 * SECOND);
    assert_eq!(state.status, FixStatus::Current);
    assert_eq!(state.status.name(), "ok");
    assert_eq!(
        (degrees(&state.lat), degrees(&state.lon)),
        (Some(37.865), Some(-122.32))
    );
    assert_eq!(state.age_seconds, Some(4));
    let state = nav.state(T + STALE_AFTER);
    assert_eq!(state.status, FixStatus::Stale);
    assert_eq!(
        degrees(&state.lat),
        Some(37.865),
        "a stale fix still shows where it was"
    );
}

#[test]
fn acquiring_is_nofix_until_the_receiver_goes_quiet() {
    let mut nav = Navigation::default();
    nav.update(rmc(false, None), T);
    assert_eq!(nav.state(T).status, FixStatus::Nofix);
    assert_eq!(nav.state(T + STALE_AFTER).status, FixStatus::Unheard);
}

#[test]
fn losing_the_fix_keeps_the_last_position_marked_nofix() {
    let mut nav = Navigation::default();
    nav.update(rmc(true, number("5.0")), T);
    nav.update(rmc(false, None), T + SECOND);
    let state = nav.state(T + 2 * SECOND);
    assert_eq!(state.status, FixStatus::Nofix);
    assert_eq!(degrees(&state.lat), Some(37.865));
    assert_eq!(state.age_seconds, Some(2));
    nav.update(rmc(true, number("5.0")), T + 3 * SECOND);
    assert_eq!(nav.state(T + 3 * SECOND).status, FixStatus::Current);
}

#[test]
fn a_lost_fix_is_stale_once_the_receiver_falls_silent() {
    let mut nav = Navigation::default();
    nav.update(rmc(true, number("5.0")), T);
    nav.update(rmc(false, None), T + 20 * SECOND);
    assert_eq!(nav.state(T + 24 * SECOND).status, FixStatus::Nofix);
    let state = nav.state(T + 25 * SECOND);
    assert_eq!(state.status, FixStatus::Stale, "no longer talking");
    assert_eq!(state.age_seconds, Some(25));
}

#[test]
fn rmc_and_gga_fill_in_their_own_fields() {
    let mut nav = Navigation::default();
    nav.update(rmc(true, number("5.0")), T);
    nav.update(gga(), T);
    let state = nav.state(T);
    assert_eq!(
        (knots(&state.sog_kn), state.satellites),
        (Some(5.0), Some(9))
    );
    // An RMC that stops sending speed clears it rather than keeping 5.0.
    nav.update(rmc(true, None), T);
    let state = nav.state(T);
    assert_eq!((knots(&state.sog_kn), state.satellites), (None, Some(9)));
}

#[test]
fn an_old_speed_goes_missing_while_positions_still_come() {
    let mut nav = Navigation::default();
    nav.update(rmc(true, number("5.0")), T);
    nav.update(gga(), T + STALE_AFTER - 1);
    let state = nav.state(T + STALE_AFTER);
    assert_eq!(knots(&state.sog_kn), Some(5.0));
    assert_eq!(state.utc.as_deref(), Some("2026-09-13T21:00:00Z"));
    nav.update(gga(), T + STALE_AFTER);
    let state = nav.state(T + STALE_AFTER);
    assert_eq!(state.status, FixStatus::Current);
    assert_eq!((state.sog_kn, state.cog_deg, state.utc), (None, None, None));
    assert_eq!(state.satellites, Some(9));
    nav.update(rmc(true, number("4.0")), T + 2 * STALE_AFTER);
    let state = nav.state(T + 2 * STALE_AFTER);
    assert_eq!(knots(&state.sog_kn), Some(4.0));
    assert_eq!((state.satellites, state.hdop), (None, None), "GGA has stopped");
}

#[test]
fn a_stale_fix_keeps_the_speed_it_came_with() {
    let mut nav = Navigation::default();
    nav.update(rmc(true, number("5.0")), T);
    let state = nav.state(T + 60 * SECOND);
    assert_eq!(state.status, FixStatus::Stale);
    assert_eq!(knots(&state.sog_kn), Some(5.0));
    assert_eq!(state.age_seconds, Some(60));
}

#[test]
fn the_most_recent_fix_is_the_one_shown() {
    let mut nav = Navigation::default();
    nav.update(rmc(true, number("5.0")), T);
    let mut other = gga();
    other.lat = Some(Coordinate {
        negative: true,
        degrees: 33,
        minutes: "52.000".into(),
    });
    nav.update(other, T + SECOND);
    let state = nav.state(T + SECOND);
    assert!(degrees(&state.lat).unwrap() < 0.0);
    assert_eq!(state.age_seconds, Some(0));
}

#[test]
fn a_valid_sentence_without_a_place_changes_no_fix() {
    let mut nav = Navigation::default();
    nav.update(rmc(true, number("5.0")), T);
    let mut empty = rmc(true, None);
    empty.lat = None;
    nav.update(empty, T + SECOND);
    let state = nav.state(T + 2 * SECOND);
    assert_eq!(state.age_seconds, Some(2));
    assert_eq!(knots(&state.sog_kn), Some(5.0));
}

#[test]
fn a_clock_that_goes_back_makes_nothing_older() {
    let mut nav = Navigation::default();
    nav.update(rmc(true, number("5.0")), T);
    let state = nav.state(T - SECOND);
    assert_eq!((state.status, state.age_seconds), (FixStatus::Current, Some(0)));
}
