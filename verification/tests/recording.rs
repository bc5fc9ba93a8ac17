//! Recordings, made and played back.

use omakeel::clock::SECOND;
use omakeel::recording::{idle, opening, replay, stamped, Handed, Journal, SYNC_AFTER};

/// Each line to play, and when.
fn played(recording: &str) -> Vec<(String, u64)> {
    replay(recording)
        .into_iter()
        .map(|cue| (cue.line, cue.offset_ms))
        .collect()
}

#[test]
fn replay_keeps_the_recorded_timing() {
    let heard = played("# omakeel recording v1\n1000 $A\n\n2000 $B\nnot a record\n3500 $C\n");
    let expected = [("$A", 0), ("$B", 1000), ("$C", 2500)].map(|(l, t)| (l.to_string(), t));
    assert_eq!(heard, expected);
}

#[test]
fn what_is_recorded_plays_back() {
    let lines = [
        (1_789_333_203_000, "$GPRMC,210003.00,A,3751.9000,N,12219.2000,W,5.0,255.0,130926,,,A*46"),
        (1_789_333_203_040, "a line  with spaces, é and # signs"),
        (1_789_333_203_040, "#"),
        (1_789_333_202_000, "the clock went back"),
    ];
    let mut recording = opening();
    for (ms, line) in lines {
        recording += &stamped(ms, line);
    }
    assert_eq!(
        recording.lines().nth(2),
        Some("1789333203040 a line  with spaces, é and # signs")
    );
    let expected: Vec<(String, u64)> = lines
        .iter()
        .zip([0, 40, 40, 0])
        .map(|((_, line), offset)| (line.to_string(), offset))
        .collect();
    assert_eq!(played(&recording), expected);
}

#[test]
fn a_recording_starts_with_its_version() {
    assert_eq!(opening(), "# omakeel recording v1\n");
    assert_eq!(stamped(0, "$A"), "0 $A\n");
    assert!(played(&opening()).is_empty());
    assert!(played("").is_empty());
}

#[test]
fn what_has_no_time_is_passed_over() {
    let recording = "x $A\n-1 $B\n99999999999999999999 $C\n  +7   $D  \r\n8\n9 \n#10 $E\n12 $F";
    let expected = [("$D", 0), ("$F", 5)].map(|(l, t)| (l.to_string(), t));
    assert_eq!(played(recording), expected);
}

#[test]
fn a_disk_that_falls_behind_is_told_of_once() {
    let mut journal = Journal::new("sail.nmea".into());
    assert_eq!(journal.note(Handed::Queued), None);
    assert_eq!(
        journal.note(Handed::Full).as_deref(),
        Some("omakeel: the disk has fallen behind; dropping lines for sail.nmea")
    );
    assert_eq!(journal.note(Handed::Full), None);
    assert_eq!(
        journal.note(Handed::Queued).as_deref(),
        Some("omakeel: recording to sail.nmea again; lines dropped: 2")
    );
    assert_eq!(journal.note(Handed::Queued), None);
    assert_eq!(
        journal.note(Handed::Stopped("disk full".into())).as_deref(),
        Some("omakeel: stopped recording to sail.nmea: disk full")
    );
}

#[test]
fn a_line_is_on_the_disk_within_ten_seconds() {
    let t = 100 * SECOND;
    assert_eq!(idle(None, t), None);
    assert_eq!(idle(Some(t), t), Some(SYNC_AFTER));
    assert_eq!(idle(Some(t), t + 2 * SECOND), Some(3 * SECOND));
    assert_eq!(idle(Some(t), t + SYNC_AFTER), Some(0));
    assert_eq!(idle(Some(t), t + 60 * SECOND), Some(0));
}
