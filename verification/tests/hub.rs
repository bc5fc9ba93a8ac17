//! The hub: sentences in, one state out.

use omakeel::clock::SECOND;
use omakeel::fix::STALE_AFTER;
use omakeel::hub::{
    claim, default_socket, framed, hello, lock_path, path_bytes, state, vessels, Apps, Claim, Config, Delivery,
    Found, Hub, Refusal, Sent,
};
use omakeel::protocol::{FixState, FixStatus, Message, SourceState, SourceStatus, VERSION};
use omakeel::source::{ended, failed, Event, Spec};
use omakeel::targets::LOST_AFTER;

const T: u64 = 1_000_000_000_000;

const RMC: &str = "$GPRMC,210003.00,A,3751.9000,N,12219.2000,W,5.0,255.0,130926,,,A*46";
const GGA: &str = "$GPGGA,210003.00,3751.9000,N,12219.2000,W,1,09,0.9,2.1,M,-32.2,M,,*51";

/// A sentence with its checksum computed.
fn sentence(start: char, data: &str) -> String {
    let sum = data.bytes().fold(0, |acc, b| acc ^ b);
    format!("{start}{data}*{sum:02X}")
}

/// Packs (value, bits) fields into a payload and its fill bits.
fn payload(fields: &[(u64, usize)]) -> (String, usize) {
    let mut bits: Vec<bool> = fields
        .iter()
        .flat_map(|&(v, n)| (0..n).rev().map(move |i| (v >> i) & 1 == 1))
        .collect();
    let fill = (6 - bits.len() % 6) % 6;
    bits.extend(std::iter::repeat_n(false, fill));
    let chars = bits
        .chunks(6)
        .map(|c| {
            let v = c.iter().fold(0u8, |acc, &b| acc << 1 | u8::from(b));
            char::from(if v < 40 { v + 48 } else { v + 56 })
        })
        .collect();
    (chars, fill)
}

fn six_bit(s: &str, chars: usize) -> Vec<(u64, usize)> {
    s.bytes()
        .map(|b| (u64::from(if b >= 64 { b - 64 } else { b }), 6))
        .chain(std::iter::repeat((0, 6)))
        .take(chars)
        .collect()
}

/// A ferry's particulars, in two sentences.
fn ferry() -> [String; 2] {
    let mut fields = vec![(5, 6), (0, 2), (366_999_101, 30), (0, 2), (0, 30)];
    fields.extend(six_bit("WDA1234", 7));
    fields.extend(six_bit("BAY RUNNER", 20));
    fields.extend([(60, 8), (25, 9), (15, 9), (5, 6), (5, 6), (0, 4), (0, 20), (0, 8)]);
    fields.extend(six_bit("SAN FRANCISCO", 20));
    fields.extend([(0, 1), (0, 1)]);
    let (message, fill) = payload(&fields);
    let (front, back) = message.split_at(50);
    [
        sentence('!', &format!("AIVDM,2,1,3,A,{front},0")),
        sentence('!', &format!("AIVDM,2,2,3,A,{back},{fill}")),
    ]
}

/// A sailboat's position.
fn sailboat() -> String {
    let (message, fill) = payload(&[
        (18, 6),
        (0, 2),
        (338_999_103, 30),
        (0, 8),
        (40, 10),
        (0, 1),
        ((1 << 28) - 73_392_000, 28),
        (22_719_000, 27),
        (900, 12),
        (511, 9),
        (0, 35),
    ]);
    sentence('!', &format!("AIVDM,1,1,,B,{message},{fill}"))
}

fn gps_and_ais() -> Hub {
    Hub::new(&vec![
        "serial:/dev/ttyUSB0".parse::<Spec>().unwrap(),
        "serial:/dev/ttyACM0:38400".parse::<Spec>().unwrap(),
    ])
}

fn line(source: usize, line: &str) -> Event {
    Event::Line {
        source,
        line: line.into(),
    }
}

#[test]
fn a_hub_starts_out_knowing_its_sources() {
    let hub = gps_and_ais();
    let states = hub.states();
    assert_eq!(states[0], SourceState::new("serial:/dev/ttyUSB0:4800".into()));
    assert_eq!(states[1].name, "serial:/dev/ttyACM0:38400");
    assert_eq!(states[1].status, SourceStatus::Connecting);
    assert_eq!(states[1].status.name(), "connecting");
    assert_eq!(hub.fix(T), FixState::without_position(FixStatus::Unheard));
    assert!(hub.traffic().targets(T, &Vec::new()).is_empty());
}

#[test]
fn sentences_become_a_fix_and_traffic() {
    let mut hub = gps_and_ais();
    let [ferry_1, ferry_2] = ferry();
    hub.take(line(0, RMC), T);
    hub.take(line(1, &ferry_1), T);
    hub.take(line(0, GGA), T);
    hub.take(line(1, &sailboat()), T);
    hub.take(line(1, &ferry_2), T);
    let fix = hub.fix(T);
    assert_eq!(fix.status, FixStatus::Current);
    assert_eq!(fix.sog_kn.unwrap().text, "5.0");
    assert_eq!(fix.satellites, Some(9));
    let targets = hub.traffic().targets(T, &Vec::new());
    assert_eq!(targets.len(), 2);
    assert_eq!(targets[0].mmsi, 338_999_103);
    assert_eq!((targets[0].class, targets[0].sog_tenths), (Some("B"), Some(40)));
    let ferry = &targets[1];
    assert_eq!(ferry.name.as_deref(), Some("BAY RUNNER"));
    assert_eq!((ferry.kind, ferry.class), (Some("passenger"), None));
    assert_eq!(ferry.length_m, Some(40));
    let states = hub.states();
    assert_eq!((states[0].sentences, states[1].sentences), (2, 3));
    assert!(states.iter().all(|s| s.rejected == 0));
}

#[test]
fn parts_of_a_message_from_two_sources_never_mix() {
    let mut hub = gps_and_ais();
    let [ferry_1, ferry_2] = ferry();
    hub.take(line(0, &ferry_1), T);
    hub.take(line(1, &ferry_2), T);
    assert!(hub.traffic().targets(T, &Vec::new()).is_empty());
}

#[test]
fn every_line_counts_for_its_own_source() {
    let mut hub = gps_and_ais();
    let corrupted = RMC.replace("*46", "*47");
    hub.take(line(0, &corrupted), T);
    hub.take(line(0, "garbage"), T);
    hub.take(line(0, RMC), T + 1);
    let states = hub.states();
    assert_eq!((states[0].sentences, states[0].rejected), (1, 2));
    assert_eq!(states[0].status, SourceStatus::Receiving);
    assert_eq!(states[0].status.name(), "ok");
    assert_eq!(states[1], SourceState::new("serial:/dev/ttyACM0:38400".into()));
}

#[test]
fn counts_are_those_of_all_lines_received() {
    let mut hub = gps_and_ais();
    for round in 0..10 {
        let now = T + round * SECOND;
        hub.take(line(0, RMC), now);
        hub.judge(now);
        if round % 3 == 0 {
            hub.take(line(0, "$GPRMC*00"), now);
            hub.take(failed(0, "/dev/ttyUSB0", "gone"), now);
        }
        hub.take(line(1, &sailboat()), now + STALE_AFTER);
        hub.judge(now + 2 * STALE_AFTER);
    }
    let states = hub.states();
    assert_eq!((states[0].sentences, states[0].rejected), (10, 4));
    assert_eq!((states[1].sentences, states[1].rejected), (10, 0));
}

#[test]
fn a_rejected_line_gives_no_fix() {
    let mut hub = gps_and_ais();
    hub.take(line(0, &RMC.replace("*46", "*47")), T);
    assert_eq!(hub.fix(T).status, FixStatus::Unheard);
}

#[test]
fn a_silent_source_is_quiet_until_it_speaks() {
    let mut hub = gps_and_ais();
    hub.take(line(0, RMC), T);
    hub.judge(T + STALE_AFTER - 1);
    assert_eq!(hub.states()[0].status, SourceStatus::Receiving);
    hub.judge(T + STALE_AFTER);
    assert_eq!(hub.states()[0].status, SourceStatus::Quiet);
    assert_eq!(hub.states()[0].status.name(), "quiet");
    assert_eq!(hub.states()[1].status, SourceStatus::Connecting);
    hub.judge(T + STALE_AFTER);
    assert_eq!(hub.states()[0].status, SourceStatus::Quiet);
    hub.take(line(0, RMC), T + 60 * SECOND);
    assert_eq!(hub.states()[0].status, SourceStatus::Receiving);
}

#[test]
fn a_failing_source_says_why_until_it_speaks() {
    let mut hub = gps_and_ais();
    hub.take(failed(0, "/dev/ttyUSB0", "no such device"), T);
    let state = &hub.states()[0];
    assert_eq!(state.status.name(), "error");
    assert_eq!(state.message.as_deref(), Some("/dev/ttyUSB0: no such device"));
    hub.take(line(0, RMC), T);
    let state = &hub.states()[0];
    assert_eq!((state.status, state.message.as_deref()), (SourceStatus::Receiving, None));
}

#[test]
fn a_replay_that_ended_leaves_the_fix_to_go_stale() {
    let mut hub = Hub::new(&vec![Spec::Replay {
        path: "sail.nmea".into(),
    }]);
    hub.take(line(0, RMC), T);
    hub.take(ended(0), T);
    hub.judge(T + STALE_AFTER);
    assert_eq!(hub.states()[0].status, SourceStatus::Ended, "not quiet");
    assert_eq!(hub.states()[0].status.name(), "ended");
    let fix = hub.fix(T + STALE_AFTER);
    assert_eq!(fix.status, FixStatus::Stale);
    assert!(fix.lat.is_some(), "a stale fix still shows where it was");
    assert_eq!(fix.age_seconds, Some(5));
}

#[test]
fn judging_drops_vessels_that_are_gone() {
    let mut hub = gps_and_ais();
    hub.take(line(1, &sailboat()), T);
    hub.judge(T + LOST_AFTER - 1);
    assert_eq!(hub.traffic().targets(T, &Vec::new()).len(), 1);
    hub.judge(T + LOST_AFTER);
    assert!(hub.traffic().targets(T, &Vec::new()).is_empty());
}

#[test]
fn the_source_heard_last_gives_the_fix() {
    let mut hub = gps_and_ais();
    hub.take(line(0, RMC), T);
    let other = sentence('$', "GPGGA,210003,3352.000,S,15112.000,E,1,07,1.1,,M,,M,,");
    hub.take(line(1, &other), T + SECOND);
    let fix = hub.fix(T + 2 * SECOND);
    assert_eq!(fix.lat.unwrap().degrees, 33);
    assert_eq!(fix.age_seconds, Some(1));
}

#[test]
fn an_event_from_nowhere_is_not_accepted() {
    let hub = gps_and_ais();
    assert!(hub.accepts(&line(1, RMC)));
    assert!(hub.accepts(&ended(0)));
    assert!(!hub.accepts(&line(2, RMC)));
    assert!(!hub.accepts(&ended(2)));
}

#[test]
fn messages_carry_the_version() {
    let fix = FixState::without_position(FixStatus::Unheard);
    assert!(matches!(hello("0.1.0"), Message::Hello { v: VERSION, keel: "0.1.0" }));
    let Message::State { v, fix: f, sources } = state(&fix, &[]) else {
        panic!("expected a state");
    };
    assert_eq!((v, f, sources.len()), (1, &fix, 0));
    assert!(matches!(vessels(&[]), Message::Targets { v: 1, targets: [] }));
    assert_eq!(framed("{\"v\":1}".into()), "{\"v\":1}\n");
}

fn sent(id: u64, messages: &[Sent]) -> Delivery {
    Delivery {
        id,
        messages: messages.to_vec(),
    }
}

#[test]
fn apps_are_sent_what_they_have_not_seen() {
    let mut apps = Apps::new("none".into());
    let mut serve = |joining: Option<u64>, state: &str, targets: &str, vessels: usize| {
        if let Some(id) = joining {
            apps.join(id);
        }
        apps.serve(state.into(), targets.into(), vessels)
    };
    assert!(serve(None, "s0", "none", 0).is_empty());
    assert_eq!(
        serve(Some(1), "s0", "none", 0),
        [sent(1, &[Sent::Hello, Sent::State])]
    );
    assert_eq!(serve(None, "s0", "none", 0), [sent(1, &[])]);
    assert_eq!(serve(None, "s0", "t1", 1), [sent(1, &[Sent::Targets])]);
    assert_eq!(
        serve(Some(2), "s1", "t1", 1),
        [
            sent(1, &[Sent::State]),
            sent(2, &[Sent::Hello, Sent::State, Sent::Targets])
        ]
    );
    assert_eq!(
        serve(None, "s1", "none", 0),
        [sent(1, &[Sent::Targets]), sent(2, &[Sent::Targets])]
    );
    assert_eq!(
        serve(None, "s0", "t2", 2),
        [
            sent(1, &[Sent::State, Sent::Targets]),
            sent(2, &[Sent::State, Sent::Targets])
        ]
    );
}

#[test]
fn an_app_is_greeted_first_and_once() {
    let mut apps = Apps::new("none".into());
    apps.join(1);
    apps.join(7);
    let mut all = Vec::new();
    for (round, state) in ["a", "a", "b", "c", "c", "a"].into_iter().enumerate() {
        if round == 2 {
            apps.leave(1);
        }
        if round == 3 {
            apps.join(8);
        }
        for delivery in apps.serve(state.into(), "none".into(), 0) {
            if delivery.id == 7 {
                all.extend(delivery.messages);
            }
        }
    }
    let (hello, state) = (Sent::Hello, Sent::State);
    assert_eq!(all, [hello, state, state, state, state]);
}

#[test]
fn an_app_that_left_is_sent_nothing_more() {
    let mut apps = Apps::new("none".into());
    for id in [1, 2, 3] {
        apps.join(id);
    }
    apps.leave(2);
    let greeted = [Sent::Hello, Sent::State];
    assert_eq!(
        apps.serve("s".into(), "none".into(), 0),
        [sent(1, &greeted), sent(3, &greeted)]
    );
    apps.leave(9);
    apps.leave(1);
    apps.leave(3);
    assert!(apps.serve("t".into(), "none".into(), 0).is_empty());
}

#[test]
fn the_socket_is_in_the_runtime_directory() {
    let path = |dir: &[u8]| default_socket(Some(dir));
    let is = |path: &[u8]| Ok(path.to_vec());
    assert_eq!(path(b"/run/user/1000"), is(b"/run/user/1000/omakeel/keel.sock"));
    assert_eq!(path(b"/run/"), is(b"/run/omakeel/keel.sock"));
    assert_eq!(path(b"/"), is(b"/omakeel/keel.sock"));
    assert_eq!(path(b"/r\xff"), is(b"/r\xff/omakeel/keel.sock"));
    let error = Err("XDG_RUNTIME_DIR must be set to an absolute path");
    assert_eq!(path(b""), error);
    assert_eq!(path(b"run/user"), error);
    assert_eq!(default_socket(None), error);
    assert_eq!(lock_path(b"/run/omakeel/keel.sock"), b"/run/omakeel/keel.sock.lock");
}

#[test]
fn a_hub_claims_only_a_free_socket() {
    assert_eq!(claim("/s", Found::Nothing), Ok(Claim::Bind));
    assert_eq!(claim("/s", Found::Leftover), Ok(Claim::Replace));
    let running = "omakeel is already running on /s".to_string();
    assert_eq!(claim("/s", Found::Live), Err(Refusal::InUse(running.clone())));
    assert_eq!(claim("/s", Found::Locked), Err(Refusal::InUse(running)));
    assert_eq!(
        claim("/s", Found::Other),
        Err(Refusal::AlreadyExists("/s exists and isn't a socket".into()))
    );
}

#[test]
fn a_config_holds_what_was_asked_for() {
    let config = Config {
        sources: vec!["replay:a".parse().unwrap()],
        socket: path_bytes("/s"),
        record: None,
    };
    assert_eq!(Hub::new(&config.sources).states()[0].name, "replay:a");
    assert_eq!((config.socket.as_slice(), config.record), (&b"/s"[..], None));
}
