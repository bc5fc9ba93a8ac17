//! Sources: how they are named, and how they are read.

use omakeel::protocol::SourceStatus;
use omakeel::source;
use omakeel::source::{
    ended, failed, speed, spoken, Action, Event, Outcome, Reader, Spec, Speed,
};

#[test]
fn parses_and_names_each_kind_of_source() {
    for (spec, name) in [
        ("serial:/dev/ttyUSB0", "serial:/dev/ttyUSB0:4800"),
        ("serial:/dev/ttyACM0:38400", "serial:/dev/ttyACM0:38400"),
        ("tcp:192.168.1.20:10110", "tcp:192.168.1.20:10110"),
        ("replay:sails/first.nmea", "replay:sails/first.nmea"),
    ] {
        assert_eq!(spec.parse::<Spec>().unwrap().to_string(), name);
    }
}

#[test]
fn refuses_what_it_cannot_open() {
    for spec in [
        "",
        "gps",
        "serial:",
        "serial:/dev/ttyUSB0:1200",
        "tcp:nohost",
        "usb:/dev/x",
    ] {
        assert!(spec.parse::<Spec>().is_err(), "{spec}");
    }
}

#[test]
fn says_what_a_source_can_be() {
    let error = |spec: &str| spec.parse::<Spec>().unwrap_err();
    assert_eq!(
        error("gps"),
        "'gps' is not a source; use serial:PATH[:BAUD], tcp:HOST:PORT or replay:FILE"
    );
    assert_eq!(
        error("serial:/dev/ttyUSB0:99999999999"),
        "'serial:/dev/ttyUSB0:99999999999' is not a source; use serial:PATH[:BAUD], tcp:HOST:PORT or replay:FILE"
    );
    assert_eq!(
        error("serial:/dev/ttyUSB0:1200"),
        "1200 baud isn't supported; use 4800, 9600, 19200, 38400, 57600 or 115200"
    );
}

#[test]
fn a_path_may_hold_colons() {
    let serial = |path: &str, baud: u32| Spec::Serial {
        path: path.into(),
        baud,
    };
    for (spec, source) in [
        ("serial:/dev/by-path/usb-0:1", None),
        ("serial:/dev/usb-0:1:port", Some(serial("/dev/usb-0:1:port", 4800))),
        ("serial:/dev/usb-0:1:9600", Some(serial("/dev/usb-0:1", 9600))),
        ("serial::4800", Some(serial(":4800", 4800))),
        ("serial:/dev/x:", Some(serial("/dev/x:", 4800))),
        ("serial:/dev/x:+4800", Some(serial("/dev/x:+4800", 4800))),
    ] {
        assert_eq!(spec.parse::<Spec>().ok(), source, "{spec}");
    }
}

#[test]
fn a_name_names_its_source_again() {
    for name in ["serial:a:b:115200", "tcp:[::1]:10110", "replay:x:y z"] {
        let spec = name.parse::<Spec>().unwrap();
        assert_eq!(spec.to_string(), name);
        assert_eq!(spec.clone(), spec);
        assert_eq!(spec.to_string().parse::<Spec>(), Ok(spec));
    }
}

#[test]
fn six_rates_are_supported() {
    for (baud, rate) in [
        (4800, Some(Speed::B4800)),
        (9600, Some(Speed::B9600)),
        (19200, Some(Speed::B19200)),
        (38400, Some(Speed::B38400)),
        (57600, Some(Speed::B57600)),
        (115200, Some(Speed::B115200)),
        (0, None),
        (1200, None),
    ] {
        assert_eq!(speed(baud), rate);
    }
}

fn heard(source: usize, line: &str) -> Option<Event> {
    Some(Event::Line {
        source,
        line: line.into(),
    })
}

#[test]
fn lines_are_trimmed_and_blanks_skipped() {
    assert_eq!(source::line(3, b"  $GPRMC,\r\n"), heard(3, "$GPRMC,"));
    assert_eq!(source::line(3, b" \r\n"), None);
    assert_eq!(source::line(3, b""), None);
    assert_eq!(spoken(1, "\u{3000}é \t"), heard(1, "é"));
    assert_eq!(spoken(1, " \n"), None);
}

#[test]
fn invalid_utf8_is_replaced() {
    assert_eq!(source::line(0, b"a\xff\xfeb\n"), heard(0, "a\u{fffd}\u{fffd}b"));
    assert_eq!(source::line(0, b"\xe2\x82 "), heard(0, "\u{fffd}"));
    assert_eq!(source::line(0, "é€\n".as_bytes()), heard(0, "é€"));
}

#[test]
fn a_failure_says_what_and_why() {
    assert_eq!(
        failed(2, "/dev/ttyUSB0", "device closed"),
        Event::Status {
            source: 2,
            status: SourceStatus::Error,
            message: Some("/dev/ttyUSB0: device closed".into())
        }
    );
    assert_eq!(
        ended(1),
        Event::Status {
            source: 1,
            status: SourceStatus::Ended,
            message: None
        }
    );
}

#[test]
fn a_dropped_device_is_reported_and_opened_again() {
    let mut reader = Reader::serial(4, "/dev/ttyUSB0");
    let told = |action: Action| match action {
        Action::Deliver(event) => event,
        _ => panic!("expected an event"),
    };
    assert!(matches!(reader.next(Outcome::Opened), Action::Read));
    let event = told(reader.next(Outcome::Read(b"$A\r\n".to_vec())));
    assert_eq!(Some(event), heard(4, "$A"));
    assert!(matches!(reader.next(Outcome::Delivered), Action::Read));
    assert!(matches!(
        reader.next(Outcome::Read(b"\r\n".to_vec())),
        Action::Read
    ));
    let event = told(reader.next(Outcome::Read(Vec::new())));
    assert_eq!(event, failed(4, "/dev/ttyUSB0", "device closed"));
    assert!(matches!(reader.next(Outcome::Delivered), Action::Wait));
    assert!(matches!(reader.next(Outcome::Waited), Action::Open));
    let event = told(reader.next(Outcome::Failed("no such device".into())));
    assert_eq!(event, failed(4, "/dev/ttyUSB0", "no such device"));
    assert!(matches!(reader.next(Outcome::HubGone), Action::Stop));
}

#[test]
fn a_stream_that_ends_says_so() {
    let mut reader = Reader::tcp(0, "10.0.2.2:10110");
    let Action::Deliver(event) = reader.next(Outcome::Read(Vec::new())) else {
        panic!("expected an event");
    };
    assert_eq!(event, failed(0, "10.0.2.2:10110", "connection closed"));
}
