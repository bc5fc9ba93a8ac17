//! NMEA 0183 sentences and the positions in them.

use omakeel::nmea::{field_at, parse, position, Coordinate, Kind, Position, Reject};

const RMC: &str = "$GPRMC,123519,A,4807.038,N,01131.000,E,022.4,084.4,230394,003.1,W*6A";
const GGA: &str = "$GPGGA,123519,4807.038,N,01131.000,E,1,08,0.9,545.4,M,46.9,M,,*47";
const NO_FIX: &str = "$GPRMC,,V,,,,,,,,,,N*53";
const AIS: &str = "!AIVDM,1,1,,B,177KQJ5000G?tO`K>RA1wUbN0TKH,0*5C";

/// A sentence with its checksum computed, for data the tests invent.
fn sentence(data: &str) -> String {
    format!("${data}*{:02X}", data.bytes().fold(0, |acc, b| acc ^ b))
}

fn of(data: &str) -> Position {
    position(&parse(&sentence(data)).unwrap()).unwrap()
}

/// A coordinate in decimal degrees.
fn degrees(c: &Option<Coordinate>) -> Option<f64> {
    c.as_ref().map(|c| {
        let value = f64::from(c.degrees) + c.minutes.parse::<f64>().unwrap() / 60.0;
        if c.negative {
            -value
        } else {
            value
        }
    })
}

fn number(n: &Option<omakeel::number::Number>) -> Option<f64> {
    n.as_ref().map(|n| n.text.parse().unwrap())
}

#[test]
fn reads_a_fix_from_rmc() {
    let p = position(&parse(RMC).unwrap()).unwrap();
    assert_eq!(p.kind, Kind::Rmc);
    assert!(p.valid);
    assert!((degrees(&p.lat).unwrap() - 48.1173).abs() < 1e-9);
    assert!((degrees(&p.lon).unwrap() - (11.0 + 31.0 / 60.0)).abs() < 1e-9);
    assert_eq!(number(&p.sog_kn), Some(22.4));
    assert_eq!(number(&p.cog_deg), Some(84.4));
    assert_eq!(p.utc.as_deref(), Some("1994-03-23T12:35:19Z"));
}

#[test]
fn reads_quality_from_gga() {
    let p = position(&parse(GGA).unwrap()).unwrap();
    assert_eq!(p.kind, Kind::Gga);
    assert!(p.valid);
    assert_eq!(p.satellites, Some(8));
    assert_eq!(number(&p.hdop), Some(0.9));
    assert_eq!(p.utc, None);
}

#[test]
fn a_receiver_without_a_fix_says_so() {
    let p = position(&parse(NO_FIX).unwrap()).unwrap();
    assert!(!p.valid);
    assert_eq!((p.lat, p.lon, p.utc), (None, None, None));
}

#[test]
fn simulated_estimated_and_manual_fixes_are_not_fixes() {
    for quality in ["0", "6", "7", "8"] {
        let p = of(&format!(
            "GPGGA,210000,3751.900,N,12219.200,W,{quality},09,0.9,,M,,M,,"
        ));
        assert!(!p.valid, "GGA quality {quality}");
    }
    for mode in ["E", "M", "S", "N"] {
        let p = of(&format!(
            "GPRMC,210000,A,3751.900,N,12219.200,W,5.0,255.0,130926,,,{mode}"
        ));
        assert!(!p.valid, "RMC mode {mode}");
    }
    assert!(of("GPRMC,210000,A,3751.900,N,12219.200,W,5.0,255.0,130926,,,D").valid);
    assert!(of("GPRMC,210000,A,3751.900,N,12219.200,W,5.0,255.0,130926,,").valid);
}

#[test]
fn every_real_quality_is_a_fix() {
    for quality in ["1", "2", "3", "4", "5"] {
        let p = of(&format!(
            "GPGGA,210000,3751.900,N,12219.200,W,{quality},09,0.9,,M,,M,,"
        ));
        assert!(p.valid, "GGA quality {quality}");
    }
    assert!(!of("GPRMC,210000,V,3751.900,N,12219.200,W,5.0,255.0,130926,,,A").valid);
}

#[test]
fn west_and_south_are_negative() {
    let p = of("GPRMC,210000,A,3751.900,N,12219.200,W,5.0,255.0,130926,,,A");
    assert!((degrees(&p.lat).unwrap() - 37.865).abs() < 1e-9);
    assert!((degrees(&p.lon).unwrap() + 122.32).abs() < 1e-9);
    assert_eq!(p.utc.as_deref(), Some("2026-09-13T21:00:00Z"));
    let p = of("GPGGA,000000,3352.000,S,15112.000,E,1,07,1.1,,M,,M,,");
    assert!(degrees(&p.lat).unwrap() < 0.0);
}

#[test]
fn impossible_coordinates_are_dropped() {
    for data in [
        "GPRMC,210000,A,9130.000,N,12219.200,W,,,130926,,,A",
        "GPRMC,210000,A,3760.000,N,12219.200,W,,,130926,,,A",
        "GPRMC,210000,A,3751.900,E,12219.200,W,,,130926,,,A",
        // The same characters as 3751.900 with the point moved: the
        // checksum still matches, and it would put the boat 47 nm south.
        "GPRMC,210000,A,375.1900,N,12219.200,W,,,130926,,,A",
        "GPRMC,210000,A,3751.9x0,N,12219.200,W,,,130926,,,A",
    ] {
        assert_eq!(of(data).lat, None, "{data}");
    }
}

#[test]
fn coordinates_run_up_to_the_pole_and_the_antimeridian() {
    let at = |lat: &str, lon: &str| of(&format!("GPRMC,,A,{lat},N,{lon},E,,,,,,A"));
    let edge = at("9000.000", "18000.000");
    assert_eq!(degrees(&edge.lat), Some(90.0));
    assert_eq!(degrees(&edge.lon), Some(180.0));
    let over = at("9000.001", "18000.001");
    assert_eq!((over.lat, over.lon), (None, None));
    assert_eq!(degrees(&at("8959.999", "17959").lon), Some(179.0 + 59.0 / 60.0));
    assert_eq!(at("3751.", "12219.").lat, None, "a point and no decimals");
    assert_eq!(at("375", "122").lat, None);
    assert_eq!(at("", "").lat, None);
}

#[test]
fn coordinates_are_read_as_a_double_reads_them() {
    // Sixty minutes once rounded, and one short of that.
    let lat = |value: &str| of(&format!("GPRMC,,A,{value},N,00000,E,,,,,,A")).lat;
    assert!("59.9999999999999999".parse::<f64>().unwrap() >= 60.0);
    assert_eq!(lat("3759.9999999999999999"), None);
    assert!("59.99999999999999".parse::<f64>().unwrap() < 60.0);
    assert!(lat("3759.99999999999999").is_some());
    // So little past the pole that a double doesn't tell.
    assert!(90.0 + "00.0000000000001".parse::<f64>().unwrap() / 60.0 <= 90.0);
    assert!(lat("9000.0000000000001").is_some());
    assert!(90.0 + "00.000000000001".parse::<f64>().unwrap() / 60.0 > 90.0);
    assert_eq!(lat("9000.000000000001"), None);
}

#[test]
fn impossible_dates_and_times_are_dropped() {
    for (date, time) in [
        ("310226", "120000"),
        ("290225", "120000"),
        ("130926", "120000garbage"),
        ("130926", "250000"),
    ] {
        let p = of(&format!(
            "GPRMC,{time},A,3751.900,N,12219.200,W,,,{date},,,A"
        ));
        assert_eq!(p.utc, None, "{date} {time}");
    }
    let leap_day = of("GPRMC,120000.50,A,3751.900,N,12219.200,W,,,290224,,,A");
    assert_eq!(leap_day.utc.as_deref(), Some("2024-02-29T12:00:00Z"));
}

#[test]
fn dates_start_in_1980_and_leap_seconds_exist() {
    let utc = |date: &str, time: &str| of(&format!("GPRMC,{time},A,,,,,,,{date},,,A")).utc;
    assert_eq!(utc("010180", "000000").as_deref(), Some("1980-01-01T00:00:00Z"));
    assert_eq!(utc("311279", "235960").as_deref(), Some("2079-12-31T23:59:60Z"));
    assert_eq!(utc("290200", "010203").as_deref(), Some("2000-02-29T01:02:03Z"));
    for (date, time) in [
        ("000126", "120000"),
        ("320126", "120000"),
        ("310426", "120000"),
        ("011326", "120000"),
        ("010026", "120000"),
        ("010126", "126000"),
        ("010126", "120061"),
        ("01012", "120000"),
        ("010126", "12000"),
        ("010126", "120000."),
    ] {
        assert_eq!(utc(date, time), None, "{date} {time}");
    }
}

#[test]
fn numbers_are_what_a_double_can_hold() {
    let sog = |field: &str| of(&format!("GPRMC,,A,,,,,{field},,,,,A")).sog_kn;
    for field in [
        "5", "5.", ".5", "+5.0", "-5.0", "5e3", "5E-3", "1.7976931348623157e308", "0e999999",
        "00000", "1e308", "179769313486231570000000000000000000000e270",
    ] {
        assert_eq!(sog(field).map(|n| n.text).as_deref(), Some(field), "{field}");
        assert!(field.parse::<f64>().unwrap().is_finite());
    }
    for field in [
        "", ".", "e5", "5e", "5e+", "--5", "5x", " 5", "1e309", "inf", "nan", "infinity",
        "1.7976931348623159e308",
    ] {
        assert_eq!(sog(field), None, "{field}");
        assert!(!field.parse::<f64>().is_ok_and(f64::is_finite));
    }
}

#[test]
fn satellites_fit_a_byte() {
    let satellites = |field: &str| of(&format!("GPGGA,,,,,,1,{field},,,,,,,")).satellites;
    assert_eq!(satellites("255"), Some(255));
    assert_eq!(satellites("+9"), Some(9));
    assert_eq!(satellites("009"), Some(9));
    for field in ["256", "-1", "", "9.0", "+"] {
        assert_eq!(satellites(field), None, "{field}");
    }
}

#[test]
fn rejects_a_bad_checksum() {
    let line = RMC.replace("*6A", "*6B");
    assert_eq!(
        parse(&line),
        Err(Reject::Checksum {
            computed: 0x6A,
            sent: 0x6B
        })
    );
}

#[test]
fn rejects_what_is_not_a_sentence() {
    for line in ["", "hello", "$GPRMC,1,2", "$GPRMC*6", "$GPRMC*6G", "$*00"] {
        assert_eq!(parse(line), Err(Reject::Framing), "{line:?}");
    }
}

#[test]
fn a_changed_byte_is_rejected_and_swapped_ones_are_not() {
    let changed = RMC.replace("4807.038", "4807.039");
    assert!(matches!(parse(&changed), Err(Reject::Checksum { .. })));
    let swapped = RMC.replace("4807.038", "4870.038");
    assert!(parse(&swapped).is_ok(), "exclusive or ignores order");
}

#[test]
fn a_framed_sentence_is_split_into_its_fields() {
    for start in ["$", "!"] {
        let line = format!("{start}{}", &sentence("GPXYZ1,a,,c*d,é")[1..]);
        let s = parse(&line).unwrap();
        assert_eq!((s.talker, s.kind), ("GP", "XYZ1"));
        assert_eq!(s.fields, ["a", "", "c*d", "é"]);
        assert_eq!(field_at(&s, 2), "c*d");
        assert_eq!(field_at(&s, 9), "");
    }
    assert_eq!(parse(&sentence("GP,a")), Err(Reject::Framing), "no kind");
    assert_eq!(parse(&sentence("G-RMC,a")), Err(Reject::Framing));
    assert!(parse("$GPRMC*6a").is_err());
    assert!(parse(&sentence("GPRMC").to_lowercase().replace("gprmc", "GPRMC")).is_ok());
}

#[test]
fn ais_is_checked_but_not_a_position() {
    let s = parse(AIS).unwrap();
    assert_eq!((s.talker, s.kind), ("AI", "VDM"));
    assert_eq!(position(&s), None);
}

#[test]
fn tolerates_a_trailing_carriage_return() {
    assert!(parse(&format!("{RMC}\r\n")).is_ok());
}

#[test]
fn white_space_behind_a_line_changes_nothing() {
    assert_eq!(parse(&format!("{RMC} \t\u{2003}\u{3000}\r\n")), parse(RMC));
    assert_eq!(parse(&format!(" {RMC}")), Err(Reject::Framing), "in front it does");
}

#[test]
fn fractions_compare_as_numbers() {
    let digits = ["", "0", "00", "5", "50", "500001", "49999", "9", "95", "123456789"];
    for a in digits {
        for b in digits {
            let (x, y) = (format!("0.{a}0"), format!("0.{b}0"));
            let (x, y) = (x.parse::<f64>().unwrap(), y.parse::<f64>().unwrap());
            assert_eq!(omakeel::number::fraction_below(a, b), x < y, "{a} {b}");
        }
    }
}
