//! AIS messages, joined and decoded.

use omakeel::ais::{decode, Assembler, Bits, Class, Report, PENDING};
use omakeel::nmea::parse;

/// Feeds sentences through one assembler; returns everything reported.
fn heard(lines: &[&str]) -> Vec<Report> {
    let mut assembler = Assembler::default();
    lines
        .iter()
        .flat_map(|l| assembler.feed(&parse(l).unwrap()))
        .collect()
}

/// Recomputes a sentence's checksum after a test edits its data.
fn resum(line: &str) -> String {
    let body = &line[1..line.rfind('*').unwrap()];
    let sum = body.bytes().fold(0, |acc, b| acc ^ b);
    format!("{}{body}*{sum:02X}", &line[..1])
}

/// The type 5 below, sent on another channel under another sequence id.
fn static_on(channel: &str, id: &str) -> [String; 2] {
    [STATIC_1, STATIC_2].map(|l| resum(&l.replace(",1,A,", &format!(",{id},{channel},"))))
}

/// Packs (value, bits) fields into a payload and its fill bits.
fn payload(fields: &[(u64, usize)]) -> (String, usize) {
    let mut bits: Vec<bool> = fields
        .iter()
        .flat_map(|&(v, n)| (0..n).rev().map(move |i| (v >> i) & 1 == 1))
        .collect();
    let fill = (6 - bits.len() % 6) % 6;
    bits.extend(std::iter::repeat_n(false, fill));
    let chars = bits
        .chunks(6)
        .map(|c| {
            let v = c.iter().fold(0u8, |acc, &b| acc << 1 | u8::from(b));
            char::from(if v < 40 { v + 48 } else { v + 56 })
        })
        .collect();
    (chars, fill)
}

/// Six-bit text, padded with `@` to `chars` characters.
fn text(s: &str, chars: usize) -> Vec<(u64, usize)> {
    s.bytes()
        .map(|b| (u64::from(if b >= 64 { b - 64 } else { b }), 6))
        .chain(std::iter::repeat((0, 6)))
        .take(chars)
        .collect()
}

// The two test vectors from gpsd's AIVDM guide, checked against pyais.
const MOORED: &str = "!AIVDM,1,1,,B,177KQJ5000G?tO`K>RA1wUbN0TKH,0*5C";
const STATIC_1: &str =
    "!AIVDM,2,1,1,A,55?MbV02;H;s<HtKR20EHE:0@T4@Dn2222222216L961O5Gf0NSQEp6ClRp8,0*1C";
const STATIC_2: &str = "!AIVDM,2,2,1,A,88888888880,2*25";

#[test]
fn decodes_a_class_a_position() {
    let [Report::Position(p)] = &heard(&[MOORED])[..] else {
        panic!("expected one position");
    };
    let lat = f64::from(p.lat) / 600_000.0;
    let lon = f64::from(p.lon) / 600_000.0;
    assert_eq!((p.mmsi, p.class, p.status), (477553000, Class::A, Some(5)));
    assert!((lat - 47.582833).abs() < 1e-6, "{}", lat);
    assert!((lon + 122.345833).abs() < 1e-6, "{}", lon);
    assert_eq!(
        (
            p.sog_tenths.map(|v| f64::from(v) / 10.0),
            p.cog_tenths.map(|v| f64::from(v) / 10.0),
            p.heading_deg
        ),
        (Some(0.0), Some(51.0), Some(181))
    );
}

#[test]
fn joins_a_two_sentence_static_message() {
    let [Report::Particulars(p)] = &heard(&[STATIC_1, STATIC_2])[..] else {
        panic!("expected particulars");
    };
    assert_eq!(p.mmsi, 351759000);
    assert_eq!(p.name.as_deref(), Some("EVER DIADEM"));
    assert_eq!(p.callsign.as_deref(), Some("3FOF8"));
    assert_eq!(p.ship_type, Some(70));
    assert_eq!((p.length_m, p.beam_m), (Some(295), Some(32)));
    assert_eq!(p.destination.as_deref(), Some("NEW YORK"));
}

#[test]
fn a_lost_sentence_loses_its_message_but_not_the_next() {
    assert!(heard(&[STATIC_2]).is_empty(), "a second part alone");
    assert_eq!(heard(&[STATIC_1, STATIC_1, STATIC_2]).len(), 1, "a restart");
    assert_eq!(
        heard(&[STATIC_1, MOORED, STATIC_2]).len(),
        2,
        "a position between the parts doesn't break the message"
    );
}

#[test]
fn messages_on_both_channels_interleave() {
    let [a1, a2] = static_on("A", "1");
    let [b1, b2] = static_on("B", "2");
    let reports = heard(&[&a1, &b1, MOORED, &a2, &b2]);
    assert_eq!(reports.len(), 3, "both type 5s and the position between");
}

#[test]
fn sentences_from_different_channels_never_mix() {
    let [a1, _] = static_on("A", "1");
    let [_, b2] = static_on("B", "1");
    assert!(heard(&[&a1, &b2]).is_empty());
}

#[test]
fn a_message_shorter_than_its_type_is_dropped() {
    assert!(
        decode("177KQJ5000G?tO`K>RA1", 0).is_empty(),
        "120 bits of a 168-bit position"
    );
    assert!(
        decode("177KQJ5000G?tO`K>RA1wUbN0TKH", 6).is_empty(),
        "fill runs 0 to 5"
    );
    assert_eq!(decode("177KQJ5000G?tO`K>RA1wUbN0TKH", 0).len(), 1);
}

#[test]
fn an_auxiliary_craft_has_no_size() {
    // A type 24 part B. From a tender (MMSI 98...), the size field holds
    // its mother ship's MMSI.
    let part_b = |mmsi| {
        payload(&[
            (24, 6),
            (0, 2),
            (mmsi, 30),
            (1, 2),
            (36, 8),
            (0, 42),
            (0, 42),
            (366_999_101, 30),
            (0, 6),
        ])
    };
    let (tender, fill) = part_b(983_669_991);
    let [Report::Particulars(p)] = &decode(&tender, fill)[..] else {
        panic!("expected particulars");
    };
    assert_eq!((p.length_m, p.beam_m, p.ship_type), (None, None, Some(36)));
    let (ordinary, fill) = part_b(338_999_103);
    let [Report::Particulars(p)] = &decode(&ordinary, fill)[..] else {
        panic!("expected particulars");
    };
    assert!(p.length_m.is_some(), "the same bits are a size for others");
}

#[test]
fn own_ship_and_other_sentences_are_ignored() {
    let own = resum(&MOORED.replace("AIVDM", "AIVDO"));
    assert!(heard(&[&own]).is_empty());
    let rmc = "$GPRMC,123519,A,4807.038,N,01131.000,E,022.4,084.4,230394,003.1,W*6A";
    assert!(heard(&[rmc]).is_empty());
}

#[test]
fn garbage_payloads_report_nothing() {
    assert!(decode("!!!!", 0).is_empty(), "not six-bit characters");
    assert!(decode("177KQJ5", 0).is_empty(), "too short for a position");
    assert!(decode("", 0).is_empty());
}

#[test]
fn text_stops_at_padding() {
    // "AB" then an @ pad: 000001 000010 000000.
    let bits = Bits::new("120", 0).unwrap();
    assert_eq!(bits.text(0, 3).as_deref(), Some("AB"));
}

#[test]
fn bits_read_as_numbers_and_signs() {
    // 'w' is 63, '0' is 0, 'W' is 39, '`' is 40.
    let bits = Bits::new("w0W`", 0).unwrap();
    assert_eq!(bits.len(), 24);
    assert_eq!(bits.uint(0, 6), Some(63));
    assert_eq!(bits.uint(12, 6), Some(39));
    assert_eq!(bits.uint(18, 6), Some(40));
    assert_eq!(bits.uint(3, 6), Some(0b111000));
    assert_eq!(bits.signed(0, 6), Some(-1));
    assert_eq!(bits.signed(0, 12), Some(-64));
    assert_eq!(bits.signed(12, 6), Some(-25));
    assert_eq!(bits.signed(6, 6), Some(0));
    assert_eq!(bits.uint(19, 6), None);
    assert_eq!(bits.text(0, 5).as_deref(), Some("?"), "the zero ends it");
    let short = Bits::new("ww", 0).unwrap();
    assert_eq!(short.text(0, 2).as_deref(), Some("??"));
    assert_eq!(short.text(0, 3), None, "more characters than there are bits");
    assert_eq!(Bits::new("w0", 5).unwrap().len(), 7);
    assert!(Bits::new("X", 0).is_none());
    assert!(Bits::new("", 1).is_none());
    assert_eq!(Bits::new("", 0).unwrap().len(), 0);
}

#[test]
fn class_b_reports_a_position_and_its_particulars() {
    // A type 19: position, name, type and size in one.
    let mut fields = vec![(19, 6), (0, 2), (338_999_103, 30), (0, 8)];
    fields.extend([(62, 10), (0, 1)]);
    fields.extend([((1u64 << 28) - 73_392_000, 28), (22_719_000, 27)]);
    fields.extend([(2550, 12), (511, 9), (0, 6), (0, 4)]);
    fields.extend(text("SEA LARK", 20));
    fields.extend([(36, 8), (6, 9), (5, 9), (2, 6), (2, 6), (0, 11)]);
    let (message, fill) = payload(&fields);
    let [Report::Position(p), Report::Particulars(q)] = &decode(&message, fill)[..] else {
        panic!("expected a position and particulars");
    };
    assert_eq!((p.mmsi, p.class, p.status), (338_999_103, Class::B, None));
    assert_eq!((p.lat, p.lon), (22_719_000, -73_392_000));
    assert_eq!((p.sog_tenths, p.cog_tenths), (Some(62), Some(2550)));
    assert_eq!(p.heading_deg, None, "511 means not available");
    assert_eq!(q.name.as_deref(), Some("SEA LARK"));
    assert_eq!(q.ship_type, Some(36));
    assert_eq!((q.length_m, q.beam_m), (Some(11), Some(4)));
    assert_eq!((q.callsign.as_deref(), q.destination.as_deref()), (None, None));
}

#[test]
fn values_that_are_not_available_are_left_out() {
    // A type 18 with its speed, course and heading not available.
    let class_b = |lon: u64, lat: u64| {
        payload(&[
            (18, 6),
            (0, 2),
            (7, 30),
            (0, 8),
            (1023, 10),
            (0, 1),
            (lon, 28),
            (lat, 27),
            (3600, 12),
            (360, 9),
            (0, 35),
        ])
    };
    let (message, fill) = class_b(0, 0);
    let [Report::Position(p)] = &decode(&message, fill)[..] else {
        panic!("expected a position");
    };
    assert_eq!((p.sog_tenths, p.cog_tenths, p.heading_deg), (None, None, None));
    assert_eq!((p.lat, p.lon), (0, 0));
    let (message, fill) = class_b(181 * 600_000, 0);
    assert!(decode(&message, fill).is_empty(), "longitude 181");
    let (message, fill) = class_b(0, 91 * 600_000);
    assert!(decode(&message, fill).is_empty(), "latitude 91");
    let (message, fill) = class_b(180 * 600_000, 90 * 600_000);
    assert_eq!(decode(&message, fill).len(), 1);
}

#[test]
fn a_vessel_without_a_number_reports_nothing() {
    let (message, fill) = payload(&[(24, 6), (0, 2), (0, 30), (0, 2), (0, 120), (0, 8)]);
    assert!(decode(&message, fill).is_empty());
    let (message, fill) = payload(&[(9, 6), (0, 2), (7, 30), (0, 130)]);
    assert!(decode(&message, fill).is_empty(), "a type that isn't read");
    let (message, fill) = payload(&[(24, 6), (0, 2), (7, 30), (2, 2), (0, 128)]);
    assert!(decode(&message, fill).is_empty(), "neither part A nor part B");
}

#[test]
fn a_name_comes_alone_in_part_a() {
    let mut fields = vec![(24, 6), (0, 2), (338_999_103, 30), (0, 2)];
    fields.extend(text("SEA LARK  ", 20));
    let (message, fill) = payload(&fields);
    let [Report::Particulars(p)] = &decode(&message, fill)[..] else {
        panic!("expected particulars");
    };
    assert_eq!(p.name.as_deref(), Some("SEA LARK"), "trailing spaces go");
    assert_eq!((p.ship_type, p.length_m), (None, None));
}

#[test]
fn the_oldest_message_gives_way_to_one_too_many() {
    let openings: Vec<[String; 2]> = (0..=PENDING)
        .map(|id| static_on("A", &id.to_string()))
        .collect();
    let mut lines: Vec<&str> = openings.iter().map(|[first, _]| first.as_str()).collect();
    lines.push(&openings[0][1]);
    assert!(heard(&lines).is_empty(), "the first one's rest comes too late");
    lines.push(&openings[1][1]);
    assert_eq!(heard(&lines).len(), 1, "the others are still waiting");
}

#[test]
fn a_message_is_joined_around_three_others() {
    let [first, second] = static_on("A", "0");
    let others: Vec<[String; 2]> = (1..PENDING)
        .map(|id| static_on("B", &id.to_string()))
        .collect();
    let mut lines: Vec<&str> = vec![&first, MOORED];
    lines.extend(others.iter().map(|[opening, _]| opening.as_str()));
    lines.push(&others[1][1]);
    assert_eq!(heard(&lines).len(), 2);
    lines.push(&second);
    assert_eq!(heard(&lines).len(), 3);
    assert_eq!(heard(&lines)[2], heard(&[STATIC_1, STATIC_2])[0]);
    lines.push(&second);
    assert_eq!(heard(&lines).len(), 3, "a repeat reports nothing");
}

#[test]
fn sentences_out_of_order_lose_the_message() {
    let part = |number: u8, payload: &str| resum(&format!("!AIVDM,3,{number},4,A,{payload},0*00"));
    let (one, two, three) = (part(1, "5"), part(2, "5"), part(3, "5"));
    assert!(heard(&[&one, &three, &two]).is_empty());
    for (count, number) in [("0", "1"), ("2", "0"), ("2", "3"), ("10", "1"), ("x", "1")] {
        let line = resum(&format!("!AIVDM,{count},{number},1,A,5,0*00"));
        assert!(heard(&[&line]).is_empty(), "{count} {number}");
    }
}

#[test]
fn a_message_of_three_sentences_is_joined() {
    let whole = "55?MbV02;H;s<HtKR20EHE:0@T4@Dn2222222216L961O5Gf0NSQEp6ClRp888888888880";
    let pieces = [&whole[..20], &whole[20..50], &whole[50..]];
    let lines: Vec<String> = pieces
        .iter()
        .enumerate()
        .map(|(i, p)| {
            let fill = if i == 2 { 2 } else { 0 };
            resum(&format!("!AIVDM,3,{},7,B,{p},{fill}*00", i + 1))
        })
        .collect();
    let lines: Vec<&str> = lines.iter().map(String::as_str).collect();
    assert!(heard(&lines[..2]).is_empty());
    let reports = heard(&lines);
    assert_eq!(reports.len(), 1);
    assert_eq!(reports, heard(&[STATIC_1, STATIC_2]));
}
