//! NMEA 0183: sentence framing and checksums, and the two position sentences
//! the hub reads, RMC and GGA.

use crate::number;
use crate::number::Number;
use crate::text;
use vstd::prelude::*;
use vstd::string::*;

verus! {

/// A sentence whose checksum matched, split into its talker (`GP`), kind
/// (`RMC`) and the comma-separated fields after the address.
#[derive(Debug, PartialEq)]
pub struct Sentence<'a> {
    pub talker: &'a str,
    pub kind: &'a str,
    pub fields: Vec<&'a str>,
}

/// What a sentence says, as characters.
pub struct SentenceView {
    pub talker: Seq<char>,
    pub kind: Seq<char>,
    pub fields: Seq<Seq<char>>,
}

impl<'a> View for Sentence<'a> {
    type V = SentenceView;

    open spec fn view(&self) -> SentenceView {
        SentenceView { talker: self.talker@, kind: self.kind@, fields: text::views(self.fields@) }
    }
}

/// Why a line was rejected.
#[derive(Debug, Clone, Copy, PartialEq, Eq, Structural)]
pub enum Reject {
    /// Not shaped like a sentence: no leading `$` or `!`, no `*hh`, or no address.
    Framing,
    /// Shaped like one, but the data doesn't match its checksum.
    Checksum { computed: u8, sent: u8 },
}

/// All bytes combined by exclusive or.
pub open spec fn checksum(bytes: Seq<u8>) -> u8
    decreases bytes.len(),
{
    if bytes.len() == 0 {
        0
    } else {
        checksum(bytes.drop_last()) ^ bytes.last()
    }
}

pub open spec fn is_alphanumeric(c: char) -> bool {
    text::is_digit(c) || 'A' <= c <= 'Z' || 'a' <= c <= 'z'
}

pub open spec fn is_hex(c: char) -> bool {
    text::is_digit(c) || 'A' <= c <= 'F' || 'a' <= c <= 'f'
}

/// The value of a hexadecimal digit.
pub open spec fn hex_value(c: char) -> int {
    if text::is_digit(c) {
        c as int - '0' as int
    } else if 'A' <= c <= 'F' {
        c as int - 'A' as int + 10
    } else {
        c as int - 'a' as int + 10
    }
}

/// Two hexadecimal digits.
pub open spec fn is_sum(s: Seq<char>) -> bool {
    s.len() == 2 && is_hex(s[0]) && is_hex(s[1])
}

/// The byte that two hexadecimal digits write.
pub open spec fn sum_value(s: Seq<char>) -> u8 {
    (16 * hex_value(s[0]) + hex_value(s[1])) as u8
}

/// Three letters and digits or more: a talker of two, then a kind.
pub open spec fn is_address(s: Seq<char>) -> bool {
    s.len() >= 3 && forall|i: int| 0 <= i < s.len() ==> is_alphanumeric(#[trigger] s[i])
}

/// What the data between the leading `$` or `!` and the `*` says.
pub open spec fn sentence_of(data: Seq<char>) -> Result<SentenceView, Reject> {
    let parts = text::split(data, ',');
    if is_address(parts[0]) {
        Ok(
            SentenceView {
                talker: parts[0].take(2),
                kind: parts[0].skip(2),
                fields: parts.skip(1),
            },
        )
    } else {
        Err(Reject::Framing)
    }
}

/// What a line says, or why it is rejected.
pub open spec fn parsed(line: Seq<char>) -> Result<SentenceView, Reject> {
    let whole = text::trim_end(line);
    if whole.len() == 0 || (whole[0] != '$' && whole[0] != '!') {
        Err(Reject::Framing)
    } else {
        match text::rsplit_once(whole.drop_first(), '*') {
            None => Err(Reject::Framing),
            Some((data, sum)) => if !is_sum(sum) {
                Err(Reject::Framing)
            } else if checksum(vstd::utf8::encode_utf8(data)) != sum_value(sum) {
                Err(
                    Reject::Checksum {
                        computed: checksum(vstd::utf8::encode_utf8(data)),
                        sent: sum_value(sum),
                    },
                )
            } else {
                sentence_of(data)
            },
        }
    }
}

fn hex_digit(c: char) -> (value: Option<u8>)
    ensures
        match value {
            Some(v) => is_hex(c) && v == hex_value(c) && v < 16,
            None => !is_hex(c),
        },
{
    if c >= '0' && c <= '9' {
        Some(c as u8 - '0' as u8)
    } else if c >= 'A' && c <= 'F' {
        Some(c as u8 - 'A' as u8 + 10)
    } else if c >= 'a' && c <= 'f' {
        Some(c as u8 - 'a' as u8 + 10)
    } else {
        None
    }
}

/// All bytes of `data` combined by exclusive or.
fn exclusive_or(data: &str) -> (sum: u8)
    ensures
        sum == checksum(vstd::utf8::encode_utf8(data@)),
{
    let bytes = data.as_bytes();
    let mut sum: u8 = 0;
    let mut i: usize = 0;
    assert(bytes@.take(0) == Seq::<u8>::empty());
    while i < bytes.len()
        invariant
            i <= bytes@.len(),
            sum == checksum(bytes@.take(i as int)),
        decreases bytes.len() - i,
    {
        assert(bytes@.take(i + 1).drop_last() == bytes@.take(i as int));
        sum = sum ^ bytes[i];
        i = i + 1;
    }
    assert(bytes@.take(i as int) == bytes@);
    sum
}

fn address(s: &str) -> (yes: bool)
    ensures
        yes == is_address(s@),
{
    let list = text::chars(s);
    let mut i: usize = 0;
    while i < list.len()
        invariant
            i <= list.len(),
            list@ == s@,
            forall|j: int| 0 <= j < i ==> is_alphanumeric(#[trigger] s@[j]),
        decreases list.len() - i,
    {
        let c = list[i];
        if !((c >= '0' && c <= '9') || (c >= 'A' && c <= 'Z') || (c >= 'a' && c <= 'z')) {
            assert(!is_alphanumeric(s@[i as int]));
            return false;
        }
        i = i + 1;
    }
    list.len() >= 3
}

/// Checks a line's framing and checksum, and splits it into its fields.
pub fn parse<'a>(line: &'a str) -> (sentence: Result<Sentence<'a>, Reject>)
    ensures
        match sentence {
            Ok(s) => parsed(line@) == Ok::<SentenceView, Reject>(s@),
            Err(e) => parsed(line@) == Err::<SentenceView, Reject>(e),
        },
{
    let whole = text::trimmed_end(line);
    let count: usize = whole.unicode_len();
    if count == 0 || (whole.get_char(0) != '$' && whole.get_char(0) != '!') {
        return Err(Reject::Framing);
    }
    let body = whole.substring_char(1, count);
    assert(body@ == whole@.drop_first());
    let (data, sum) = match text::parted_last(body, '*') {
        Some(parts) => parts,
        None => return Err(Reject::Framing),
    };
    if sum.unicode_len() != 2 {
        return Err(Reject::Framing);
    }
    let sent: u8 = match (hex_digit(sum.get_char(0)), hex_digit(sum.get_char(1))) {
        (Some(high), Some(low)) => high * 16 + low,
        _ => return Err(Reject::Framing),
    };
    let computed: u8 = exclusive_or(data);
    if computed != sent {
        return Err(Reject::Checksum { computed, sent });
    }
    let mut fields = text::pieces(data, ',');
    proof {
        text::lemma_split_some(data@, ',');
        assert(text::views(fields@).len() == fields@.len());
    }
    let ghost parts = text::views(fields@);
    let first = fields.remove(0);
    assert(text::views(fields@) == parts.skip(1));
    if !address(first) {
        return Err(Reject::Framing);
    }
    let length: usize = first.unicode_len();
    let talker = first.substring_char(0, 2);
    let kind = first.substring_char(2, length);
    assert(talker@ == first@.take(2));
    assert(kind@ == first@.skip(2));
    Ok(Sentence { talker, kind, fields })
}

/// Which sentence a position came from; each carries different fields.
#[derive(Debug, Clone, Copy, PartialEq, Eq, Structural)]
pub enum Kind {
    Rmc,
    Gga,
}

/// Degrees and minutes as a receiver sends them. The minutes stay the
/// characters that were sent: two digits, and their decimals behind a point.
#[derive(Debug, PartialEq)]
pub struct Coordinate {
    /// South or west.
    pub negative: bool,
    pub degrees: u16,
    pub minutes: String,
}

pub struct CoordinateView {
    pub negative: bool,
    pub degrees: nat,
    pub minutes: Seq<char>,
}

impl View for Coordinate {
    type V = CoordinateView;

    open spec fn view(&self) -> CoordinateView {
        CoordinateView {
            negative: self.negative,
            degrees: self.degrees as nat,
            minutes: self.minutes@,
        }
    }
}

impl Clone for Coordinate {
    fn clone(&self) -> (copied: Coordinate)
        ensures
            copied == *self,
    {
        Coordinate {
            negative: self.negative,
            degrees: self.degrees,
            minutes: self.minutes.clone(),
        }
    }
}

/// A copy of a coordinate that may be absent.
pub fn copy(c: &Option<Coordinate>) -> (copied: Option<Coordinate>)
    ensures
        copied == *c,
{
    match c {
        Some(v) => Some(v.clone()),
        None => None,
    }
}

/// What a coordinate that may be absent says.
pub open spec fn place(c: Option<Coordinate>) -> Option<CoordinateView> {
    match c {
        Some(v) => Some(v@),
        None => None,
    }
}

/// A position sentence. `None` where the receiver left a field empty.
#[derive(Debug, PartialEq)]
pub struct Position {
    pub kind: Kind,
    /// A real, usable fix: RMC status `A` in a real mode, or GGA quality 1-5.
    pub valid: bool,
    pub lat: Option<Coordinate>,
    pub lon: Option<Coordinate>,
    /// Speed and course over ground, from RMC.
    pub sog_kn: Option<Number>,
    pub cog_deg: Option<Number>,
    /// From RMC, the only one with the date: `1994-03-23T12:35:19Z`.
    pub utc: Option<String>,
    /// From GGA.
    pub satellites: Option<u8>,
    pub hdop: Option<Number>,
}

impl Clone for Position {
    fn clone(&self) -> (copied: Position)
        ensures
            copied == *self,
    {
        Position {
            kind: self.kind,
            valid: self.valid,
            lat: copy(&self.lat),
            lon: copy(&self.lon),
            sog_kn: number::copy(&self.sog_kn),
            cog_deg: number::copy(&self.cog_deg),
            utc: text::copy(&self.utc),
            satellites: self.satellites,
            hdop: number::copy(&self.hdop),
        }
    }
}

pub struct PositionView {
    pub kind: Kind,
    pub valid: bool,
    pub lat: Option<CoordinateView>,
    pub lon: Option<CoordinateView>,
    pub sog_kn: Option<Seq<char>>,
    pub cog_deg: Option<Seq<char>>,
    pub utc: Option<Seq<char>>,
    pub satellites: Option<u8>,
    pub hdop: Option<Seq<char>>,
}

impl View for Position {
    type V = PositionView;

    open spec fn view(&self) -> PositionView {
        PositionView {
            kind: self.kind,
            valid: self.valid,
            lat: place(self.lat),
            lon: place(self.lon),
            sog_kn: number::written(self.sog_kn),
            cog_deg: number::written(self.cog_deg),
            utc: text::text_of(self.utc),
            satellites: self.satellites,
            hdop: number::written(self.hdop),
        }
    }
}

/// Field `i`, empty where the sentence is too short to have it.
pub open spec fn field(fields: Seq<Seq<char>>, i: int) -> Seq<char> {
    if 0 <= i < fields.len() {
        fields[i]
    } else {
        Seq::empty()
    }
}

/// Nothing, or a decimal point and digits: the `.038` in `4807.038`.
pub open spec fn is_fraction(s: Seq<char>) -> bool {
    s.len() == 0 || (s[0] == '.' && text::all_digits(s.drop_first()))
}

/// The digits of a fraction behind its point.
pub open spec fn fraction_digits(s: Seq<char>) -> Seq<char> {
    if s.len() == 0 {
        s
    } else {
        s.drop_first()
    }
}

/// The digits of 1 - 2^-48: from 59 and these on, minutes read as 60.
pub open spec fn minute_digits() -> Seq<char> {
    "999999999999996447286321199499070644378662109375"@
}

/// The digits of 60 * 2^-47 + 2^-95: up to so many minutes past 90 degrees
/// are lost in a double, and past 180 up to twice as many.
pub open spec fn slack_digits(max: nat) -> Seq<char> {
    if max == 90 {
        "00000000000042632564145606013676622352761925277317531408904915934954260592348873615264892578125"@
    } else {
        "0000000000008526512829121202735324470552385055463506281780983186990852118469774723052978515625"@
    }
}

/// `4807.038`,`N`: whole degrees, then two whole-minute digits and their
/// decimals, in fewer than 60 minutes and at most `max` degrees.
pub open spec fn coordinate_of(
    value: Seq<char>,
    hemisphere: Seq<char>,
    degree_digits: int,
    positive: Seq<char>,
    negative: Seq<char>,
    max: nat,
) -> Option<CoordinateView> {
    let degrees = value.take(degree_digits);
    let whole = value.subrange(degree_digits, degree_digits + 2);
    let decimals = value.skip(degree_digits + 2);
    let parts = fraction_digits(decimals);
    if value.len() < degree_digits + 2 || !text::all_digits(degrees) || !text::all_digits(whole)
        || !is_fraction(decimals) {
        None
    } else if text::digits_value(whole) >= 60 || (text::digits_value(whole) == 59
        && !number::fraction_less(parts, minute_digits())) {
        None
    } else if text::digits_value(degrees) > max || (text::digits_value(degrees) == max && (
    text::digits_value(whole) > 0 || number::fraction_less(slack_digits(max), parts))) {
        None
    } else if hemisphere == positive || hemisphere == negative {
        Some(
            CoordinateView {
                negative: hemisphere != positive,
                degrees: text::digits_value(degrees),
                minutes: value.skip(degree_digits),
            },
        )
    } else {
        None
    }
}

/// The number that two digits of `s` write, those from `at` on.
pub open spec fn two(s: Seq<char>, at: int) -> nat {
    text::digits_value(s.subrange(at, at + 2))
}

pub open spec fn is_leap(year: nat) -> bool {
    year % 4 == 0 && (year % 100 != 0 || year % 400 == 0)
}

/// How many days a month has; none where there is no such month.
pub open spec fn days_in(year: nat, month: nat) -> nat {
    if month == 2 {
        if is_leap(year) {
            29
        } else {
            28
        }
    } else if month == 4 || month == 6 || month == 9 || month == 11 {
        30
    } else if 1 <= month <= 12 {
        31
    } else {
        0
    }
}

/// NMEA sends two-digit years; receivers date from 1980 onward.
pub open spec fn century(yy: nat) -> nat {
    if yy >= 80 {
        1900
    } else {
        2000
    }
}

/// RMC's `ddmmyy` and `hhmmss.ss` name a day and a second that exist.
pub open spec fn is_moment(date: Seq<char>, time: Seq<char>) -> bool {
    &&& date.len() == 6
    &&& text::all_digits(date)
    &&& time.len() >= 6
    &&& text::all_digits(time.take(6))
    &&& is_fraction(time.skip(6))
    &&& 1 <= two(date, 0) <= days_in(century(two(date, 4)) + two(date, 4), two(date, 2))
    &&& two(time, 0) <= 23
    &&& two(time, 2) <= 59
    &&& two(time, 4) <= 60
}

/// RMC's date and time as an ISO 8601 UTC time, whole seconds.
pub open spec fn utc_of(date: Seq<char>, time: Seq<char>) -> Option<Seq<char>> {
    if is_moment(date, time) {
        let prefix = if two(date, 4) >= 80 {
            "19"@
        } else {
            "20"@
        };
        Some(
            prefix + date.subrange(4, 6) + "-"@ + date.subrange(2, 4) + "-"@ + date.subrange(0, 2)
                + "T"@ + time.subrange(0, 2) + ":"@ + time.subrange(2, 4) + ":"@ + time.subrange(
                4,
                6,
            ) + "Z"@,
        )
    } else {
        None
    }
}

/// The number a field holds, where it fits a byte.
pub open spec fn byte_of(s: Seq<char>) -> Option<u8> {
    match text::unsigned(s, 255) {
        Some(n) => Some(n as u8),
        None => None,
    }
}

/// RMC status `A`, in a mode that isn't estimated, manual, simulated or not
/// valid.
pub open spec fn rmc_valid(f: Seq<Seq<char>>) -> bool {
    field(f, 1) == "A"@ && !(field(f, 11) == "E"@ || field(f, 11) == "M"@ || field(f, 11) == "S"@
        || field(f, 11) == "N"@)
}

/// GGA quality 1 GPS, 2 DGPS, 3 PPS, 4 RTK or 5 float RTK.
pub open spec fn gga_valid(f: Seq<Seq<char>>) -> bool {
    field(f, 5) == "1"@ || field(f, 5) == "2"@ || field(f, 5) == "3"@ || field(f, 5) == "4"@
        || field(f, 5) == "5"@
}

/// The position in an RMC or GGA sentence.
pub open spec fn position_of(s: SentenceView) -> Option<PositionView> {
    let f = s.fields;
    if s.kind == "RMC"@ {
        Some(
            PositionView {
                kind: Kind::Rmc,
                valid: rmc_valid(f),
                lat: coordinate_of(field(f, 2), field(f, 3), 2, "N"@, "S"@, 90),
                lon: coordinate_of(field(f, 4), field(f, 5), 3, "E"@, "W"@, 180),
                sog_kn: number::number_of(field(f, 6)),
                cog_deg: number::number_of(field(f, 7)),
                utc: utc_of(field(f, 8), field(f, 0)),
                satellites: None,
                hdop: None,
            },
        )
    } else if s.kind == "GGA"@ {
        Some(
            PositionView {
                kind: Kind::Gga,
                valid: gga_valid(f),
                lat: coordinate_of(field(f, 1), field(f, 2), 2, "N"@, "S"@, 90),
                lon: coordinate_of(field(f, 3), field(f, 4), 3, "E"@, "W"@, 180),
                sog_kn: None,
                cog_deg: None,
                utc: None,
                satellites: byte_of(field(f, 6)),
                hdop: number::number_of(field(f, 7)),
            },
        )
    } else {
        None
    }
}

/// Field `i` of a sentence, empty where it has none.
pub fn field_at<'a>(s: &Sentence<'a>, i: usize) -> (text: &'a str)
    ensures
        text@ == field(s@.fields, i as int),
{
    if i < s.fields.len() {
        s.fields[i]
    } else {
        let empty = "";
        proof {
            reveal_strlit("");
        }
        assert(empty@ =~= Seq::<char>::empty());
        empty
    }
}

/// Whether `s` is nothing, or a decimal point and digits.
pub fn fraction(s: &str) -> (yes: bool)
    ensures
        yes == is_fraction(s@),
{
    let count: usize = s.unicode_len();
    if count == 0 {
        true
    } else if s.get_char(0) != '.' {
        false
    } else {
        let rest = s.substring_char(1, count);
        assert(rest@ == s@.drop_first());
        text::digits(rest)
    }
}

/// The number that a few digits write.
fn small_number(s: &str) -> (n: u16)
    requires
        text::all_digits(s@),
        s@.len() <= 3,
    ensures
        n == text::digits_value(s@),
        n <= 999,
        s@.len() == 2 ==> n <= 99,
{
    proof {
        lemma_small(s@);
    }
    match text::number_up_to(s, 999) {
        Some(n) => n as u16,
        None => 0,
    }
}

proof fn lemma_small(s: Seq<char>)
    requires
        text::all_digits(s),
        s.len() <= 3,
    ensures
        text::digits_value(s) <= 999,
        s.len() == 2 ==> text::digits_value(s) <= 99,
        text::unsigned(s, 999) == Some(text::digits_value(s)),
{
    reveal_with_fuel(text::digits_value, 4);
    assert(text::is_digit(s[0]));
    if s.len() > 1 {
        assert(text::is_digit(s[1]));
        assert(text::is_digit(s[s.len() - 1]));
        assert(s.drop_last().last() == s[s.len() - 2]);
        assert(text::is_digit(s[s.len() - 2]));
    }
    if s.len() == 3 {
        assert(s.drop_last().drop_last().last() == s[0]);
    }
}

/// A latitude or longitude, such as `4807.038`,`N`. The checksum can't catch
/// a moved decimal point, since exclusive or ignores order, so the shape is
/// checked here.
fn coord(
    value: &str,
    hemisphere: &str,
    degree_digits: usize,
    positive: &str,
    negative: &str,
    max: u16,
) -> (coordinate: Option<Coordinate>)
    requires
        degree_digits == 2 || degree_digits == 3,
    ensures
        place(coordinate) == coordinate_of(
            value@,
            hemisphere@,
            degree_digits as int,
            positive@,
            negative@,
            max as nat,
        ),
{
    let count: usize = value.unicode_len();
    if count < degree_digits + 2 {
        return None;
    }
    let degrees = value.substring_char(0, degree_digits);
    let minutes = value.substring_char(degree_digits, count);
    let whole = value.substring_char(degree_digits, degree_digits + 2);
    let decimals = value.substring_char(degree_digits + 2, count);
    assert(degrees@ == value@.take(degree_digits as int));
    assert(minutes@ == value@.skip(degree_digits as int));
    assert(decimals@ == value@.skip(degree_digits + 2));
    if !text::digits(degrees) || !text::digits(whole) || !fraction(decimals) {
        return None;
    }
    let length: usize = decimals.unicode_len();
    let parts = decimals.substring_char(if length == 0 { 0 } else { 1 }, length);
    assert(parts@ == fraction_digits(decimals@));
    let d: u16 = small_number(degrees);
    let m: u16 = small_number(whole);
    if m >= 60 || (m == 59 && !number::fraction_below(
        parts,
        "999999999999996447286321199499070644378662109375",
    )) {
        return None;
    }
    let slack = if max == 90 {
        "00000000000042632564145606013676622352761925277317531408904915934954260592348873615264892578125"
    } else {
        "0000000000008526512829121202735324470552385055463506281780983186990852118469774723052978515625"
    };
    if d > max || (d == max && (m > 0 || number::fraction_below(slack, parts))) {
        return None;
    }
    if text::same(hemisphere, positive) {
        Some(Coordinate { negative: false, degrees: d, minutes: minutes.to_owned() })
    } else if text::same(hemisphere, negative) {
        Some(Coordinate { negative: true, degrees: d, minutes: minutes.to_owned() })
    } else {
        None
    }
}

/// RMC's `ddmmyy` and `hhmmss.ss` as an ISO 8601 UTC time, whole seconds.
pub fn utc(date: &str, time: &str) -> (moment: Option<String>)
    ensures
        text::text_of(moment) == utc_of(date@, time@),
{
    let count: usize = time.unicode_len();
    if count < 6 || date.unicode_len() != 6 {
        return None;
    }
    let clock = time.substring_char(0, 6);
    let decimals = time.substring_char(6, count);
    assert(clock@ == time@.take(6));
    assert(decimals@ == time@.skip(6));
    if !text::digits(date) || !text::digits(clock) || !fraction(decimals) {
        return None;
    }
    proof {
        lemma_subrange_digits(date@, 0);
        lemma_subrange_digits(date@, 2);
        lemma_subrange_digits(date@, 4);
        lemma_subrange_digits(clock@, 0);
        lemma_subrange_digits(clock@, 2);
        lemma_subrange_digits(clock@, 4);
        assert(clock@.subrange(0, 2) == time@.subrange(0, 2));
        assert(clock@.subrange(2, 4) == time@.subrange(2, 4));
        assert(clock@.subrange(4, 6) == time@.subrange(4, 6));
    }
    let (dd, mm, yy) = (
        date.substring_char(0, 2),
        date.substring_char(2, 4),
        date.substring_char(4, 6),
    );
    let (h, m, s) = (
        clock.substring_char(0, 2),
        clock.substring_char(2, 4),
        clock.substring_char(4, 6),
    );
    let day: u16 = small_number(dd);
    let month: u16 = small_number(mm);
    let short_year: u16 = small_number(yy);
    let year: u16 = if short_year >= 80 {
        1900 + short_year
    } else {
        2000 + short_year
    };
    let leap = year % 4 == 0 && (year % 100 != 0 || year % 400 == 0);
    let days: u16 = if month == 2 {
        if leap {
            29
        } else {
            28
        }
    } else if month == 4 || month == 6 || month == 9 || month == 11 {
        30
    } else if 1 <= month && month <= 12 {
        31
    } else {
        return None;
    };
    if day == 0 || day > days || small_number(h) > 23 || small_number(m) > 59 || small_number(s)
        > 60 {
        return None;
    }
    let mut out = (if short_year >= 80 {
        "19"
    } else {
        "20"
    }).to_owned();
    out.append(yy);
    out.append("-");
    out.append(mm);
    out.append("-");
    out.append(dd);
    out.append("T");
    out.append(h);
    out.append(":");
    out.append(m);
    out.append(":");
    out.append(s);
    out.append("Z");
    Some(out)
}

proof fn lemma_subrange_digits(s: Seq<char>, at: int)
    requires
        text::all_digits(s),
        0 <= at,
        at + 2 <= s.len(),
    ensures
        text::all_digits(s.subrange(at, at + 2)),
{
    assert forall|i: int| 0 <= i < 2 implies text::is_digit(
        #[trigger] s.subrange(at, at + 2)[i],
    ) by {
        assert(text::is_digit(s[at + i]));
    }
}

/// The position in an RMC or GGA sentence; `None` for any other kind.
pub fn position(s: &Sentence) -> (position: Option<Position>)
    ensures
        match position {
            Some(p) => position_of(s@) == Some(p@),
            None => position_of(s@) is None,
        },
{
    if text::same(s.kind, "RMC") {
        let mode = field_at(s, 11);
        let valid = text::same(field_at(s, 1), "A") && !(text::same(mode, "E") || text::same(
            mode,
            "M",
        ) || text::same(mode, "S") || text::same(mode, "N"));
        Some(
            Position {
                kind: Kind::Rmc,
                valid,
                lat: coord(field_at(s, 2), field_at(s, 3), 2, "N", "S", 90),
                lon: coord(field_at(s, 4), field_at(s, 5), 3, "E", "W", 180),
                sog_kn: number::number(field_at(s, 6)),
                cog_deg: number::number(field_at(s, 7)),
                utc: utc(field_at(s, 8), field_at(s, 0)),
                satellites: None,
                hdop: None,
            },
        )
    } else if text::same(s.kind, "GGA") {
        proof {
            reveal_strlit("RMC");
            reveal_strlit("GGA");
            assert("RMC"@[0] != "GGA"@[0]);
        }
        let quality = field_at(s, 5);
        let valid = text::same(quality, "1") || text::same(quality, "2") || text::same(
            quality,
            "3",
        ) || text::same(quality, "4") || text::same(quality, "5");
        Some(
            Position {
                kind: Kind::Gga,
                valid,
                lat: coord(field_at(s, 1), field_at(s, 2), 2, "N", "S", 90),
                lon: coord(field_at(s, 3), field_at(s, 4), 3, "E", "W", 180),
                sog_kn: None,
                cog_deg: None,
                utc: None,
                satellites: match text::number_up_to(field_at(s, 6), 255) {
                    Some(n) => Some(n as u8),
                    None => None,
                },
                hdop: number::number(field_at(s, 7)),
            },
        )
    } else {
        None
    }
}

/// A line with data and its checksum, behind a `$` or a `!`.
pub open spec fn framed(start: char, data: Seq<char>, sum: Seq<char>) -> Seq<char> {
    seq![start] + data + seq!['*'] + sum
}

proof fn lemma_framed(start: char, data: Seq<char>, sum: Seq<char>)
    requires
        start == '$' || start == '!',
        is_sum(sum),
    ensures
        text::trim_end(framed(start, data, sum)) == framed(start, data, sum),
        text::rsplit_once(framed(start, data, sum).drop_first(), '*') == Some((data, sum)),
{
    let line = framed(start, data, sum);
    assert(line.last() == sum[1]);
    let body = line.drop_first();
    assert(text::is_last(body, '*', data.len() as int));
    text::lemma_is_last(body, '*', data.len() as int);
    assert(body.take(data.len() as int) =~= data);
    assert(body.skip(data.len() as int + 1) =~= sum);
}

/// Data sent with its own checksum is taken as the sentence it is.
pub proof fn a_framed_sentence_is_read(start: char, data: Seq<char>, sum: Seq<char>)
    requires
        start == '$' || start == '!',
        is_sum(sum),
        sum_value(sum) == checksum(vstd::utf8::encode_utf8(data)),
    ensures
        parsed(framed(start, data, sum)) == sentence_of(data),
{
    lemma_framed(start, data, sum);
}

/// Data sent with any other checksum is rejected, and both are told.
pub proof fn a_wrong_checksum_is_rejected(start: char, data: Seq<char>, sum: Seq<char>)
    requires
        start == '$' || start == '!',
        is_sum(sum),
        sum_value(sum) != checksum(vstd::utf8::encode_utf8(data)),
    ensures
        parsed(framed(start, data, sum)) == Err::<SentenceView, Reject>(
            Reject::Checksum {
                computed: checksum(vstd::utf8::encode_utf8(data)),
                sent: sum_value(sum),
            },
        ),
{
    lemma_framed(start, data, sum);
}

/// Whatever is read as a sentence checks out: it is data behind a `$` or a
/// `!`, with the checksum of that data.
pub proof fn what_is_read_checks_out(line: Seq<char>)
    requires
        parsed(line) is Ok,
    ensures
        exists|start: char, data: Seq<char>, sum: Seq<char>|
            text::trim_end(line) == #[trigger] framed(start, data, sum) && (start == '$' || start
                == '!') && is_sum(sum) && sum_value(sum) == checksum(
                vstd::utf8::encode_utf8(data),
            ) && parsed(line) == sentence_of(data),
{
    let whole = text::trim_end(line);
    let body = whole.drop_first();
    let (data, sum) = text::rsplit_once(body, '*')->0;
    text::lemma_rsplit_some(body, '*');
    assert(whole =~= seq![whole[0]] + body);
    assert(seq![whole[0]] + (data + seq!['*'] + sum) =~= framed(whole[0], data, sum));
}

/// White space behind a line, a carriage return among it, changes nothing.
pub proof fn trailing_space_is_tolerated(line: Seq<char>, space: Seq<char>)
    requires
        forall|i: int| 0 <= i < space.len() ==> text::is_space(#[trigger] space[i]),
    ensures
        parsed(line + space) == parsed(line),
    decreases space.len(),
{
    if space.len() == 0 {
        assert(line + space =~= line);
    } else {
        let whole = line + space;
        assert(text::is_space(space[space.len() - 1]));
        assert(whole.drop_last() =~= line + space.drop_last());
        assert forall|i: int| 0 <= i < space.len() - 1 implies text::is_space(
            #[trigger] space.drop_last()[i],
        ) by {
            assert(text::is_space(space[i]));
        }
        trailing_space_is_tolerated(line, space.drop_last());
    }
}

/// One byte changed in a line changes its checksum.
pub proof fn a_changed_byte_is_caught(data: Seq<u8>, at: int, byte: u8)
    requires
        0 <= at < data.len(),
        byte != data[at],
    ensures
        checksum(data.update(at, byte)) != checksum(data),
    decreases data.len(),
{
    let changed = data.update(at, byte);
    let front = data.drop_last();
    if at == data.len() - 1 {
        assert(changed.drop_last() =~= front);
        let sum: u8 = checksum(front);
        let last: u8 = data[at];
        assert(sum ^ byte != sum ^ last) by (bit_vector)
            requires
                byte != last,
        ;
    } else {
        a_changed_byte_is_caught(front, at, byte);
        assert(changed.drop_last() =~= front.update(at, byte));
        let sum: u8 = checksum(front);
        let other: u8 = checksum(front.update(at, byte));
        let last: u8 = data.last();
        assert(other ^ last != sum ^ last) by (bit_vector)
            requires
                other != sum,
        ;
    }
}

/// The checksum ignores order, so it can't catch a moved decimal point.
pub proof fn the_checksum_ignores_order(front: Seq<u8>, a: u8, b: u8)
    ensures
        checksum(front.push(a).push(b)) == checksum(front.push(b).push(a)),
{
    let sum: u8 = checksum(front);
    assert(front.push(a).push(b).drop_last() =~= front.push(a));
    assert(front.push(a).drop_last() =~= front);
    assert(front.push(b).push(a).drop_last() =~= front.push(b));
    assert(front.push(b).drop_last() =~= front);
    assert(checksum(front.push(a)) == sum ^ a);
    assert(checksum(front.push(b)) == sum ^ b);
    assert((sum ^ a) ^ b == (sum ^ b) ^ a) by (bit_vector);
}

/// A coordinate has exactly two whole-minute digits, whatever it is: a point
/// stands behind them, or nothing. A moved decimal point is never read.
pub proof fn a_moved_point_is_never_read(
    value: Seq<char>,
    hemisphere: Seq<char>,
    degree_digits: int,
    positive: Seq<char>,
    negative: Seq<char>,
    max: nat,
)
    requires
        degree_digits >= 0,
    ensures
        coordinate_of(value, hemisphere, degree_digits, positive, negative, max) matches Some(c) ==> {
            &&& value.len() >= degree_digits + 2
            &&& forall|i: int|
                0 <= i < degree_digits + 2 ==> text::is_digit(#[trigger] value[i])
            &&& value.len() > degree_digits + 2 ==> value[degree_digits + 2] == '.'
            &&& c.degrees <= max
            &&& text::digits_value(c.minutes.take(2)) < 60
        },
{
    if let Some(c) = coordinate_of(value, hemisphere, degree_digits, positive, negative, max) {
        let degrees = value.take(degree_digits);
        let whole = value.subrange(degree_digits, degree_digits + 2);
        assert forall|i: int| 0 <= i < degree_digits + 2 implies text::is_digit(
            #[trigger] value[i],
        ) by {
            if i < degree_digits {
                assert(text::is_digit(degrees[i]));
            } else {
                assert(text::is_digit(whole[i - degree_digits]));
            }
        }
        assert(c.minutes.take(2) =~= whole);
        if value.len() > degree_digits + 2 {
            assert(value.skip(degree_digits + 2)[0] == value[degree_digits + 2]);
        }
    }
}

/// Only a real fix counts: RMC with status `A` in a mode that isn't `E`, `M`,
/// `S` or `N`, or GGA with quality 1 to 5.
pub proof fn only_a_real_fix_counts(s: SentenceView)
    ensures
        position_of(s) matches Some(p) ==> {
            &&& p.kind == Kind::Rmc ==> s.kind == "RMC"@ && p.valid == rmc_valid(s.fields)
            &&& p.kind == Kind::Gga ==> s.kind == "GGA"@ && p.valid == gga_valid(s.fields)
        },
        s.kind != "RMC"@ && s.kind != "GGA"@ ==> position_of(s) is None,
{
}

/// A coordinate means what its fields hold.
pub proof fn a_coordinate_is_viewed_as_it_is(x: Coordinate)
    ensures
        x@.negative == x.negative,
        x@.degrees == x.degrees,
        x@.minutes == x.minutes@,
{
}

/// A position means what its fields hold.
pub proof fn a_position_is_viewed_as_it_is(x: Position)
    ensures
        x@.kind == x.kind,
        x@.valid == x.valid,
        x@.lat is Some <==> x.lat is Some,
        x.lat matches Some(inner) ==> x@.lat == Some(inner@),
        x@.lon is Some <==> x.lon is Some,
        x.lon matches Some(inner) ==> x@.lon == Some(inner@),
        x@.sog_kn is Some <==> x.sog_kn is Some,
        x.sog_kn matches Some(inner) ==> x@.sog_kn == Some(inner@),
        x@.cog_deg is Some <==> x.cog_deg is Some,
        x.cog_deg matches Some(inner) ==> x@.cog_deg == Some(inner@),
        x@.utc is Some <==> x.utc is Some,
        x.utc matches Some(inner) ==> x@.utc == Some(inner@),
        x@.satellites == x.satellites,
        x@.hdop is Some <==> x.hdop is Some,
        x.hdop matches Some(inner) ==> x@.hdop == Some(inner@),
{
}

} // verus!
