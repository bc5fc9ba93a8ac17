//! What a receiver sends: NMEA 0183 sentences as they are written, field by
//! field, and the proof that reading them gives back what was written.

use crate::nmea;
use crate::nmea::{CoordinateView, Kind, Reject, SentenceView};
use crate::number;
use crate::text;
use vstd::prelude::*;

verus! {

/// A number below 100 in two digits.
pub open spec fn two_digits(n: nat) -> Seq<char> {
    seq![text::digit(n / 10), text::digit(n % 10)]
}

/// A number below 1000 in three digits.
pub open spec fn three_digits(n: nat) -> Seq<char> {
    seq![text::digit(n / 100), text::digit(n / 10 % 10), text::digit(n % 10)]
}

/// Decimals behind a point; no point where there are none.
pub open spec fn behind_a_point(decimals: Seq<char>) -> Seq<char> {
    if decimals.len() == 0 {
        decimals
    } else {
        seq!['.'] + decimals
    }
}

proof fn lemma_two_digits(n: nat)
    requires
        n < 100,
    ensures
        text::all_digits(two_digits(n)),
        text::digits_value(two_digits(n)) == n,
{
    let s = two_digits(n);
    reveal_with_fuel(text::digits_value, 3);
    assert(s.drop_last() =~= seq![text::digit(n / 10)]);
    assert(s.drop_last().drop_last() =~= Seq::<char>::empty());
}

proof fn lemma_three_digits(n: nat)
    requires
        n < 1000,
    ensures
        text::all_digits(three_digits(n)),
        text::digits_value(three_digits(n)) == n,
{
    let s = three_digits(n);
    reveal_with_fuel(text::digits_value, 4);
    assert(s.drop_last() =~= seq![text::digit(n / 100), text::digit(n / 10 % 10)]);
    assert(s.drop_last().drop_last() =~= seq![text::digit(n / 100)]);
    assert(s.drop_last().drop_last().drop_last() =~= Seq::<char>::empty());
}

proof fn lemma_behind_a_point(decimals: Seq<char>)
    requires
        number::only_digits(decimals),
    ensures
        nmea::is_fraction(behind_a_point(decimals)),
        nmea::fraction_digits(behind_a_point(decimals)) == decimals,
{
    if decimals.len() > 0 {
        assert(behind_a_point(decimals).drop_first() =~= decimals);
    }
}

/// Up to fourteen decimals are less than the fraction from which on minutes
/// read as one more.
proof fn lemma_below_a_minute(decimals: Seq<char>, i: int)
    requires
        number::only_digits(decimals),
        0 <= i <= decimals.len() <= 14,
        forall|j: int| 0 <= j < i ==> decimals[j] == '9',
    ensures
        number::fraction_less(decimals, nmea::minute_digits()),
    decreases decimals.len() - i,
{
    let limit = nmea::minute_digits();
    reveal_strlit("999999999999996447286321199499070644378662109375");
    assert(limit.len() == 48);
    assert(limit[0] == '9' && limit[1] == '9' && limit[2] == '9' && limit[3] == '9' && limit[4]
        == '9' && limit[5] == '9' && limit[6] == '9' && limit[7] == '9' && limit[8] == '9'
        && limit[9] == '9' && limit[10] == '9' && limit[11] == '9' && limit[12] == '9' && limit[13]
        == '9' && limit[14] == '6');
    assert(forall|j: int| 0 <= j < 14 ==> limit[j] == '9');
    if i < decimals.len() && decimals[i] == '9' {
        lemma_below_a_minute(decimals, i + 1);
    } else {
        if i < decimals.len() {
            assert(text::is_digit(decimals[i]));
        }
        assert(number::differs_below(decimals, limit, i));
    }
}

/// No decimals, or only zeros, are no more than what is lost past the last
/// degree.
proof fn lemma_no_slack(decimals: Seq<char>, max: nat)
    requires
        forall|i: int| 0 <= i < decimals.len() ==> decimals[i] == '0',
    ensures
        !number::fraction_less(nmea::slack_digits(max), decimals),
{
    reveal_strlit(
        "00000000000042632564145606013676622352761925277317531408904915934954260592348873615264892578125",
    );
    reveal_strlit(
        "0000000000008526512829121202735324470552385055463506281780983186990852118469774723052978515625",
    );
    let slack = nmea::slack_digits(max);
    assert forall|i: int| !(#[trigger] number::differs_below(slack, decimals, i)) by {
        if 0 <= i < slack.len() {
            assert(slack[i] >= '0');
        }
    }
}

/// A place on a line of latitude or longitude: whole degrees, whole minutes
/// and the decimals of these, to the north and east or to the south and west.
pub struct Place {
    pub negative: bool,
    pub degrees: nat,
    pub minutes: nat,
    pub decimals: Seq<char>,
}

/// A place as it can be sent: within `max` degrees and in fewer than 60
/// minutes, to at most fourteen decimals.
pub open spec fn is_place(p: Place, max: nat) -> bool {
    &&& p.minutes < 60
    &&& p.decimals.len() <= 14
    &&& forall|i: int| 0 <= i < p.decimals.len() ==> '0' <= #[trigger] p.decimals[i] <= '9'
    &&& p.degrees < max || (p.degrees == max && p.minutes == 0 && forall|i: int|
        0 <= i < p.decimals.len() ==> #[trigger] p.decimals[i] == '0')
}

/// Minutes as they are sent: two digits, and the decimals behind a point.
pub open spec fn minutes(p: Place) -> Seq<char> {
    two_digits(p.minutes) + behind_a_point(p.decimals)
}

/// What is read of a place: the sign, the degrees, and the minutes as they
/// were sent.
pub open spec fn read(p: Place) -> CoordinateView {
    CoordinateView { negative: p.negative, degrees: p.degrees, minutes: minutes(p) }
}

pub open spec fn north_or_south(p: Place) -> Seq<char> {
    if p.negative {
        "S"@
    } else {
        "N"@
    }
}

pub open spec fn east_or_west(p: Place) -> Seq<char> {
    if p.negative {
        "W"@
    } else {
        "E"@
    }
}

proof fn lemma_letters()
    ensures
        "N"@ != "S"@,
        "E"@ != "W"@,
        "RMC"@ != "GGA"@,
{
    reveal_strlit("N");
    reveal_strlit("S");
    reveal_strlit("E");
    reveal_strlit("W");
    reveal_strlit("RMC");
    reveal_strlit("GGA");
    assert("N"@[0] != "S"@[0]);
    assert("E"@[0] != "W"@[0]);
    assert("RMC"@[0] != "GGA"@[0]);
}

proof fn lemma_coordinate(
    degrees: Seq<char>,
    p: Place,
    hemisphere: Seq<char>,
    positive: Seq<char>,
    negative: Seq<char>,
    max: nat,
)
    requires
        text::all_digits(degrees),
        text::digits_value(degrees) == p.degrees,
        is_place(p, max),
        max == 90 || max == 180,
        positive != negative,
        hemisphere == (if p.negative { negative } else { positive }),
    ensures
        nmea::coordinate_of(
            degrees + minutes(p),
            hemisphere,
            degrees.len() as int,
            positive,
            negative,
            max,
        ) == Some(read(p)),
{
    let n = degrees.len() as int;
    let value = degrees + minutes(p);
    let decimals = behind_a_point(p.decimals);
    lemma_two_digits(p.minutes);
    if p.decimals.len() > 0 {
        assert forall|i: int| 0 <= i < p.decimals.len() implies text::is_digit(
            #[trigger] p.decimals[i],
        ) by {}
    }
    lemma_behind_a_point(p.decimals);
    assert(value.take(n) =~= degrees);
    assert(value.subrange(n, n + 2) =~= two_digits(p.minutes));
    assert(value.skip(n + 2) =~= decimals);
    assert(value.skip(n) =~= minutes(p));
    lemma_below_a_minute(p.decimals, 0);
    if p.degrees == max {
        lemma_no_slack(p.decimals, max);
    }
}

/// Latitude as it is sent: two digits of degrees, then the minutes.
pub open spec fn latitude(p: Place) -> Seq<char> {
    two_digits(p.degrees) + minutes(p)
}

/// Longitude as it is sent: three digits of degrees, then the minutes.
pub open spec fn longitude(p: Place) -> Seq<char> {
    three_digits(p.degrees) + minutes(p)
}

/// An RMC sentence: time, status, latitude, longitude, speed, course and
/// date, the magnetic variation, and the mode where it is sent.
pub open spec fn rmc(
    talker: Seq<char>,
    time: Seq<char>,
    status: Seq<char>,
    lat: Place,
    lon: Place,
    sog: Seq<char>,
    cog: Seq<char>,
    date: Seq<char>,
    variation: (Seq<char>, Seq<char>),
    mode: Seq<char>,
) -> SentenceView {
    SentenceView {
        talker,
        kind: "RMC"@,
        fields: seq![
            time,
            status,
            latitude(lat),
            north_or_south(lat),
            longitude(lon),
            east_or_west(lon),
            sog,
            cog,
            date,
            variation.0,
            variation.1,
            mode,
        ],
    }
}

/// A GGA sentence: time, latitude, longitude, quality, satellites, dilution,
/// and what follows them.
pub open spec fn gga(
    talker: Seq<char>,
    time: Seq<char>,
    lat: Place,
    lon: Place,
    quality: Seq<char>,
    satellites: nat,
    hdop: Seq<char>,
    rest: Seq<Seq<char>>,
) -> SentenceView {
    SentenceView {
        talker,
        kind: "GGA"@,
        fields: seq![
            time,
            latitude(lat),
            north_or_south(lat),
            longitude(lon),
            east_or_west(lon),
            quality,
            text::decimal(satellites),
            hdop,
        ] + rest,
    }
}

/// What was written in an RMC sentence is what is read from it: the place,
/// the speed and course, the time, and whether it is a fix to go by.
pub proof fn a_written_rmc_is_read(
    talker: Seq<char>,
    time: Seq<char>,
    status: Seq<char>,
    lat: Place,
    lon: Place,
    sog: Seq<char>,
    cog: Seq<char>,
    date: Seq<char>,
    variation: (Seq<char>, Seq<char>),
    mode: Seq<char>,
)
    requires
        is_place(lat, 90),
        is_place(lon, 180),
    ensures
        nmea::position_of(
            rmc(talker, time, status, lat, lon, sog, cog, date, variation, mode),
        ) matches Some(p) && {
            &&& p.kind == Kind::Rmc
            &&& p.lat == Some(read(lat))
            &&& p.lon == Some(read(lon))
            &&& p.sog_kn == number::number_of(sog)
            &&& p.cog_deg == number::number_of(cog)
            &&& p.utc == nmea::utc_of(date, time)
            &&& p.satellites is None
            &&& p.hdop is None
            &&& p.valid <==> status == seq!['A'] && mode != seq!['E'] && mode != seq!['M'] && mode
                != seq!['S'] && mode != seq!['N']
        },
{
    lemma_letters();
    lemma_two_digits(lat.degrees);
    lemma_three_digits(lon.degrees);
    lemma_coordinate(two_digits(lat.degrees), lat, north_or_south(lat), "N"@, "S"@, 90);
    lemma_coordinate(three_digits(lon.degrees), lon, east_or_west(lon), "E"@, "W"@, 180);
    reveal_strlit("A");
    reveal_strlit("E");
    reveal_strlit("M");
    reveal_strlit("S");
    reveal_strlit("N");
    assert("A"@ =~= seq!['A']);
    assert("E"@ =~= seq!['E']);
    assert("M"@ =~= seq!['M']);
    assert("S"@ =~= seq!['S']);
    assert("N"@ =~= seq!['N']);
}

/// What was written in a GGA sentence is what is read from it: the place, the
/// satellites, the dilution, and whether it is a fix to go by.
pub proof fn a_written_gga_is_read(
    talker: Seq<char>,
    time: Seq<char>,
    lat: Place,
    lon: Place,
    quality: Seq<char>,
    satellites: nat,
    hdop: Seq<char>,
    rest: Seq<Seq<char>>,
)
    requires
        is_place(lat, 90),
        is_place(lon, 180),
    ensures
        nmea::position_of(
            gga(talker, time, lat, lon, quality, satellites, hdop, rest),
        ) matches Some(p) && {
            &&& p.kind == Kind::Gga
            &&& p.lat == Some(read(lat))
            &&& p.lon == Some(read(lon))
            &&& p.satellites == (if satellites < 256 {
                Some(satellites as u8)
            } else {
                None
            })
            &&& p.hdop == number::number_of(hdop)
            &&& p.sog_kn is None
            &&& p.cog_deg is None
            &&& p.utc is None
            &&& p.valid <==> quality == seq!['1'] || quality == seq!['2'] || quality == seq!['3']
                || quality == seq!['4'] || quality == seq!['5']
        },
{
    lemma_letters();
    lemma_two_digits(lat.degrees);
    lemma_three_digits(lon.degrees);
    lemma_coordinate(two_digits(lat.degrees), lat, north_or_south(lat), "N"@, "S"@, 90);
    lemma_coordinate(three_digits(lon.degrees), lon, east_or_west(lon), "E"@, "W"@, 180);
    text::lemma_decimal(satellites);
    text::lemma_unsigned_digits(text::decimal(satellites), 255);
    reveal_strlit("1");
    reveal_strlit("2");
    reveal_strlit("3");
    reveal_strlit("4");
    reveal_strlit("5");
    assert("1"@ =~= seq!['1']);
    assert("2"@ =~= seq!['2']);
    assert("3"@ =~= seq!['3']);
    assert("4"@ =~= seq!['4']);
    assert("5"@ =~= seq!['5']);
}

/// The four fields of a place in a sentence of either kind: latitude and its
/// hemisphere, longitude and its hemisphere.
pub open spec fn place_fields(s: SentenceView) -> Seq<Seq<char>> {
    if s.kind == "RMC"@ {
        seq![
            nmea::field(s.fields, 2),
            nmea::field(s.fields, 3),
            nmea::field(s.fields, 4),
            nmea::field(s.fields, 5),
        ]
    } else {
        seq![
            nmea::field(s.fields, 1),
            nmea::field(s.fields, 2),
            nmea::field(s.fields, 3),
            nmea::field(s.fields, 4),
        ]
    }
}

/// Whatever sentence it comes from, a latitude that is read is south where its
/// hemisphere is `S` and north where it is `N`, and a longitude is west where
/// its hemisphere is `W` and east where it is `E`; with any other letter there
/// is none.
pub proof fn the_hemisphere_gives_the_sign(s: SentenceView)
    ensures
        nmea::position_of(s) matches Some(p) ==> {
            &&& p.lat matches Some(c) ==> {
                &&& c.negative <==> place_fields(s)[1] == seq!['S']
                &&& !c.negative <==> place_fields(s)[1] == seq!['N']
            }
            &&& p.lon matches Some(c) ==> {
                &&& c.negative <==> place_fields(s)[3] == seq!['W']
                &&& !c.negative <==> place_fields(s)[3] == seq!['E']
            }
        },
{
    lemma_letters();
    reveal_strlit("N");
    reveal_strlit("S");
    reveal_strlit("E");
    reveal_strlit("W");
    assert("N"@ =~= seq!['N']);
    assert("S"@ =~= seq!['S']);
    assert("E"@ =~= seq!['E']);
    assert("W"@ =~= seq!['W']);
}

/// An RMC and a GGA with the same fields for the place are at the same place.
pub proof fn both_kinds_read_a_place_alike(r: SentenceView, g: SentenceView)
    requires
        r.kind == "RMC"@,
        g.kind == "GGA"@,
        nmea::field(r.fields, 2) == nmea::field(g.fields, 1),
        nmea::field(r.fields, 3) == nmea::field(g.fields, 2),
        nmea::field(r.fields, 4) == nmea::field(g.fields, 3),
        nmea::field(r.fields, 5) == nmea::field(g.fields, 4),
    ensures
        nmea::position_of(r) is Some,
        nmea::position_of(g) is Some,
        nmea::position_of(r)->0.lat == nmea::position_of(g)->0.lat,
        nmea::position_of(r)->0.lon == nmea::position_of(g)->0.lon,
{
    lemma_letters();
}

/// A place that is read is what the fields say, digit for digit: the degrees
/// are the first digits, two of latitude and three of longitude, and the
/// minutes all that follows.
pub proof fn a_place_is_read_digit_for_digit(s: SentenceView)
    ensures
        nmea::position_of(s) matches Some(p) ==> {
            &&& p.lat matches Some(c) ==> {
                let value = place_fields(s)[0];
                &&& text::digits_value(value.take(2)) == c.degrees
                &&& value.skip(2) == c.minutes
                &&& c.degrees <= 90
                &&& c.degrees == 90 ==> text::digits_value(c.minutes.take(2)) == 0
            }
            &&& p.lon matches Some(c) ==> {
                let value = place_fields(s)[2];
                &&& text::digits_value(value.take(3)) == c.degrees
                &&& value.skip(3) == c.minutes
                &&& c.degrees <= 180
                &&& c.degrees == 180 ==> text::digits_value(c.minutes.take(2)) == 0
            }
        },
{
    let f = place_fields(s);
    if f[0].len() >= 4 {
        assert(f[0].skip(2).take(2) =~= f[0].subrange(2, 4));
    }
    if f[2].len() >= 5 {
        assert(f[2].skip(3).take(2) =~= f[2].subrange(3, 5));
    }
}

/// Sixty minutes or more, and a degree or a minute past the last degree, are
/// no place.
pub proof fn a_place_off_the_globe_is_not_read(
    value: Seq<char>,
    hemisphere: Seq<char>,
    degrees: nat,
    minutes: nat,
    decimals: Seq<char>,
)
    requires
        degrees < 100,
        minutes < 100,
        minutes >= 60 || degrees > 90 || (degrees == 90 && minutes > 0),
        value == two_digits(degrees) + two_digits(minutes) + decimals,
    ensures
        nmea::coordinate_of(value, hemisphere, 2, "N"@, "S"@, 90) is None,
{
    lemma_two_digits(degrees);
    lemma_two_digits(minutes);
    assert(value.take(2) =~= two_digits(degrees));
    assert(value.subrange(2, 4) =~= two_digits(minutes));
}

/// How many days a month has: 28 in February, 29 in every fourth year, and in
/// the others 31 and 30 by turns, with 31 in both July and August.
pub open spec fn month_days(year: nat, month: nat) -> nat {
    if month == 2 {
        if year % 4 == 0 {
            29
        } else {
            28
        }
    } else {
        30 + (month + month / 8) % 2
    }
}

proof fn lemma_month_days(year: nat, month: nat)
    requires
        1980 <= year <= 2079,
        month < 100,
    ensures
        1 <= month <= 12 ==> nmea::days_in(year, month) == month_days(year, month),
        !(1 <= month <= 12) ==> nmea::days_in(year, month) == 0,
        nmea::century(year % 100) + year % 100 == year,
        year / 100 == (if year % 100 >= 80 {
            19nat
        } else {
            20nat
        }),
{
}

/// Three numbers of two digits each, and what follows them.
proof fn lemma_six_digits(a: nat, b: nat, c: nat, rest: Seq<char>)
    requires
        a < 100,
        b < 100,
        c < 100,
    ensures
        ({
            let s = two_digits(a) + two_digits(b) + two_digits(c) + rest;
            &&& s.len() == 6 + rest.len()
            &&& s.subrange(0, 2) == two_digits(a)
            &&& s.subrange(2, 4) == two_digits(b)
            &&& s.subrange(4, 6) == two_digits(c)
            &&& nmea::two(s, 0) == a
            &&& nmea::two(s, 2) == b
            &&& nmea::two(s, 4) == c
            &&& text::all_digits(s.take(6))
            &&& s.skip(6) == rest
        }),
{
    let s = two_digits(a) + two_digits(b) + two_digits(c) + rest;
    lemma_two_digits(a);
    lemma_two_digits(b);
    lemma_two_digits(c);
    assert(s.subrange(0, 2) =~= two_digits(a));
    assert(s.subrange(2, 4) =~= two_digits(b));
    assert(s.subrange(4, 6) =~= two_digits(c));
    assert(s.skip(6) =~= rest);
    assert forall|i: int| 0 <= i < 6 implies text::is_digit(#[trigger] s.take(6)[i]) by {
        assert(s.take(6)[i] == s[i]);
        if i < 2 {
            assert(text::is_digit(two_digits(a)[i]));
        } else if i < 4 {
            assert(text::is_digit(two_digits(b)[i - 2]));
        } else {
            assert(text::is_digit(two_digits(c)[i - 4]));
        }
    }
}

/// A date and a time of day as RMC sends them are read as that moment, from
/// 1980 to 2079, to the second; one that doesn't exist isn't read. A leap
/// second does.
#[verifier::spinoff_prover]
pub proof fn a_written_moment_is_read(
    year: nat,
    month: nat,
    day: nat,
    hour: nat,
    minute: nat,
    second: nat,
    decimals: Seq<char>,
)
    requires
        1980 <= year <= 2079,
        month < 100,
        day < 100,
        hour < 100,
        minute < 100,
        second < 100,
        number::only_digits(decimals),
    ensures
        nmea::utc_of(
            two_digits(day) + two_digits(month) + two_digits(year % 100),
            two_digits(hour) + two_digits(minute) + two_digits(second) + behind_a_point(decimals),
        ) == (if 1 <= month <= 12 && 1 <= day <= month_days(year, month) && hour < 24 && minute
            < 60 && second <= 60 {
            Some(
                two_digits(year / 100) + two_digits(year % 100) + seq!['-'] + two_digits(month)
                    + seq!['-'] + two_digits(day) + seq!['T'] + two_digits(hour) + seq![':']
                    + two_digits(minute) + seq![':'] + two_digits(second) + seq!['Z'],
            )
        } else {
            None
        }),
{
    let date = two_digits(day) + two_digits(month) + two_digits(year % 100);
    let fraction = behind_a_point(decimals);
    let time = two_digits(hour) + two_digits(minute) + two_digits(second) + fraction;
    let none = Seq::<char>::empty();
    lemma_six_digits(day, month, year % 100, none);
    lemma_six_digits(hour, minute, second, fraction);
    lemma_behind_a_point(decimals);
    lemma_month_days(year, month);
    assert(date + none =~= date);
    assert(date.take(6) =~= date);
    lemma_marks();
}

proof fn lemma_marks()
    ensures
        "19"@ == two_digits(19),
        "20"@ == two_digits(20),
        "-"@ == seq!['-'],
        "T"@ == seq!['T'],
        ":"@ == seq![':'],
        "Z"@ == seq!['Z'],
{
    reveal_strlit("19");
    reveal_strlit("20");
    reveal_strlit("-");
    reveal_strlit("T");
    reveal_strlit(":");
    reveal_strlit("Z");
}

/// The digits of hexadecimal, in capitals or not.
pub open spec fn hex_digit(v: nat, capital: bool) -> char {
    (if v < 10 {
        48 + v
    } else if capital {
        55 + v
    } else {
        87 + v
    }) as char
}

/// A checksum as it is sent: two hexadecimal digits.
pub open spec fn sum_text(sum: u8, capital: bool) -> Seq<char> {
    seq![hex_digit(sum as nat / 16, capital), hex_digit(sum as nat % 16, capital)]
}

/// A checksum that is sent is the one that is read, in capitals or not.
pub proof fn a_checksum_is_read_as_sent(sum: u8, capital: bool)
    ensures
        nmea::is_sum(sum_text(sum, capital)),
        nmea::sum_value(sum_text(sum, capital)) == sum,
{
}

/// Every two digits that make a checksum are the digits of the byte that they
/// are read as.
pub proof fn a_checksum_has_its_digits(s: Seq<char>)
    requires
        nmea::is_sum(s),
    ensures
        s.len() == 2,
        s[0] == hex_digit(nmea::sum_value(s) as nat / 16, s[0] <= 'F'),
        s[1] == hex_digit(nmea::sum_value(s) as nat % 16, s[1] <= 'F'),
{
}

/// The checksum of data is that of its parts combined; of one byte it is the
/// byte, of none 0. Combined with itself it is 0.
pub proof fn checksums_combine(a: Seq<u8>, b: Seq<u8>, byte: u8)
    ensures
        nmea::checksum(a + b) == nmea::checksum(a) ^ nmea::checksum(b),
        nmea::checksum(seq![byte]) == byte,
        nmea::checksum(Seq::<u8>::empty()) == 0,
        nmea::checksum(a + a) == 0,
    decreases b.len(),
{
    lemma_combine(a, b);
    lemma_combine(a, a);
    let one = seq![byte];
    assert(one.drop_last() =~= Seq::<u8>::empty());
    assert(nmea::checksum(one.drop_last()) == 0);
    assert(0u8 ^ byte == byte) by (bit_vector);
    let sum: u8 = nmea::checksum(a);
    assert(sum ^ sum == 0u8) by (bit_vector);
}

proof fn lemma_combine(a: Seq<u8>, b: Seq<u8>)
    ensures
        nmea::checksum(a + b) == nmea::checksum(a) ^ nmea::checksum(b),
    decreases b.len(),
{
    let x: u8 = nmea::checksum(a);
    if b.len() == 0 {
        assert(a + b =~= a);
        assert(x ^ 0u8 == x) by (bit_vector);
    } else {
        lemma_combine(a, b.drop_last());
        assert((a + b).drop_last() =~= a + b.drop_last());
        let y: u8 = nmea::checksum(b.drop_last());
        let z: u8 = b.last();
        assert((x ^ y) ^ z == x ^ (y ^ z)) by (bit_vector);
    }
}

/// The data of a sentence: its address, and each field behind a comma.
pub open spec fn data(talker: Seq<char>, kind: Seq<char>, fields: Seq<Seq<char>>) -> Seq<char> {
    text::joined(seq![talker + kind] + fields, ',')
}

/// Letters and digits.
pub open spec fn is_plain(s: Seq<char>) -> bool {
    forall|i: int|
        0 <= i < s.len() ==> '0' <= #[trigger] s[i] <= '9' || 'A' <= s[i] <= 'Z' || 'a' <= s[i]
            <= 'z'
}

/// A sentence that is sent with the checksum of its data is read as it was
/// written: the talker, the kind and every field, the empty ones too.
pub proof fn a_sent_sentence_is_read(
    start: char,
    talker: Seq<char>,
    kind: Seq<char>,
    fields: Seq<Seq<char>>,
    capital: bool,
)
    requires
        start == '$' || start == '!',
        talker.len() == 2,
        kind.len() > 0,
        is_plain(talker),
        is_plain(kind),
        forall|i: int| 0 <= i < fields.len() ==> !(#[trigger] fields[i]).contains(','),
    ensures
        ({
            let said = data(talker, kind, fields);
            let sum = nmea::checksum(vstd::utf8::encode_utf8(said));
            nmea::parsed(seq![start] + said + seq!['*'] + sum_text(sum, capital)) == Ok::<
                SentenceView,
                Reject,
            >(SentenceView { talker, kind, fields })
        }),
{
    let said = data(talker, kind, fields);
    let sum = nmea::checksum(vstd::utf8::encode_utf8(said));
    let address = talker + kind;
    let parts = seq![address] + fields;
    assert forall|i: int| 0 <= i < address.len() implies nmea::is_alphanumeric(
        #[trigger] address[i],
    ) by {
        if i < 2 {
            assert(address[i] == talker[i]);
        } else {
            assert(address[i] == kind[i - 2]);
        }
    }
    assert forall|i: int| 0 <= i < parts.len() implies !(#[trigger] parts[i]).contains(',') by {
        if i == 0 {
            if address.contains(',') {
                let k: int = choose|k: int| 0 <= k < address.len() && address[k] == ',';
                assert(nmea::is_alphanumeric(address[k]));
            }
        } else {
            assert(parts[i] == fields[i - 1]);
        }
    }
    text::what_is_joined_comes_apart(parts, ',');
    assert(address.take(2) =~= talker);
    assert(address.skip(2) =~= kind);
    assert(parts.skip(1) =~= fields);
    a_checksum_is_read_as_sent(sum, capital);
    nmea::a_framed_sentence_is_read(start, said, sum_text(sum, capital));
    assert(nmea::framed(start, said, sum_text(sum, capital)) =~= seq![start] + said + seq!['*']
        + sum_text(sum, capital));
}

/// A line that doesn't start with `$` or `!`, that has no `*`, or whose last
/// `*` isn't followed by two hexadecimal digits, is no sentence.
pub proof fn what_is_not_framed_is_not_read(line: Seq<char>, before: Seq<char>, sum: Seq<char>)
    requires
        line.len() > 0 ==> !text::is_space(line.last()),
        ({
            ||| line.len() == 0
            ||| line[0] != '$' && line[0] != '!'
            ||| !line.drop_first().contains('*')
            ||| line.drop_first() == before + seq!['*'] + sum && !sum.contains('*')
                && !nmea::is_sum(sum)
        }),
    ensures
        nmea::parsed(line) == Err::<SentenceView, Reject>(Reject::Framing),
{
    text::lemma_trim_end_ends(line);
    if line.len() > 0 && line.drop_first() == before + seq!['*'] + sum && !sum.contains('*') {
        text::text_parts_at_the_last(before, sum, '*');
    }
}

/// Data without an address of two letters or digits and then one or more is
/// no sentence, whatever its checksum.
pub proof fn what_has_no_address_is_not_read(address: Seq<char>, fields: Seq<Seq<char>>)
    requires
        address.len() < 3 || !is_plain(address),
        !address.contains(','),
        forall|i: int| 0 <= i < fields.len() ==> !(#[trigger] fields[i]).contains(','),
    ensures
        nmea::sentence_of(text::joined(seq![address] + fields, ',')) == Err::<SentenceView, Reject>(
            Reject::Framing,
        ),
{
    let parts = seq![address] + fields;
    assert forall|i: int| 0 <= i < parts.len() implies !(#[trigger] parts[i]).contains(',') by {
        if i > 0 {
            assert(parts[i] == fields[i - 1]);
        }
    }
    text::what_is_joined_comes_apart(parts, ',');
    if address.len() >= 3 {
        let i: int = choose|i: int|
            0 <= i < address.len() && !('0' <= #[trigger] address[i] <= '9' || 'A' <= address[i]
                <= 'Z' || 'a' <= address[i] <= 'z');
        assert(!nmea::is_alphanumeric(address[i]));
    }
}

/// Fifteen nines behind 59 minutes, and more, are so close to 60 that they
/// are read as 60, which is no place.
pub proof fn almost_sixty_minutes_are_not_read(
    degrees: nat,
    decimals: Seq<char>,
    hemisphere: Seq<char>,
)
    requires
        degrees < 90,
        number::only_digits(decimals),
        decimals.len() >= 15,
        forall|i: int| 0 <= i < 15 ==> #[trigger] decimals[i] == '9',
    ensures
        nmea::coordinate_of(
            two_digits(degrees) + two_digits(59) + seq!['.'] + decimals,
            hemisphere,
            2,
            "N"@,
            "S"@,
            90,
        ) is None,
{
    let value = two_digits(degrees) + two_digits(59) + seq!['.'] + decimals;
    lemma_two_digits(degrees);
    lemma_two_digits(59);
    lemma_behind_a_point(decimals);
    assert(value.take(2) =~= two_digits(degrees));
    assert(value.subrange(2, 4) =~= two_digits(59));
    assert(value.skip(4) =~= behind_a_point(decimals));
    let limit = nmea::minute_digits();
    reveal_strlit("999999999999996447286321199499070644378662109375");
    assert forall|i: int| !(#[trigger] number::differs_below(decimals, limit, i)) by {
        if number::differs_below(decimals, limit, i) {
            assert(decimals[14] == '9');
            assert(limit[14] == '6');
            if i <= 14 {
                assert(decimals[i] == '9');
                assert(limit[i] <= '9');
            } else {
                assert(number::digit_at(decimals, 14) == number::digit_at(limit, 14));
            }
        }
    }
}

/// Whatever a dozen decimals can say past the last degree is past the pole, or
/// past the line opposite Greenwich.
pub proof fn past_the_last_degree_is_not_read(
    decimals: Seq<char>,
    hemisphere: Seq<char>,
    at: int,
)
    requires
        number::only_digits(decimals),
        0 <= at < 12,
        at < decimals.len(),
        decimals[at] != '0',
    ensures
        nmea::coordinate_of(
            two_digits(90) + two_digits(0) + seq!['.'] + decimals,
            hemisphere,
            2,
            "N"@,
            "S"@,
            90,
        ) is None,
        nmea::coordinate_of(
            three_digits(180) + two_digits(0) + seq!['.'] + decimals,
            hemisphere,
            3,
            "E"@,
            "W"@,
            180,
        ) is None,
{
    let lat = two_digits(90) + two_digits(0) + seq!['.'] + decimals;
    let lon = three_digits(180) + two_digits(0) + seq!['.'] + decimals;
    lemma_two_digits(90);
    lemma_two_digits(0);
    lemma_three_digits(180);
    lemma_behind_a_point(decimals);
    assert(lat.take(2) =~= two_digits(90));
    assert(lat.subrange(2, 4) =~= two_digits(0));
    assert(lat.skip(4) =~= behind_a_point(decimals));
    assert(lon.take(3) =~= three_digits(180));
    assert(lon.subrange(3, 5) =~= two_digits(0));
    assert(lon.skip(5) =~= behind_a_point(decimals));
    lemma_slack(decimals, at, 90);
    lemma_slack(decimals, at, 180);
}

proof fn lemma_slack(decimals: Seq<char>, at: int, max: nat)
    requires
        number::only_digits(decimals),
        0 <= at < 12,
        at < decimals.len(),
        decimals[at] != '0',
    ensures
        number::fraction_less(nmea::slack_digits(max), decimals),
    decreases at,
{
    reveal_strlit(
        "00000000000042632564145606013676622352761925277317531408904915934954260592348873615264892578125",
    );
    reveal_strlit(
        "0000000000008526512829121202735324470552385055463506281780983186990852118469774723052978515625",
    );
    let slack = nmea::slack_digits(max);
    assert(forall|j: int| 0 <= j < 12 ==> slack[j] == '0');
    if exists|k: int| 0 <= k < at && decimals[k] != '0' {
        let k: int = choose|k: int| 0 <= k < at && decimals[k] != '0';
        lemma_slack(decimals, k, max);
    } else {
        assert(text::is_digit(decimals[at]));
        assert(number::differs_below(slack, decimals, at));
    }
}

/// What is read as a moment is six digits of a date and six of a time, behind
/// which a point and decimals may follow.
pub proof fn a_moment_has_its_digits(date: Seq<char>, time: Seq<char>)
    ensures
        nmea::utc_of(date, time) is Some ==> {
            &&& date.len() == 6
            &&& time.len() >= 6
            &&& forall|i: int| 0 <= i < 6 ==> '0' <= #[trigger] date[i] <= '9'
            &&& forall|i: int| 0 <= i < 6 ==> '0' <= #[trigger] time[i] <= '9'
            &&& time.len() > 6 ==> time[6] == '.' && time.len() > 7
            &&& forall|i: int| 6 < i < time.len() ==> '0' <= #[trigger] time[i] <= '9'
        },
{
    if nmea::utc_of(date, time) is Some {
        assert forall|i: int| 0 <= i < 6 implies '0' <= #[trigger] date[i] <= '9' by {
            assert(text::is_digit(date[i]));
        }
        assert forall|i: int| 0 <= i < 6 implies '0' <= #[trigger] time[i] <= '9' by {
            assert(text::is_digit(time.take(6)[i]));
        }
        if time.len() > 6 {
            let rest = time.skip(6);
            assert(rest[0] == time[6]);
            assert forall|i: int| 6 < i < time.len() implies '0' <= #[trigger] time[i] <= '9' by {
                assert(text::is_digit(rest.drop_first()[i - 7]));
            }
        }
    }
}

} // verus!
