//! AIS: what ships radio about themselves, as `!AIVDM` sentences from a
//! receiver like the dAISy. Decodes position reports (types 1, 2, 3, 18 and
//! 19) and particulars (types 5, 19 and 24), per ITU-R M.1371. Own-ship
//! `!AIVDO` is left out: a target list shouldn't hold us.

use crate::nmea;
use crate::nmea::{Sentence, SentenceView};
use crate::text;
use vstd::arithmetic::power2::*;
use vstd::prelude::*;
use vstd::string::*;

verus! {

/// Multi-sentence messages waiting for their other sentences. A few at
/// once, since messages on channels A and B interleave.
pub const PENDING: usize = 4;

#[derive(Debug, Clone, Copy, PartialEq, Eq, Structural)]
pub enum Class {
    /// Ships: the full transponder, reporting every 2 to 10 seconds under way.
    A,
    /// Small craft: every 30 seconds to 3 minutes.
    B,
}

/// A position report, in the units it was sent in.
#[derive(Debug, Clone, Copy, PartialEq, Eq)]
pub struct Position {
    pub mmsi: u32,
    pub class: Class,
    /// Navigational status 0 to 15, which only class A sends.
    pub status: Option<u8>,
    /// In 1/600,000 of a degree; south is negative.
    pub lat: i32,
    /// In 1/600,000 of a degree; west is negative.
    pub lon: i32,
    /// In tenths of a knot.
    pub sog_tenths: Option<u16>,
    /// In tenths of a degree.
    pub cog_tenths: Option<u16>,
    pub heading_deg: Option<u16>,
}

/// A vessel's particulars. Each message carries only some of them.
#[derive(Debug, PartialEq)]
pub struct Particulars {
    pub mmsi: u32,
    pub name: Option<String>,
    pub callsign: Option<String>,
    pub ship_type: Option<u8>,
    pub length_m: Option<u16>,
    pub beam_m: Option<u16>,
    pub destination: Option<String>,
}

pub struct ParticularsView {
    pub mmsi: u32,
    pub name: Option<Seq<char>>,
    pub callsign: Option<Seq<char>>,
    pub ship_type: Option<u8>,
    pub length_m: Option<u16>,
    pub beam_m: Option<u16>,
    pub destination: Option<Seq<char>>,
}

impl View for Particulars {
    type V = ParticularsView;

    open spec fn view(&self) -> ParticularsView {
        ParticularsView {
            mmsi: self.mmsi,
            name: text::text_of(self.name),
            callsign: text::text_of(self.callsign),
            ship_type: self.ship_type,
            length_m: self.length_m,
            beam_m: self.beam_m,
            destination: text::text_of(self.destination),
        }
    }
}

impl Default for Particulars {
    fn default() -> (p: Particulars)
        ensures
            p.mmsi == 0,
            p@ == no_particulars(0),
    {
        Particulars {
            mmsi: 0,
            name: None,
            callsign: None,
            ship_type: None,
            length_m: None,
            beam_m: None,
            destination: None,
        }
    }
}

/// Nothing known of a vessel but its number.
pub open spec fn no_particulars(mmsi: u32) -> ParticularsView {
    ParticularsView {
        mmsi,
        name: None,
        callsign: None,
        ship_type: None,
        length_m: None,
        beam_m: None,
        destination: None,
    }
}

#[derive(Debug, PartialEq)]
pub enum Report {
    Position(Position),
    Particulars(Particulars),
}

pub enum ReportView {
    Position(Position),
    Particulars(ParticularsView),
}

impl View for Report {
    type V = ReportView;

    open spec fn view(&self) -> ReportView {
        match *self {
            Report::Position(p) => ReportView::Position(p),
            Report::Particulars(p) => ReportView::Particulars(p@),
        }
    }
}

/// What each report in a list says.
pub open spec fn told(reports: Seq<Report>) -> Seq<ReportView> {
    Seq::new(reports.len(), |i: int| reports[i]@)
}

/// The six bits a payload character stands for, as a number.
pub open spec fn armor_value(c: char) -> Option<int> {
    if '0' <= c <= 'W' {
        Some(c as int - '0' as int)
    } else if '`' <= c <= 'w' {
        Some(c as int - '`' as int + 40)
    } else {
        None
    }
}

/// A number's six bits, most significant first.
pub open spec fn six_bits(v: int) -> Seq<bool> {
    seq![
        v / 32 % 2 == 1,
        v / 16 % 2 == 1,
        v / 8 % 2 == 1,
        v / 4 % 2 == 1,
        v / 2 % 2 == 1,
        v % 2 == 1,
    ]
}

/// A payload's bits, six to a character; none where one isn't six-bit.
pub open spec fn unarmored(payload: Seq<char>) -> Option<Seq<bool>>
    decreases payload.len(),
{
    if payload.len() == 0 {
        Some(Seq::empty())
    } else {
        match (unarmored(payload.drop_last()), armor_value(payload.last())) {
            (Some(bits), Some(v)) => Some(bits + six_bits(v)),
            _ => None,
        }
    }
}

/// A payload's bits less its fill. Fill pads the last character, so it runs
/// 0 to 5.
pub open spec fn bits_of(payload: Seq<char>, fill: nat) -> Option<Seq<bool>> {
    match unarmored(payload) {
        Some(bits) => if fill <= 5 && fill <= bits.len() {
            Some(bits.take(bits.len() - fill))
        } else {
            None
        },
        None => None,
    }
}

/// The number that bits write, most significant first.
pub open spec fn bits_value(bits: Seq<bool>) -> nat
    decreases bits.len(),
{
    if bits.len() == 0 {
        0
    } else {
        2 * bits_value(bits.drop_last()) + (if bits.last() {
            1nat
        } else {
            0nat
        })
    }
}

/// The unsigned number in `len` bits from `start` on.
pub open spec fn uint_at(bits: Seq<bool>, start: int, len: int) -> Option<nat> {
    if start + len <= bits.len() {
        Some(bits_value(bits.subrange(start, start + len)))
    } else {
        None
    }
}

/// The two's complement number in `len` bits from `start` on.
pub open spec fn int_at(bits: Seq<bool>, start: int, len: int) -> Option<int> {
    match uint_at(bits, start, len) {
        Some(n) => if bits[start] {
            Some(n - pow2(len as nat))
        } else {
            Some(n as int)
        },
        None => None,
    }
}

/// A six-bit character: `@` to `_`, then space to `?`.
pub open spec fn six_char(v: nat) -> char {
    (if v < 32 {
        v + 64
    } else {
        v
    }) as char
}

/// At most `count` six-bit characters, up to the first `@`.
pub open spec fn six_text(bits: Seq<bool>, start: int, count: nat) -> Option<Seq<char>>
    decreases count,
{
    if count == 0 {
        Some(Seq::empty())
    } else {
        match uint_at(bits, start, 6) {
            None => None,
            Some(v) => if v == 0 {
                Some(Seq::empty())
            } else {
                match six_text(bits, start + 6, (count - 1) as nat) {
                    Some(rest) => Some(seq![six_char(v)] + rest),
                    None => None,
                }
            },
        }
    }
}

/// Six-bit text: `@` pads the end, and trailing spaces go too. None where
/// nothing is left.
pub open spec fn text_at(bits: Seq<bool>, start: int, count: nat) -> Option<Seq<char>> {
    match six_text(bits, start, count) {
        Some(t) => if text::trim_end(t).len() > 0 {
            Some(text::trim_end(t))
        } else {
            None
        },
        None => None,
    }
}

/// The sum of two numbers of `len` bits each, one after the other. Zeros
/// mean not available.
pub open spec fn sum_at(bits: Seq<bool>, at: int, len: int) -> Option<u16> {
    match (uint_at(bits, at, len), uint_at(bits, at + len, len)) {
        (Some(a), Some(b)) => if a + b > 0 {
            Some((a + b) as u16)
        } else {
            None
        },
        _ => None,
    }
}

/// The ship type code at `at`. Zero means not available.
pub open spec fn ship_type_at(bits: Seq<bool>, at: int) -> Option<u8> {
    match uint_at(bits, at, 8) {
        Some(t) => if t != 0 {
            Some(t as u8)
        } else {
            None
        },
        None => None,
    }
}

/// A number of `len` bits at `at`, where it is below `limit`.
pub open spec fn below_at(bits: Seq<bool>, at: int, len: int, limit: nat) -> Option<u16> {
    match uint_at(bits, at, len) {
        Some(v) => if v < limit {
            Some(v as u16)
        } else {
            None
        },
        None => None,
    }
}

/// Every position report has the same run from speed on: SOG (10 bits),
/// accuracy (1), longitude (28), latitude (27), COG (12), heading (9). 181
/// and 91 degrees mean not available, and so do 1023, 3600 and 511.
pub open spec fn position_at(
    bits: Seq<bool>,
    mmsi: u32,
    class: Class,
    status: Option<u8>,
    sog_at: int,
) -> Option<Position> {
    match (int_at(bits, sog_at + 11, 28), int_at(bits, sog_at + 39, 27)) {
        (Some(lon), Some(lat)) => if -108_000_000 <= lon <= 108_000_000 && -54_000_000 <= lat
            <= 54_000_000 {
            Some(
                Position {
                    mmsi,
                    class,
                    status,
                    lat: lat as i32,
                    lon: lon as i32,
                    sog_tenths: below_at(bits, sog_at, 10, 1023),
                    cog_tenths: below_at(bits, sog_at + 66, 12, 3600),
                    heading_deg: below_at(bits, sog_at + 78, 9, 360),
                },
            )
        } else {
            None
        },
        _ => None,
    }
}

pub open spec fn position_reports(p: Option<Position>) -> Seq<ReportView> {
    match p {
        Some(p) => seq![ReportView::Position(p)],
        None => Seq::empty(),
    }
}

/// An auxiliary craft: MMSI 98...
pub open spec fn is_auxiliary(mmsi: u32) -> bool {
    980_000_000 <= mmsi < 990_000_000
}

/// What a whole message's bits report. A message shorter than its type's
/// full length is dropped rather than read with missing fields.
pub open spec fn reports_of(bits: Seq<bool>) -> Seq<ReportView> {
    match (uint_at(bits, 8, 30), uint_at(bits, 0, 6)) {
        (Some(number), Some(kind)) => {
            let mmsi: u32 = number as u32;
            if number == 0 {
                Seq::empty()
            } else if 1 <= kind <= 3 && bits.len() >= 168 {
                let status = below_at(bits, 38, 4, 16);
                position_reports(
                    position_at(
                        bits,
                        mmsi,
                        Class::A,
                        match status {
                            Some(s) => Some(s as u8),
                            None => None,
                        },
                        50,
                    ),
                )
            } else if kind == 18 && bits.len() >= 168 {
                position_reports(position_at(bits, mmsi, Class::B, None, 46))
            } else if kind == 19 && bits.len() >= 312 {
                position_reports(position_at(bits, mmsi, Class::B, None, 46)).push(
                    ReportView::Particulars(
                        ParticularsView {
                            name: text_at(bits, 143, 20),
                            ship_type: ship_type_at(bits, 263),
                            length_m: sum_at(bits, 271, 9),
                            beam_m: sum_at(bits, 289, 6),
                            ..no_particulars(mmsi)
                        },
                    ),
                )
            } else if kind == 5 && bits.len() >= 422 {
                seq![
                    ReportView::Particulars(
                        ParticularsView {
                            mmsi,
                            callsign: text_at(bits, 70, 7),
                            name: text_at(bits, 112, 20),
                            ship_type: ship_type_at(bits, 232),
                            length_m: sum_at(bits, 240, 9),
                            beam_m: sum_at(bits, 258, 6),
                            destination: text_at(bits, 302, 20),
                        },
                    ),
                ]
            } else if kind == 24 && uint_at(bits, 38, 2) == Some(0nat) && bits.len() >= 160 {
                seq![
                    ReportView::Particulars(
                        ParticularsView { name: text_at(bits, 40, 20), ..no_particulars(mmsi) },
                    ),
                ]
            } else if kind == 24 && uint_at(bits, 38, 2) == Some(1nat) && bits.len() >= 162 {
                seq![
                    ReportView::Particulars(
                        ParticularsView {
                            ship_type: ship_type_at(bits, 40),
                            callsign: text_at(bits, 90, 7),
                            length_m: if is_auxiliary(mmsi) {
                                None
                            } else {
                                sum_at(bits, 132, 9)
                            },
                            beam_m: if is_auxiliary(mmsi) {
                                None
                            } else {
                                sum_at(bits, 150, 6)
                            },
                            ..no_particulars(mmsi)
                        },
                    ),
                ]
            } else {
                Seq::empty()
            }
        },
        _ => Seq::empty(),
    }
}

/// What a whole message's payload reports.
pub open spec fn decoded(payload: Seq<char>, fill: nat) -> Seq<ReportView> {
    match bits_of(payload, fill) {
        Some(bits) => reports_of(bits),
        None => Seq::empty(),
    }
}

pub proof fn lemma_bits_bound(bits: Seq<bool>)
    ensures
        bits_value(bits) < pow2(bits.len()),
    decreases bits.len(),
{
    if bits.len() == 0 {
        lemma2_to64();
    } else {
        lemma_bits_bound(bits.drop_last());
        lemma_pow2_unfold(bits.len());
    }
}

proof fn lemma_bits_small(bits: Seq<bool>, len: nat)
    requires
        bits.len() == len,
        len <= 32,
    ensures
        bits_value(bits) <= u32::MAX,
        len == 2 ==> bits_value(bits) < 4,
        len == 4 ==> bits_value(bits) < 16,
        len == 6 ==> bits_value(bits) < 64,
        len == 8 ==> bits_value(bits) < 256,
        len == 9 ==> bits_value(bits) < 512,
        len == 10 ==> bits_value(bits) < 1024,
        len == 12 ==> bits_value(bits) < 4096,
        len == 27 ==> bits_value(bits) < 0x800_0000,
        len == 28 ==> bits_value(bits) < 0x1000_0000,
{
    lemma_bits_bound(bits);
    lemma2_to64();
    if len < 32 {
        lemma_pow2_strictly_increases(len, 32);
    }
}

fn push_six(bits: &mut Vec<bool>, v: u8)
    ensures
        final(bits)@ == old(bits)@ + six_bits(v as int),
{
    bits.push(v / 32 % 2 == 1);
    bits.push(v / 16 % 2 == 1);
    bits.push(v / 8 % 2 == 1);
    bits.push(v / 4 % 2 == 1);
    bits.push(v / 2 % 2 == 1);
    bits.push(v % 2 == 1);
    assert(bits@ =~= old(bits)@ + six_bits(v as int));
}

/// A payload's bits, six to a character.
pub struct Bits(Vec<bool>);

impl View for Bits {
    type V = Seq<bool>;

    closed spec fn view(&self) -> Seq<bool> {
        self.0@
    }
}

impl Bits {
    /// The bits of a payload less its `fill` bits; `None` where a character
    /// isn't six-bit or the fill is more than the last one has.
    pub fn new(payload: &str, fill: usize) -> (bits: Option<Bits>)
        ensures
            match bits {
                Some(b) => bits_of(payload@, fill as nat) == Some(b@),
                None => bits_of(payload@, fill as nat) is None,
            },
    {
        if fill > 5 {
            return None;
        }
        let list = text::chars(payload);
        let mut bits: Vec<bool> = Vec::new();
        let mut i: usize = 0;
        assert(payload@.take(0) == Seq::<char>::empty());
        while i < list.len()
            invariant
                i <= list.len(),
                list@ == payload@,
                unarmored(payload@.take(i as int)) == Some(bits@),
            decreases list.len() - i,
        {
            let c = list[i];
            assert(payload@.take(i + 1).drop_last() == payload@.take(i as int));
            let v: u8 = if c >= '0' && c <= 'W' {
                c as u8 - '0' as u8
            } else if c >= '`' && c <= 'w' {
                c as u8 - '`' as u8 + 40
            } else {
                proof {
                    lemma_unarmored_prefix(payload@, i + 1);
                }
                return None;
            };
            push_six(&mut bits, v);
            i = i + 1;
        }
        assert(payload@.take(i as int) == payload@);
        if fill > bits.len() {
            return None;
        }
        let keep: usize = bits.len() - fill;
        bits.truncate(keep);
        Some(Bits(bits))
    }

    pub fn len(&self) -> (n: usize)
        ensures
            n == self@.len(),
    {
        self.0.len()
    }

    /// The unsigned number in `len` bits from `start` on.
    pub fn uint(&self, start: usize, len: usize) -> (value: Option<u32>)
        requires
            len <= 32,
            start + len <= usize::MAX,
        ensures
            match value {
                Some(v) => uint_at(self@, start as int, len as int) == Some(v as nat),
                None => uint_at(self@, start as int, len as int) is None,
            },
    {
        if start + len > self.0.len() {
            return None;
        }
        let ghost all = self@.subrange(start as int, start + len);
        let mut value: u32 = 0;
        let mut i: usize = 0;
        assert(all.take(0) == Seq::<bool>::empty());
        while i < len
            invariant
                i <= len <= 32,
                start + len <= self.0.len(),
                all == self.0@.subrange(start as int, start + len),
                value == bits_value(all.take(i as int)),
            decreases len - i,
        {
            let bit = self.0[start + i];
            assert(all.take(i + 1).drop_last() == all.take(i as int));
            assert(all.take(i + 1).last() == bit);
            proof {
                lemma_bits_small(all.take(i + 1), (i + 1) as nat);
            }
            value = value * 2 + (if bit {
                1
            } else {
                0
            });
            i = i + 1;
        }
        assert(all.take(i as int) == all);
        Some(value)
    }

    /// The two's complement number in `len` bits from `start` on.
    pub fn signed(&self, start: usize, len: usize) -> (value: Option<i32>)
        requires
            1 <= len <= 32,
            start + len <= usize::MAX,
        ensures
            match value {
                Some(v) => int_at(self@, start as int, len as int) == Some(v as int),
                None => int_at(self@, start as int, len as int) is None,
            },
    {
        let value: i64 = match self.uint(start, len) {
            Some(v) => v as i64,
            None => return None,
        };
        proof {
            lemma_bits_bound(self@.subrange(start as int, start + len));
            lemma2_to64();
            if len < 32 {
                lemma_pow2_strictly_increases(len as nat, 32);
            }
        }
        if self.0[start] {
            let mut span: i64 = 1;
            let mut i: usize = 0;
            while i < len
                invariant
                    i <= len <= 32,
                    span == pow2(i as nat),
                    span <= 0x1_0000_0000,
                decreases len - i,
            {
                proof {
                    lemma_pow2_unfold((i + 1) as nat);
                    lemma2_to64();
                    if i + 1 < 32 {
                        lemma_pow2_strictly_increases((i + 1) as nat, 32);
                    }
                }
                span = span * 2;
                i = i + 1;
            }
            proof {
                lemma_top_set(self@.subrange(start as int, start + len));
                lemma_pow2_unfold(len as nat);
                if len < 32 {
                    lemma_pow2_strictly_increases((len - 1) as nat, 31);
                }
            }
            Some((value - span) as i32)
        } else {
            proof {
                lemma_top_clear(self@.subrange(start as int, start + len));
                if len < 32 {
                    lemma_pow2_strictly_increases((len - 1) as nat, 31);
                }
            }
            Some(value as i32)
        }
    }

    /// Six-bit text: `@` pads the end, and trailing spaces go too.
    pub fn text(&self, start: usize, count: usize) -> (text: Option<String>)
        requires
            start + 6 * count <= usize::MAX,
        ensures
            text::text_of(text) == text_at(self@, start as int, count as nat),
    {
        let mut out = String::new();
        let mut i: usize = 0;
        while i < count
            invariant
                i <= count,
                start + 6 * count <= usize::MAX,
                six_text(self@, start as int, count as nat) == (match six_text(
                    self@,
                    start + 6 * i,
                    (count - i) as nat,
                ) {
                    Some(rest) => Some(out@ + rest),
                    None => None,
                }),
            ensures
                six_text(self@, start as int, count as nat) == Some(out@),
            decreases count - i,
        {
            let v: u32 = match self.uint(start + 6 * i, 6) {
                Some(v) => v,
                None => return None,
            };
            if v == 0 {
                assert(out@ + Seq::<char>::empty() == out@);
                break;
            }
            proof {
                lemma_bits_small(self@.subrange(start + 6 * i, start + 6 * i + 6), 6);
            }
            let c: u8 = if v < 32 {
                v as u8 + 64
            } else {
                v as u8
            };
            let ghost before = out@;
            out.push(c as char);
            proof {
                let rest = six_text(self@, start + 6 * (i + 1), (count - i - 1) as nat);
                if rest is Some {
                    assert(before + (seq![six_char(v as nat)] + rest->0) == out@ + rest->0);
                }
            }
            i = i + 1;
        }
        let trimmed = text::trimmed_end(out.as_str());
        if trimmed.unicode_len() == 0 {
            None
        } else {
            Some(trimmed.to_owned())
        }
    }
}

proof fn lemma_unarmored_prefix(payload: Seq<char>, n: int)
    requires
        0 <= n <= payload.len(),
        unarmored(payload.take(n)) is None,
    ensures
        unarmored(payload) is None,
    decreases payload.len(),
{
    if n < payload.len() {
        assert(payload.drop_last().take(n) == payload.take(n));
        lemma_unarmored_prefix(payload.drop_last(), n);
    } else {
        assert(payload.take(n) == payload);
    }
}

/// A number whose first bit is clear is below half of what its bits hold.
pub proof fn lemma_top_clear(bits: Seq<bool>)
    requires
        bits.len() > 0,
        !bits[0],
    ensures
        bits_value(bits) < pow2((bits.len() - 1) as nat),
    decreases bits.len(),
{
    if bits.len() == 1 {
        assert(bits.last() == bits[0]);
        assert(bits_value(bits.drop_last()) == 0);
        lemma2_to64();
    } else {
        assert(bits.drop_last()[0] == bits[0]);
        lemma_top_clear(bits.drop_last());
        lemma_pow2_unfold((bits.len() - 1) as nat);
    }
}

pub proof fn lemma_top_set(bits: Seq<bool>)
    requires
        bits.len() > 0,
        bits[0],
    ensures
        bits_value(bits) >= pow2((bits.len() - 1) as nat),
    decreases bits.len(),
{
    lemma2_to64();
    if bits.len() > 1 {
        lemma_top_set(bits.drop_last());
        lemma_pow2_unfold((bits.len() - 1) as nat);
    } else {
        assert(bits.last());
    }
}

/// Length or beam: two distances of `len` bits each, from the GPS antenna to
/// the ends of the vessel.
fn extent(bits: &Bits, at: usize, len: usize) -> (sum: Option<u16>)
    requires
        len == 6 || len == 9,
        at <= 1000,
    ensures
        sum == sum_at(bits@, at as int, len as int),
{
    match (bits.uint(at, len), bits.uint(at + len, len)) {
        (Some(a), Some(b)) => {
            proof {
                lemma_bits_small(bits@.subrange(at as int, at + len), len as nat);
                lemma_bits_small(bits@.subrange(at + len, at + len + len), len as nat);
            }
            if a + b > 0 {
                Some((a + b) as u16)
            } else {
                None
            }
        },
        _ => None,
    }
}

/// Length and beam from the GPS antenna's distances to bow, stern, port and
/// starboard. Zeros mean not available.
fn dimensions(bits: &Bits, at: usize) -> (size: (Option<u16>, Option<u16>))
    requires
        at <= 900,
    ensures
        size.0 == sum_at(bits@, at as int, 9),
        size.1 == sum_at(bits@, at + 18, 6),
{
    (extent(bits, at, 9), extent(bits, at + 18, 6))
}

fn ship_type(bits: &Bits, at: usize) -> (code: Option<u8>)
    requires
        at <= 1000,
    ensures
        code == ship_type_at(bits@, at as int),
{
    match bits.uint(at, 8) {
        Some(t) => {
            proof {
                lemma_bits_small(bits@.subrange(at as int, at + 8), 8);
            }
            if t != 0 {
                Some(t as u8)
            } else {
                None
            }
        },
        None => None,
    }
}

fn below(bits: &Bits, at: usize, len: usize, limit: u32) -> (value: Option<u16>)
    requires
        len <= 32,
        at <= 1000,
        limit <= 0xffff,
    ensures
        value == below_at(bits@, at as int, len as int, limit as nat),
{
    match bits.uint(at, len) {
        Some(v) => if v < limit {
            Some(v as u16)
        } else {
            None
        },
        None => None,
    }
}

/// The position in a report whose speed starts at bit `sog_at`.
fn position(
    bits: &Bits,
    mmsi: u32,
    class: Class,
    status: Option<u8>,
    sog_at: usize,
) -> (position: Option<Position>)
    requires
        sog_at <= 100,
    ensures
        position == position_at(bits@, mmsi, class, status, sog_at as int),
{
    let lon: i32 = match bits.signed(sog_at + 11, 28) {
        Some(v) => v,
        None => return None,
    };
    let lat: i32 = match bits.signed(sog_at + 39, 27) {
        Some(v) => v,
        None => return None,
    };
    if lon < -108_000_000 || lon > 108_000_000 || lat < -54_000_000 || lat > 54_000_000 {
        return None;
    }
    Some(
        Position {
            mmsi,
            class,
            status,
            lat,
            lon,
            sog_tenths: below(bits, sog_at, 10, 1023),
            cog_tenths: below(bits, sog_at + 66, 12, 3600),
            heading_deg: below(bits, sog_at + 78, 9, 360),
        },
    )
}

/// A position that may be missing, as the reports it makes.
fn reported(p: Option<Position>) -> (reports: Vec<Report>)
    ensures
        told(reports@) == position_reports(p),
{
    let mut reports: Vec<Report> = Vec::new();
    if let Some(p) = p {
        reports.push(Report::Position(p));
    }
    assert(told(reports@) =~= position_reports(p));
    reports
}

/// A whole message's payload, less its fill bits, as the reports it holds.
/// A message shorter than its type's full length is dropped rather than
/// read with missing fields.
pub fn decode(payload: &str, fill: usize) -> (reports: Vec<Report>)
    ensures
        told(reports@) == decoded(payload@, fill as nat),
{
    let none: Vec<Report> = Vec::new();
    assert(told(none@) =~= Seq::<ReportView>::empty());
    let bits = match Bits::new(payload, fill) {
        Some(bits) => bits,
        None => return none,
    };
    let (mmsi, kind) = match (bits.uint(8, 30), bits.uint(0, 6)) {
        (Some(mmsi), Some(kind)) => (mmsi, kind),
        _ => return none,
    };
    if mmsi == 0 {
        return none;
    }
    let long: usize = bits.len();
    if 1 <= kind && kind <= 3 && long >= 168 {
        let status = match below(&bits, 38, 4, 16) {
            Some(s) => Some(s as u8),
            None => None,
        };
        reported(position(&bits, mmsi, Class::A, status, 50))
    } else if kind == 18 && long >= 168 {
        reported(position(&bits, mmsi, Class::B, None, 46))
    } else if kind == 19 && long >= 312 {
        let (length_m, beam_m) = dimensions(&bits, 271);
        let mut reports = reported(position(&bits, mmsi, Class::B, None, 46));
        let ghost before = told(reports@);
        let particulars = Particulars {
            mmsi,
            name: bits.text(143, 20),
            callsign: None,
            ship_type: ship_type(&bits, 263),
            length_m,
            beam_m,
            destination: None,
        };
        let report = Report::Particulars(particulars);
        reports.push(report);
        assert(told(reports@) =~= before.push(report@));
        reports
    } else if kind == 5 && long >= 422 {
        // 424 bits in full; some receivers drop the two spare bits at the end.
        let (length_m, beam_m) = dimensions(&bits, 240);
        one(
            Particulars {
                mmsi,
                name: bits.text(112, 20),
                callsign: bits.text(70, 7),
                ship_type: ship_type(&bits, 232),
                length_m,
                beam_m,
                destination: bits.text(302, 20),
            },
        )
    } else if kind == 24 {
        let part = bits.uint(38, 2);
        if part == Some(0u32) && long >= 160 {
            one(
                Particulars {
                    mmsi,
                    name: bits.text(40, 20),
                    callsign: None,
                    ship_type: None,
                    length_m: None,
                    beam_m: None,
                    destination: None,
                },
            )
        } else if part == Some(1u32) && long >= 162 {
            // An auxiliary craft sends its mother ship's MMSI where others
            // send their size.
            let auxiliary = 980_000_000 <= mmsi && mmsi < 990_000_000;
            let (length_m, beam_m) = if auxiliary {
                (None, None)
            } else {
                dimensions(&bits, 132)
            };
            one(
                Particulars {
                    mmsi,
                    name: None,
                    callsign: bits.text(90, 7),
                    ship_type: ship_type(&bits, 40),
                    length_m,
                    beam_m,
                    destination: None,
                },
            )
        } else {
            none
        }
    } else {
        none
    }
}

/// One vessel's particulars, as the report they make.
fn one(p: Particulars) -> (reports: Vec<Report>)
    ensures
        told(reports@) == seq![ReportView::Particulars(p@)],
{
    let mut reports: Vec<Report> = Vec::new();
    reports.push(Report::Particulars(p));
    assert(told(reports@) =~= seq![ReportView::Particulars(p@)]);
    reports
}

/// One sentence of a message: which of how many it is, and what it carries.
pub struct Part {
    pub count: nat,
    pub number: nat,
    pub id: Seq<char>,
    pub channel: Seq<char>,
    pub payload: Seq<char>,
    pub fill: nat,
}

/// The message part in a `VDM` sentence. A message has one sentence to nine.
pub open spec fn part_of(s: SentenceView) -> Option<Part> {
    let f = s.fields;
    match (
        text::unsigned(nmea::field(f, 0), 255),
        text::unsigned(nmea::field(f, 1), 255),
        text::unsigned(nmea::field(f, 5), usize::MAX as nat),
    ) {
        (Some(count), Some(number), Some(fill)) => if s.kind == "VDM"@ && 1 <= number <= count
            <= 9 {
            Some(
                Part {
                    count,
                    number,
                    id: nmea::field(f, 2),
                    channel: nmea::field(f, 3),
                    payload: nmea::field(f, 4),
                    fill,
                },
            )
        } else {
            None
        },
        _ => None,
    }
}

/// A message of which the first sentences have come: the next expected, and
/// the payload so far.
pub struct PendingView {
    pub count: nat,
    pub next: nat,
    pub id: Seq<char>,
    pub channel: Seq<char>,
    pub payload: Seq<char>,
}

/// A message's sentences share a sequence id, a channel and a count.
pub open spec fn belongs(p: PendingView, part: Part) -> bool {
    p.id == part.id && p.channel == part.channel && p.count == part.count
}

/// Two pending messages share a sequence id, a channel and a count.
pub open spec fn alike(p: PendingView, q: PendingView) -> bool {
    p.id == q.id && p.channel == q.channel && p.count == q.count
}

/// The pending messages that `part` doesn't belong to.
pub open spec fn without(pending: Seq<PendingView>, part: Part) -> Seq<PendingView>
    decreases pending.len(),
{
    if pending.len() == 0 {
        pending
    } else {
        let rest = without(pending.drop_last(), part);
        if belongs(pending.last(), part) {
            rest
        } else {
            rest.push(pending.last())
        }
    }
}

/// The pending message at `i` expects `part` next.
pub open spec fn awaits(pending: Seq<PendingView>, part: Part, i: int) -> bool {
    0 <= i < pending.len() && belongs(pending[i], part) && pending[i].next == part.number
}

/// A message that `part` opens.
pub open spec fn opened(part: Part) -> PendingView {
    PendingView {
        count: part.count,
        next: 2,
        id: part.id,
        channel: part.channel,
        payload: part.payload,
    }
}

/// A message that `part` continues.
pub open spec fn continued(p: PendingView, part: Part) -> PendingView {
    PendingView { next: p.next + 1, payload: p.payload + part.payload, ..p }
}

/// The queue less its oldest message, where it is full.
pub open spec fn room(pending: Seq<PendingView>) -> Seq<PendingView> {
    if pending.len() == PENDING {
        pending.drop_first()
    } else {
        pending
    }
}

/// What is pending after `part`, and what it completes. A first sentence
/// opens its message anew. A later one continues the message that expects
/// it; out of order, the message it belonged to is lost.
pub open spec fn joined(pending: Seq<PendingView>, part: Part) -> (
    Seq<PendingView>,
    Seq<ReportView>,
) {
    if part.count == 1 {
        (pending, decoded(part.payload, part.fill))
    } else if part.number == 1 {
        (room(without(pending, part)).push(opened(part)), Seq::empty())
    } else if exists|i: int| awaits(pending, part, i) {
        let i: int = choose|i: int| awaits(pending, part, i);
        if part.number == part.count {
            (pending.remove(i), decoded(pending[i].payload + part.payload, part.fill))
        } else {
            (pending.update(i, continued(pending[i], part)), Seq::empty())
        }
    } else {
        (without(pending, part), Seq::empty())
    }
}

/// What is pending after a sentence of any kind, and what it completes.
pub open spec fn fed(pending: Seq<PendingView>, s: SentenceView) -> (
    Seq<PendingView>,
    Seq<ReportView>,
) {
    match part_of(s) {
        Some(part) => joined(pending, part),
        None => (pending, Seq::empty()),
    }
}

/// No more than `PENDING` messages wait, no two alike, and each has had its
/// first sentence and not yet its last.
pub open spec fn is_queue(pending: Seq<PendingView>) -> bool {
    &&& pending.len() <= PENDING
    &&& forall|i: int|
        0 <= i < pending.len() ==> 2 <= (#[trigger] pending[i]).next <= pending[i].count <= 9
    &&& forall|i: int, j: int|
        0 <= i < j < pending.len() ==> !alike(#[trigger] pending[i], #[trigger] pending[j])
}

struct Pending {
    count: u8,
    next: u8,
    id: String,
    channel: String,
    payload: String,
}

impl View for Pending {
    type V = PendingView;

    closed spec fn view(&self) -> PendingView {
        PendingView {
            count: self.count as nat,
            next: self.next as nat,
            id: self.id@,
            channel: self.channel@,
            payload: self.payload@,
        }
    }
}

spec fn waiting(pending: Seq<Pending>) -> Seq<PendingView> {
    Seq::new(pending.len(), |i: int| pending[i]@)
}

/// Joins the sentences of multi-sentence messages. One per source.
pub struct Assembler {
    pending: Vec<Pending>,
}

impl View for Assembler {
    type V = Seq<PendingView>;

    closed spec fn view(&self) -> Seq<PendingView> {
        waiting(self.pending@)
    }
}

impl Default for Assembler {
    fn default() -> (assembler: Assembler)
        ensures
            assembler@ == Seq::<PendingView>::empty(),
            is_queue(assembler@),
    {
        let assembler = Assembler { pending: Vec::new() };
        assert(assembler@ =~= Seq::<PendingView>::empty());
        assembler
    }
}

fn matches_part(p: &Pending, id: &str, channel: &str, count: u8) -> (yes: bool)
    ensures
        yes == (p@.id == id@ && p@.channel == channel@ && p@.count == count),
{
    text::same(p.id.as_str(), id) && text::same(p.channel.as_str(), channel) && p.count == count
}

proof fn lemma_without(pending: Seq<PendingView>, part: Part)
    ensures
        without(pending, part).len() <= pending.len(),
        forall|i: int|
            0 <= i < without(pending, part).len() ==> !belongs(
                #[trigger] without(pending, part)[i],
                part,
            ),
        is_queue(pending) ==> is_queue(without(pending, part)),
        forall|i: int|
            0 <= i < without(pending, part).len() ==> pending.contains(
                #[trigger] without(pending, part)[i],
            ),
    decreases pending.len(),
{
    if pending.len() > 0 {
        let rest = without(pending.drop_last(), part);
        lemma_without(pending.drop_last(), part);
        assert forall|i: int| 0 <= i < rest.len() implies pending.contains(#[trigger] rest[i]) by {
            assert(pending.drop_last().contains(rest[i]));
            let k: int = choose|k: int|
                0 <= k < pending.drop_last().len() && pending.drop_last()[k] == rest[i];
            assert(pending[k] == rest[i]);
        }
        if is_queue(pending) {
            assert(is_queue(pending.drop_last()));
            assert forall|i: int| 0 <= i < rest.len() implies !alike(
                #[trigger] rest[i],
                pending.last(),
            ) by {
                assert(pending.drop_last().contains(rest[i]));
                let k: int = choose|k: int|
                    0 <= k < pending.drop_last().len() && pending.drop_last()[k] == rest[i];
                assert(!alike(pending[k], pending[pending.len() - 1]));
            }
        }
    }
}

/// Drops the pending messages that a part with this id, channel and count
/// belongs to.
fn forget(pending: &mut Vec<Pending>, id: &str, channel: &str, count: u8, part: Ghost<Part>)
    requires
        part@.id == id@,
        part@.channel == channel@,
        part@.count == count,
    ensures
        waiting(final(pending)@) == without(waiting(old(pending)@), part@),
{
    let ghost all = waiting(pending@);
    let ghost mut done: int = 0;
    let mut i: usize = 0;
    assert(all.take(0) =~= Seq::<PendingView>::empty());
    assert(all.skip(0) =~= all);
    assert(without(all.take(0), part@) + all.skip(0) =~= all);
    while i < pending.len()
        invariant
            part@.id == id@,
            part@.channel == channel@,
            part@.count == count,
            0 <= done <= all.len(),
            i == without(all.take(done), part@).len(),
            waiting(pending@) == without(all.take(done), part@) + all.skip(done),
            pending@.len() == waiting(pending@).len(),
        decreases all.len() - done,
    {
        proof {
            assert(all.take(done + 1).drop_last() =~= all.take(done));
            assert(all.skip(done)[0] == all[done]);
            assert(waiting(pending@)[i as int] == all[done]);
            assert(pending@[i as int]@ == all[done]);
        }
        let ghost before = waiting(pending@);
        if matches_part(&pending[i], id, channel, count) {
            pending.remove(i);
            assert(waiting(pending@) =~= before.remove(i as int));
        } else {
            i = i + 1;
        }
        assert(waiting(pending@) =~= without(all.take(done + 1), part@) + all.skip(done + 1));
        proof {
            done = done + 1;
        }
    }
    assert(done == all.len());
    assert(all.take(done) =~= all);
    assert(waiting(pending@) =~= without(all, part@));
}

impl Assembler {
    /// Takes any sentence; returns what a completed `VDM` message reports.
    pub fn feed(&mut self, s: &Sentence) -> (reports: Vec<Report>)
        requires
            is_queue(old(self)@),
        ensures
            is_queue(final(self)@),
            final(self)@ == fed(old(self)@, s@).0,
            told(reports@) == fed(old(self)@, s@).1,
    {
        let none: Vec<Report> = Vec::new();
        assert(told(none@) =~= Seq::<ReportView>::empty());
        if !text::same(s.kind, "VDM") {
            return none;
        }
        let (count, number, fill) = match (
            text::number_up_to(nmea::field_at(s, 0), 255),
            text::number_up_to(nmea::field_at(s, 1), 255),
            text::number_up_to(nmea::field_at(s, 5), usize::MAX as u64),
        ) {
            (Some(count), Some(number), Some(fill)) => (count as u8, number as u8, fill as usize),
            _ => return none,
        };
        let id = nmea::field_at(s, 2);
        let channel = nmea::field_at(s, 3);
        let payload = nmea::field_at(s, 4);
        if number == 0 || number > count || count > 9 {
            return none;
        }
        let ghost part = part_of(s@)->0;
        let ghost all = self@;
        if count == 1 {
            return decode(payload, fill);
        }
        proof {
            lemma_without(all, part);
        }
        if number == 1 {
            forget(&mut self.pending, id, channel, count, Ghost(part));
            let ghost kept = self@;
            if self.pending.len() == PENDING {
                self.pending.remove(0);
                assert(self@ =~= kept.drop_first());
            }
            let ghost kept = self@;
            let opening = Pending {
                count,
                next: 2,
                id: id.to_owned(),
                channel: channel.to_owned(),
                payload: payload.to_owned(),
            };
            self.pending.push(opening);
            assert(self@ =~= kept.push(opened(part)));
            proof {
                let rest = without(all, part);
                assert forall|i: int, j: int| 0 <= i < j < self@.len() implies !alike(
                    #[trigger] self@[i],
                    #[trigger] self@[j],
                ) by {
                    let shift: int = rest.len() - kept.len();
                    assert(kept[i] == rest[i + shift]);
                    if j < kept.len() {
                        assert(kept[j] == rest[j + shift]);
                    }
                }
                assert forall|i: int| 0 <= i < self@.len() implies 2 <= (#[trigger] self@[i]).next
                    <= self@[i].count <= 9 by {
                    let shift: int = rest.len() - kept.len();
                    if i < kept.len() {
                        assert(kept[i] == rest[i + shift]);
                    }
                }
            }
            return none;
        }
        let mut i: usize = 0;
        while i < self.pending.len()
            invariant
                i <= self.pending.len(),
                self@ == all,
                all.len() == self.pending@.len(),
                is_queue(all),
                part.id == id@,
                part.channel == channel@,
                part.count == count,
                part.number == number,
                forall|j: int| 0 <= j < i ==> !awaits(all, part, j),
            ensures
                i <= self.pending.len(),
                i < self.pending.len() ==> awaits(all, part, i as int),
            decreases self.pending.len() - i,
        {
            assert(all[i as int] == self.pending@[i as int]@);
            if matches_part(&self.pending[i], id, channel, count) && self.pending[i].next
                == number {
                break;
            }
            i = i + 1;
        }
        if i == self.pending.len() {
            // Out of order: the message it belonged to is lost.
            forget(&mut self.pending, id, channel, count, Ghost(part));
            return none;
        }
        proof {
            let k: int = choose|k: int| awaits(all, part, k);
            assert(awaits(all, part, k));
            assert(k == i) by {
                if k < i {
                    assert(!alike(all[k], all[i as int]));
                } else if i < k {
                    assert(!alike(all[i as int], all[k]));
                }
            }
        }
        let mut found = self.pending.remove(i);
        let ghost rest = self@;
        assert(rest =~= all.remove(i as int));
        assert(found@ == all[i as int]);
        found.payload.append(payload);
        if number == count {
            proof {
                assert forall|p: int, q: int| 0 <= p < q < rest.len() implies !alike(
                    #[trigger] rest[p],
                    #[trigger] rest[q],
                ) by {
                    let a: int = if p < i { p } else { p + 1 };
                    let b: int = if q < i { q } else { q + 1 };
                    assert(!alike(all[a], all[b]));
                }
                assert forall|p: int| 0 <= p < rest.len() implies 2 <= (#[trigger] rest[p]).next
                    <= rest[p].count <= 9 by {
                    let a: int = if p < i { p } else { p + 1 };
                    assert(2 <= all[a].next <= all[a].count <= 9);
                }
            }
            decode(found.payload.as_str(), fill)
        } else {
            found.next = found.next + 1;
            self.pending.insert(i, found);
            assert(self@ =~= all.update(i as int, continued(all[i as int], part)));
            proof {
                assert forall|p: int, q: int| 0 <= p < q < self@.len() implies !alike(
                    #[trigger] self@[p],
                    #[trigger] self@[q],
                ) by {
                    assert(!alike(all[p], all[q]));
                }
                assert forall|p: int| 0 <= p < self@.len() implies 2 <= (#[trigger] self@[p]).next
                    <= self@[p].count <= 9 by {
                    assert(2 <= all[p].next <= all[p].count <= 9);
                }
            }
            none
        }
    }
}

/// What is pending after sentences in turn, and all they complete.
pub open spec fn fed_all(pending: Seq<PendingView>, sentences: Seq<SentenceView>) -> (
    Seq<PendingView>,
    Seq<ReportView>,
)
    decreases sentences.len(),
{
    if sentences.len() == 0 {
        (pending, Seq::empty())
    } else {
        let before = fed_all(pending, sentences.drop_last());
        let after = fed(before.0, sentences.last());
        (after.0, before.1 + after.1)
    }
}

/// The sentences of one message of two or more, in order.
pub open spec fn is_message(sentences: Seq<SentenceView>) -> bool {
    &&& sentences.len() >= 2
    &&& forall|i: int|
        0 <= i < sentences.len() ==> is_part(#[trigger] sentences[i], sentences, i)
}

pub open spec fn is_part(s: SentenceView, sentences: Seq<SentenceView>, i: int) -> bool {
    &&& part_of(s) is Some
    &&& part_of(s)->0.count == sentences.len()
    &&& part_of(s)->0.number == i + 1
    &&& part_of(s)->0.id == part_of(sentences[0])->0.id
    &&& part_of(s)->0.channel == part_of(sentences[0])->0.channel
}

/// The payloads of sentences, one after the other.
pub open spec fn whole_payload(sentences: Seq<SentenceView>) -> Seq<char>
    decreases sentences.len(),
{
    if sentences.len() == 0 {
        Seq::empty()
    } else {
        whole_payload(sentences.drop_last()) + part_of(sentences.last())->0.payload
    }
}

/// The sentences of a message, fed in order to an assembler in any state,
/// report what the message holds when the last has come, and nothing before.
pub proof fn a_message_in_order_is_joined(
    pending: Seq<PendingView>,
    sentences: Seq<SentenceView>,
)
    requires
        is_queue(pending),
        is_message(sentences),
    ensures
        fed_all(pending, sentences).1 == decoded(
            whole_payload(sentences),
            part_of(sentences.last())->0.fill,
        ),
        fed_all(pending, sentences.drop_last()).1 == Seq::<ReportView>::empty(),
        is_queue(fed_all(pending, sentences).0),
{
    let n: int = sentences.len() as int;
    assert(is_part(sentences[n - 1], sentences, n - 1));
    assert(is_part(sentences[0], sentences, 0));
    lemma_opening(pending, sentences, n - 1);
    let front = sentences.drop_last();
    assert(front =~= sentences.take(n - 1));
    let before = fed_all(pending, front).0;
    let part = part_of(sentences.last())->0;
    lemma_feed_keeps_queue(before, sentences.last());
    lemma_awaited(before, part, before.len() - 1);
    assert(awaits(before, part, before.len() - 1));
    assert(fed(before, sentences.last()).1 == decoded(whole_payload(sentences), part.fill));
    assert(Seq::<ReportView>::empty() + fed(before, sentences.last()).1 =~= fed(
        before,
        sentences.last(),
    ).1);
}

/// Of the messages waiting, only the one at `i` can await `part`.
proof fn lemma_awaited(pending: Seq<PendingView>, part: Part, i: int)
    requires
        is_queue(pending),
        awaits(pending, part, i),
    ensures
        (choose|k: int| awaits(pending, part, k)) == i,
{
    let k: int = choose|k: int| awaits(pending, part, k);
    assert(awaits(pending, part, k));
    if k < i {
        assert(!alike(pending[k], pending[i]));
    } else if i < k {
        assert(!alike(pending[i], pending[k]));
    }
}

/// After the first `k` sentences of a message, short of the last, it waits
/// behind all others.
#[verifier::spinoff_prover]
proof fn lemma_opening(pending: Seq<PendingView>, sentences: Seq<SentenceView>, k: int)
    requires
        is_queue(pending),
        is_message(sentences),
        1 <= k < sentences.len(),
    ensures
        fed_all(pending, sentences.take(k)).1 == Seq::<ReportView>::empty(),
        is_queue(fed_all(pending, sentences.take(k)).0),
        fed_all(pending, sentences.take(k)).0.len() > 0,
        fed_all(pending, sentences.take(k)).0.last() == (PendingView {
            count: sentences.len(),
            next: (k + 1) as nat,
            id: part_of(sentences[0])->0.id,
            channel: part_of(sentences[0])->0.channel,
            payload: whole_payload(sentences.take(k)),
        }),
    decreases k,
{
    let now = sentences.take(k);
    let s = sentences[k - 1];
    assert(is_part(s, sentences, k - 1));
    assert(is_part(sentences[0], sentences, 0));
    let part = part_of(s)->0;
    assert(now.drop_last() =~= sentences.take(k - 1));
    assert(now.last() == s);
    let before = fed_all(pending, now.drop_last());
    if k == 1 {
        assert(now.drop_last() =~= Seq::<SentenceView>::empty());
        assert(whole_payload(now) =~= part.payload);
        lemma_feed_keeps_queue(pending, s);
        assert(before.1 + fed(before.0, s).1 =~= Seq::<ReportView>::empty());
        assert(fed(before.0, s).0.last() == opened(part));
    } else {
        lemma_opening(pending, sentences, k - 1);
        lemma_feed_keeps_queue(before.0, s);
        assert(awaits(before.0, part, before.0.len() - 1));
        lemma_awaited(before.0, part, before.0.len() - 1);
        assert(before.1 + fed(before.0, s).1 =~= Seq::<ReportView>::empty());
        assert(fed(before.0, s).0.last() == continued(before.0.last(), part));
    }
}

/// However sentences come, no more than four messages wait, no two of them
/// alike.
pub proof fn lemma_feed_keeps_queue(pending: Seq<PendingView>, s: SentenceView)
    requires
        is_queue(pending),
    ensures
        is_queue(fed(pending, s).0),
        fed(pending, s).0.len() <= 4,
{
    if let Some(part) = part_of(s) {
        let after = joined(pending, part).0;
        lemma_without(pending, part);
        if part.count == 1 {
        } else if part.number == 1 {
            let rest = without(pending, part);
            let kept = room(rest);
            let shift: int = rest.len() - kept.len();
            assert forall|i: int, j: int| 0 <= i < j < after.len() implies !alike(
                #[trigger] after[i],
                #[trigger] after[j],
            ) by {
                assert(kept[i] == rest[i + shift]);
                if j < kept.len() {
                    assert(kept[j] == rest[j + shift]);
                }
            }
            assert forall|i: int| 0 <= i < after.len() implies 2 <= (#[trigger] after[i]).next
                <= after[i].count <= 9 by {
                if i < kept.len() {
                    assert(kept[i] == rest[i + shift]);
                }
            }
        } else if exists|i: int| awaits(pending, part, i) {
            let k: int = choose|k: int| awaits(pending, part, k);
            let completed = part.number == part.count;
            assert forall|i: int, j: int| 0 <= i < j < after.len() implies !alike(
                #[trigger] after[i],
                #[trigger] after[j],
            ) by {
                let a: int = if completed && i >= k { i + 1 } else { i };
                let b: int = if completed && j >= k { j + 1 } else { j };
                assert(!alike(pending[a], pending[b]));
            }
            assert forall|i: int| 0 <= i < after.len() implies 2 <= (#[trigger] after[i]).next
                <= after[i].count <= 9 by {
                let a: int = if completed && i >= k { i + 1 } else { i };
                assert(2 <= pending[a].next <= pending[a].count <= 9);
            }
        }
    }
}

/// A sentence that isn't a `VDM` part, own-ship `VDO` among them, reports
/// nothing, and no message of a single sentence disturbs the ones that wait.
pub proof fn other_sentences_leave_messages_waiting(
    pending: Seq<PendingView>,
    s: SentenceView,
)
    ensures
        s.kind != "VDM"@ ==> fed(pending, s) == (pending, Seq::<ReportView>::empty()),
        part_of(s) is None ==> fed(pending, s) == (pending, Seq::<ReportView>::empty()),
        part_of(s) is Some && part_of(s)->0.count == 1 ==> fed(pending, s).0 == pending,
{
}

/// A sentence of another message, on another channel or under another id,
/// leaves a waiting message as it is, unless it opens one too many.
pub proof fn messages_interleave(pending: Seq<PendingView>, s: SentenceView, i: int)
    requires
        is_queue(pending),
        part_of(s) is Some,
        0 <= i < pending.len(),
        !belongs(pending[i], part_of(s)->0),
        part_of(s)->0.number == 1 ==> without(pending, part_of(s)->0).len() < 4,
    ensures
        fed(pending, s).0.contains(pending[i]),
{
    let part = part_of(s)->0;
    let after = fed(pending, s).0;
    lemma_kept(pending, part, i);
    let rest = without(pending, part);
    let at: int = choose|at: int| 0 <= at < rest.len() && rest[at] == pending[i];
    if part.count == 1 {
        assert(after[i] == pending[i]);
    } else if part.number == 1 {
        assert(after[at] == pending[i]);
    } else if exists|k: int| awaits(pending, part, k) {
        let k: int = choose|k: int| awaits(pending, part, k);
        if part.number == part.count && i > k {
            assert(after[i - 1] == pending[i]);
        } else {
            assert(after[i] == pending[i]);
        }
    } else {
        assert(after[at] == pending[i]);
    }
}

proof fn lemma_kept(pending: Seq<PendingView>, part: Part, i: int)
    requires
        0 <= i < pending.len(),
        !belongs(pending[i], part),
    ensures
        without(pending, part).contains(pending[i]),
    decreases pending.len(),
{
    let rest = without(pending.drop_last(), part);
    if i == pending.len() - 1 {
        assert(without(pending, part)[rest.len() as int] == pending[i]);
    } else {
        lemma_kept(pending.drop_last(), part, i);
        let at: int = choose|at: int| 0 <= at < rest.len() && rest[at] == pending[i];
        assert(without(pending, part)[at] == pending[i]);
    }
}

/// Two sentences are of one message: they share a sequence id, a channel and
/// a count.
pub open spec fn is_of(s: SentenceView, like: SentenceView) -> bool {
    &&& part_of(s) is Some
    &&& part_of(like) is Some
    &&& part_of(s)->0.id == part_of(like)->0.id
    &&& part_of(s)->0.channel == part_of(like)->0.channel
    &&& part_of(s)->0.count == part_of(like)->0.count
}

/// The sentences of the message that `like` is of, in order.
pub open spec fn own(sentences: Seq<SentenceView>, like: SentenceView) -> Seq<SentenceView>
    decreases sentences.len(),
{
    if sentences.len() == 0 {
        sentences
    } else if is_of(sentences.last(), like) {
        own(sentences.drop_last(), like).push(sentences.last())
    } else {
        own(sentences.drop_last(), like)
    }
}

/// A sentence that opens a message of two or more.
pub open spec fn opens(s: SentenceView) -> bool {
    part_of(s) is Some && part_of(s)->0.count > 1 && part_of(s)->0.number == 1
}

/// How many other messages are opened.
pub open spec fn others_opened(sentences: Seq<SentenceView>, like: SentenceView) -> nat
    decreases sentences.len(),
{
    if sentences.len() == 0 {
        0
    } else {
        others_opened(sentences.drop_last(), like) + (if opens(sentences.last()) && !is_of(
            sentences.last(),
            like,
        ) {
            1nat
        } else {
            0nat
        })
    }
}

/// However the sentences of a message are interleaved with those of others,
/// they report what it holds when the last has come, as long as fewer than
/// four others are opened meanwhile. Sent again, the last one reports
/// nothing.
#[verifier::spinoff_prover]
pub proof fn an_interleaved_message_is_joined(
    pending: Seq<PendingView>,
    sentences: Seq<SentenceView>,
)
    requires
        is_queue(pending),
        sentences.len() > 0,
        is_message(own(sentences, sentences[0])),
        is_of(sentences[0], sentences[0]),
        is_of(sentences.last(), sentences[0]),
        others_opened(sentences, sentences[0]) < 4,
    ensures
        fed(fed_all(pending, sentences.drop_last()).0, sentences.last()).1 == decoded(
            whole_payload(own(sentences, sentences[0])),
            part_of(sentences.last())->0.fill,
        ),
        fed(fed_all(pending, sentences).0, sentences.last()).1 == Seq::<ReportView>::empty(),
{
    let first = sentences[0];
    let mine = own(sentences, first);
    let n: int = sentences.len() as int;
    let front = sentences.drop_last();
    assert(is_part(mine[mine.len() - 1], mine, mine.len() - 1));
    assert(mine[mine.len() - 1] == sentences.last());
    if n == 1 {
        assert(own(front, first).len() == 0);
    }
    assert(front =~= sentences.take(n - 1));
    lemma_interleaved(pending, sentences, n - 1);
    let queue = fed_all(pending, front).0;
    let part = part_of(sentences.last())->0;
    let i: int = choose|i: int| #[trigger]
        waits(queue, own(front, first), i) && behind(queue, i) <= others_opened(front, first);
    lemma_own_starts(sentences, n - 1);
    assert(mine.drop_last() =~= own(front, first));
    assert(mine[0] == first);
    assert(awaits(queue, part, i));
    lemma_awaited(queue, part, i);
    lemma_feed_keeps_queue(queue, sentences.last());
    let after = fed(queue, sentences.last()).0;
    assert(after == queue.remove(i));
    assert(fed_all(pending, sentences).0 == after);
    assert forall|k: int| !awaits(after, part, k) by {
        if awaits(after, part, k) {
            if k < i {
                assert(!alike(queue[k], queue[i]));
            } else {
                assert(!alike(queue[i], queue[k + 1]));
            }
        }
    }
}

/// How many messages wait behind the one at `i`.
spec fn behind(queue: Seq<PendingView>, i: int) -> int {
    queue.len() - 1 - i
}

/// The message that `mine` have begun waits at `i`.
spec fn waits(queue: Seq<PendingView>, mine: Seq<SentenceView>, i: int) -> bool {
    let part = part_of(mine[0])->0;
    &&& 0 <= i < queue.len()
    &&& queue[i] == (PendingView {
        count: part.count,
        next: (mine.len() + 1) as nat,
        id: part.id,
        channel: part.channel,
        payload: whole_payload(mine),
    })
}

/// The own sentences of a beginning are a beginning of the own sentences.
proof fn lemma_own_starts(sentences: Seq<SentenceView>, k: int)
    requires
        sentences.len() > 0,
        is_of(sentences[0], sentences[0]),
        1 <= k <= sentences.len(),
    ensures
        own(sentences.take(k), sentences[0]).len() >= 1,
        own(sentences.take(k), sentences[0])[0] == sentences[0],
        own(sentences.take(k), sentences[0]).len() <= own(sentences, sentences[0]).len(),
        own(sentences.take(k), sentences[0]) == own(sentences, sentences[0]).take(
            own(sentences.take(k), sentences[0]).len() as int,
        ),
        others_opened(sentences.take(k), sentences[0]) <= others_opened(sentences, sentences[0]),
    decreases sentences.len(),
{
    let first = sentences[0];
    let mine = own(sentences, first);
    if k == sentences.len() {
        assert(sentences.take(k) =~= sentences);
        assert(mine.take(mine.len() as int) =~= mine);
        let before = own(sentences.drop_last(), first);
        if k == 1 {
            assert(before.len() == 0);
            assert(mine == before.push(sentences[0]));
        } else {
            lemma_own_starts(sentences.drop_last(), k - 1);
            assert(sentences.drop_last().take(k - 1) =~= sentences.drop_last());
            assert(mine[0] == before[0]);
        }
    } else {
        let front = sentences.drop_last();
        assert(front.take(k) =~= sentences.take(k));
        lemma_own_starts(front, k);
        let m = own(sentences.take(k), first).len() as int;
        assert(own(front, first).take(m) =~= mine.take(m));
    }
}

/// After a beginning of the sentences, short of its last one, a message waits
/// with at most as many behind it as others were opened.
#[verifier::spinoff_prover]
proof fn lemma_interleaved(pending: Seq<PendingView>, sentences: Seq<SentenceView>, k: int)
    requires
        is_queue(pending),
        sentences.len() > 0,
        is_message(own(sentences, sentences[0])),
        is_of(sentences[0], sentences[0]),
        is_of(sentences.last(), sentences[0]),
        others_opened(sentences, sentences[0]) < 4,
        1 <= k < sentences.len(),
    ensures
        is_queue(fed_all(pending, sentences.take(k)).0),
        exists|i: int| #[trigger]
            waits(fed_all(pending, sentences.take(k)).0, own(sentences.take(k), sentences[0]), i)
                && behind(fed_all(pending, sentences.take(k)).0, i) <= others_opened(
                sentences.take(k),
                sentences[0],
            ),
    decreases k,
{
    let first = sentences[0];
    let mine = own(sentences, first);
    let now = sentences.take(k);
    let s = sentences[k - 1];
    let shorter = now.drop_last();
    assert(shorter =~= sentences.take(k - 1));
    assert(now.last() == s);
    lemma_own_starts(sentences, k);
    // The last own sentence is yet to come.
    let front = sentences.drop_last();
    assert(mine == own(front, first).push(sentences.last()));
    assert(front.take(k) =~= now);
    lemma_own_starts(front, k);
    assert(mine[0] == own(now, first)[0]);
    assert(is_part(mine[0], mine, 0));
    let queue = fed_all(pending, shorter).0;
    let after = fed(queue, s).0;
    assert(fed_all(pending, now).0 == after);
    if k == 1 {
        assert(shorter =~= Seq::<SentenceView>::empty());
        assert(own(now, first) =~= seq![s]);
        let part = part_of(s)->0;
        lemma_feed_keeps_queue(pending, s);
        assert(seq![s].drop_last() =~= Seq::<SentenceView>::empty());
        assert(whole_payload(seq![s]) =~= part.payload);
        assert(after.last() == opened(part));
        assert(waits(after, own(now, first), after.len() - 1));
    } else {
        lemma_interleaved(pending, sentences, k - 1);
        lemma_own_starts(sentences, k - 1);
        let begun = own(shorter, first);
        let i: int = choose|i: int| #[trigger]
            waits(queue, begun, i) && behind(queue, i) <= others_opened(shorter, first);
        lemma_feed_keeps_queue(queue, s);
        assert(begun[0] == first);
        if is_of(s, first) {
            let m = begun.len() as int;
            assert(own(now, first) == begun.push(s));
            assert(mine[m] == mine.take(m + 1)[m]);
            assert(mine[m] == s);
            assert(is_part(mine[m], mine, m));
            let part = part_of(s)->0;
            assert(awaits(queue, part, i));
            lemma_awaited(queue, part, i);
            assert(begun.push(s).drop_last() =~= begun);
            assert(after[i] == continued(queue[i], part));
            assert(waits(after, own(now, first), i));
        } else {
            assert(own(now, first) == begun);
            lemma_passed(queue, s, i);
            let j: int = choose|j: int|
                0 <= j < after.len() && #[trigger] after[j] == queue[i] && behind(after, j)
                    <= behind(queue, i) + (if opens(s) {
                    1int
                } else {
                    0int
                });
            assert(waits(after, own(now, first), j));
        }
    }
}

/// A sentence of another message leaves a waiting one as it is, with no more
/// behind it than before, or one more where it opens one.
#[verifier::spinoff_prover]
proof fn lemma_passed(queue: Seq<PendingView>, s: SentenceView, i: int)
    requires
        is_queue(queue),
        0 <= i < queue.len(),
        part_of(s) is Some ==> !belongs(queue[i], part_of(s)->0),
        opens(s) ==> behind(queue, i) + 1 < 4,
    ensures
        exists|j: int|
            0 <= j < fed(queue, s).0.len() && #[trigger] fed(queue, s).0[j] == queue[i] && behind(
                fed(queue, s).0,
                j,
            ) <= behind(queue, i) + (if opens(s) {
                1int
            } else {
                0int
            }),
{
    let after = fed(queue, s).0;
    if part_of(s) is None {
        assert(after[i] == queue[i]);
    } else {
        let part = part_of(s)->0;
        lemma_kept_in_place(queue, part, i);
        let rest = without(queue, part);
        let at: int = choose|at: int|
            0 <= at < rest.len() && #[trigger] rest[at] == queue[i] && behind(rest, at) <= behind(
                queue,
                i,
            );
        lemma_without(queue, part);
        if part.count == 1 {
            assert(after[i] == queue[i]);
        } else if part.number == 1 {
            let shift: int = rest.len() - room(rest).len();
            assert(after[at - shift] == queue[i]);
        } else if exists|k: int| awaits(queue, part, k) {
            let k: int = choose|k: int| awaits(queue, part, k);
            if part.number == part.count && i > k {
                assert(after[i - 1] == queue[i]);
            } else {
                assert(after[i] == queue[i]);
            }
        } else {
            assert(after[at] == queue[i]);
        }
    }
}

proof fn lemma_kept_in_place(pending: Seq<PendingView>, part: Part, i: int)
    requires
        0 <= i < pending.len(),
        !belongs(pending[i], part),
    ensures
        exists|at: int|
            0 <= at < without(pending, part).len() && #[trigger] without(pending, part)[at]
                == pending[i] && behind(without(pending, part), at) <= behind(pending, i),
    decreases pending.len(),
{
    let front = pending.drop_last();
    let rest = without(front, part);
    let all = without(pending, part);
    if i == pending.len() - 1 {
        assert(all[rest.len() as int] == pending[i]);
    } else {
        lemma_kept_in_place(front, part, i);
        let at: int = choose|at: int|
            0 <= at < rest.len() && #[trigger] rest[at] == front[i] && behind(rest, at) <= behind(
                front,
                i,
            );
        assert(all[at] == pending[i]);
    }
}

/// A later sentence that no waiting message expects reports nothing, and the
/// message it belonged to is lost: sentences never mix across messages.
pub proof fn a_lost_sentence_loses_its_message(pending: Seq<PendingView>, s: SentenceView)
    requires
        part_of(s) is Some,
        part_of(s)->0.number > 1,
        forall|i: int| !awaits(pending, part_of(s)->0, i),
    ensures
        fed(pending, s).1 == Seq::<ReportView>::empty(),
        forall|i: int|
            0 <= i < fed(pending, s).0.len() ==> !belongs(
                #[trigger] fed(pending, s).0[i],
                part_of(s)->0,
            ),
{
    lemma_without(pending, part_of(s)->0);
}

/// A report that makes sense: a vessel with a number, at a place on earth,
/// moving at a speed and on a course that can be, and with no empty text.
pub open spec fn is_sound(report: ReportView) -> bool {
    match report {
        ReportView::Position(p) => {
            &&& p.mmsi != 0
            &&& -54_000_000 <= p.lat <= 54_000_000
            &&& -108_000_000 <= p.lon <= 108_000_000
            &&& p.sog_tenths matches Some(v) ==> v < 1023
            &&& p.cog_tenths matches Some(v) ==> v < 3600
            &&& p.heading_deg matches Some(v) ==> v < 360
            &&& p.class == Class::B ==> p.status is None
        },
        ReportView::Particulars(p) => {
            &&& p.mmsi != 0
            &&& p.name matches Some(t) ==> t.len() > 0
            &&& p.callsign matches Some(t) ==> t.len() > 0
            &&& p.destination matches Some(t) ==> t.len() > 0
            &&& p.ship_type matches Some(t) ==> t != 0
            &&& p.length_m matches Some(m) ==> m > 0
            &&& p.beam_m matches Some(m) ==> m > 0
        },
    }
}

/// Whatever a payload holds, each report made of it is sound.
pub proof fn reports_are_sound(payload: Seq<char>, fill: nat)
    ensures
        forall|i: int|
            0 <= i < decoded(payload, fill).len() ==> is_sound(
                #[trigger] decoded(payload, fill)[i],
            ),
{
    if let Some(bits) = bits_of(payload, fill) {
        lemma_reports_sound(bits);
    }
}

#[verifier::spinoff_prover]
#[verifier::rlimit(50)]
proof fn lemma_reports_sound(bits: Seq<bool>)
    ensures
        forall|i: int|
            0 <= i < reports_of(bits).len() ==> is_sound(#[trigger] reports_of(bits)[i]),
{
    if let (Some(n), Some(kind)) = (uint_at(bits, 8, 30), uint_at(bits, 0, 6)) {
        lemma_bits_small(bits.subrange(8, 38), 30);
        let mmsi: u32 = n as u32;
        let r = reports_of(bits);
        if n == 0 {
        } else if 1 <= kind <= 3 && bits.len() >= 168 {
        } else if kind == 18 && bits.len() >= 168 {
        } else if kind == 19 && bits.len() >= 312 {
            lemma_type_sound(bits, 263);
            lemma_sum_sound(bits, 271, 9);
            lemma_sum_sound(bits, 289, 6);
            assert(is_sound(r.last()));
        } else if kind == 5 && bits.len() >= 422 {
            lemma_type_sound(bits, 232);
            lemma_sum_sound(bits, 240, 9);
            lemma_sum_sound(bits, 258, 6);
            assert(is_sound(r[0]));
        } else if kind == 24 && uint_at(bits, 38, 2) == Some(0nat) && bits.len() >= 160 {
            assert(is_sound(r[0]));
        } else if kind == 24 && uint_at(bits, 38, 2) == Some(1nat) && bits.len() >= 162 {
            lemma_type_sound(bits, 40);
            lemma_sum_sound(bits, 132, 9);
            lemma_sum_sound(bits, 150, 6);
            assert(is_sound(r[0]));
        }
    }
}

proof fn lemma_type_sound(bits: Seq<bool>, at: int)
    requires
        0 <= at,
    ensures
        ship_type_at(bits, at) matches Some(t) ==> t != 0,
{
    if at + 8 <= bits.len() {
        lemma_bits_small(bits.subrange(at, at + 8), 8);
    }
}

proof fn lemma_sum_sound(bits: Seq<bool>, at: int, len: int)
    requires
        0 <= at,
        len == 6 || len == 9,
    ensures
        sum_at(bits, at, len) matches Some(m) ==> m > 0,
{
    if at + len + len <= bits.len() {
        lemma_bits_small(bits.subrange(at, at + len), len as nat);
        lemma_bits_small(bits.subrange(at + len, at + len + len), len as nat);
    }
}

/// Particulars mean what their fields hold.
pub proof fn particulars_are_viewed_as_they_are(x: Particulars)
    ensures
        x@.mmsi == x.mmsi,
        x@.name is Some <==> x.name is Some,
        x.name matches Some(inner) ==> x@.name == Some(inner@),
        x@.callsign is Some <==> x.callsign is Some,
        x.callsign matches Some(inner) ==> x@.callsign == Some(inner@),
        x@.ship_type == x.ship_type,
        x@.length_m == x.length_m,
        x@.beam_m == x.beam_m,
        x@.destination is Some <==> x.destination is Some,
        x.destination matches Some(inner) ==> x@.destination == Some(inner@),
{
}

/// A first sentence opens its message behind those that wait. With four
/// waiting, the oldest gives way, and no other.
pub proof fn a_fifth_message_displaces_the_oldest(pending: Seq<PendingView>, s: SentenceView)
    requires
        is_queue(pending),
        part_of(s) matches Some(part) && part.number == 1 && part.count > 1,
        forall|i: int|
            0 <= i < pending.len() ==> {
                let p = #[trigger] pending[i];
                p.id != part_of(s)->0.id || p.channel != part_of(s)->0.channel || p.count
                    != part_of(s)->0.count
            },
    ensures
        ({
            let part = part_of(s)->0;
            let opening = PendingView {
                count: part.count,
                next: 2,
                id: part.id,
                channel: part.channel,
                payload: part.payload,
            };
            fed(pending, s) == (
                if pending.len() < 4 {
                    pending.push(opening)
                } else {
                    pending.subrange(1, 4).push(opening)
                },
                Seq::<ReportView>::empty(),
            )
        }),
{
    let part = part_of(s)->0;
    assert forall|i: int| 0 <= i < pending.len() implies !belongs(#[trigger] pending[i], part) by {}
    lemma_all_stay(pending, part);
    assert(pending.len() == 4 ==> pending.drop_first() =~= pending.subrange(1, 4));
}

proof fn lemma_all_stay(pending: Seq<PendingView>, part: Part)
    requires
        forall|i: int| 0 <= i < pending.len() ==> !belongs(#[trigger] pending[i], part),
    ensures
        without(pending, part) == pending,
    decreases pending.len(),
{
    if pending.len() > 0 {
        let front = pending.drop_last();
        assert forall|i: int| 0 <= i < front.len() implies !belongs(#[trigger] front[i], part) by {
            assert(front[i] == pending[i]);
        }
        lemma_all_stay(front, part);
        assert(!belongs(pending[pending.len() - 1], part));
        assert(front.push(pending.last()) =~= pending);
    }
}

/// A first sentence that comes again starts its message anew: what had come of
/// it is forgotten, and what comes next belongs to the new one.
pub proof fn a_message_may_start_anew(pending: Seq<PendingView>, s: SentenceView, i: int)
    requires
        is_queue(pending),
        part_of(s) matches Some(part) && part.number == 1 && part.count > 1,
        0 <= i < fed(pending, s).0.len() - 1,
    ensures
        ({
            let part = part_of(s)->0;
            let after = fed(pending, s).0;
            &&& after.last().payload == part.payload
            &&& after.last().next == 2
            &&& after[i].id != part.id || after[i].channel != part.channel || after[i].count
                != part.count
            &&& fed(pending, s).1.len() == 0
        }),
{
    let part = part_of(s)->0;
    lemma_feed_keeps_queue(pending, s);
    let after = fed(pending, s).0;
    assert(!alike(after[i], after[after.len() - 1]));
}

} // verus!
