//! What a transponder sends: AIS messages as ITU-R M.1371 lays them out,
//! field by field, and the proof that decoding gives back what was sent.

use crate::ais;
use crate::ais::{Class, Part, ParticularsView, PendingView, Position, ReportView};
use crate::nmea::SentenceView;
use crate::text;
use vstd::arithmetic::power2::*;
use vstd::prelude::*;

verus! {

/// A number in `n` bits, most significant first.
pub open spec fn number(v: nat, n: nat) -> Seq<bool>
    decreases n,
{
    if n == 0 {
        Seq::empty()
    } else {
        number(v / 2, (n - 1) as nat).push(v % 2 == 1)
    }
}

/// A number in `n` bits of two's complement.
pub open spec fn signed(v: int, n: nat) -> Seq<bool> {
    if v >= 0 {
        number(v as nat, n)
    } else {
        number((v + pow2(n)) as nat, n)
    }
}

/// A six-bit character's number: `@` to `_` are 0 to 31, space to `?` are 32
/// to 63.
pub open spec fn letter(c: char) -> nat {
    if c >= '@' {
        (c as int - '@' as int) as nat
    } else {
        c as nat
    }
}

/// Text in `count` six-bit characters, padded with `@`.
pub open spec fn letters(t: Seq<char>, count: nat) -> Seq<bool>
    decreases count,
{
    if count == 0 {
        Seq::empty()
    } else {
        number(
            if t.len() == 0 {
                0
            } else {
                letter(t[0])
            },
            6,
        ) + letters(
            if t.len() == 0 {
                t
            } else {
                t.drop_first()
            },
            (count - 1) as nat,
        )
    }
}

/// Characters that six bits hold, other than `@`: `@` ends a text.
pub open spec fn is_letters(t: Seq<char>) -> bool {
    forall|i: int| 0 <= i < t.len() ==> ' ' <= #[trigger] t[i] <= '_' && t[i] != '@'
}

/// A text as it is sent in at most `count` characters: spaces may follow it,
/// and only spaces, or nothing, stand for no text.
pub open spec fn is_text_sent_as(field: Option<Seq<char>>, sent: Seq<char>, count: nat) -> bool {
    &&& sent.len() <= count
    &&& is_letters(sent)
    &&& match field {
        Some(t) => {
            &&& 0 < t.len() <= sent.len()
            &&& t.last() != ' '
            &&& sent.take(t.len() as int) == t
            &&& forall|i: int| t.len() <= i < sent.len() ==> #[trigger] sent[i] == ' '
        },
        None => forall|i: int| 0 <= i < sent.len() ==> #[trigger] sent[i] == ' ',
    }
}

/// Fields one after the other.
pub open spec fn laid_out(fields: Seq<Seq<bool>>) -> Seq<bool>
    decreases fields.len(),
{
    if fields.len() == 0 {
        Seq::empty()
    } else {
        laid_out(fields.drop_last()) + fields.last()
    }
}

proof fn lemma_number(v: nat, n: nat)
    ensures
        number(v, n).len() == n,
        v < pow2(n) ==> ais::bits_value(number(v, n)) == v,
    decreases n,
{
    lemma2_to64();
    if n > 0 {
        lemma_number(v / 2, (n - 1) as nat);
        lemma_pow2_unfold(n);
        assert(number(v, n).drop_last() =~= number(v / 2, (n - 1) as nat));
    }
}

/// Where field `i` starts.
spec fn start_of(fields: Seq<Seq<bool>>, i: int) -> int {
    laid_out(fields.take(i)).len() as int
}

proof fn lemma_field(fields: Seq<Seq<bool>>, i: int)
    requires
        0 <= i < fields.len(),
    ensures
        start_of(fields, 0) == 0,
        start_of(fields, i + 1) == start_of(fields, i) + fields[i].len(),
        start_of(fields, i + 1) <= laid_out(fields).len(),
        laid_out(fields).subrange(start_of(fields, i), start_of(fields, i + 1)) == fields[i],
        i + 1 == fields.len() ==> start_of(fields, i + 1) == laid_out(fields).len(),
    decreases fields.len(),
{
    let front = fields.drop_last();
    assert(fields.take(0) =~= Seq::<Seq<bool>>::empty());
    assert(fields.take(i + 1).drop_last() =~= fields.take(i));
    assert(fields.take(i + 1).last() == fields[i]);
    let all = laid_out(fields);
    if i + 1 == fields.len() {
        assert(fields.take(i + 1) =~= fields);
        assert(all.subrange(start_of(fields, i), start_of(fields, i + 1)) =~= fields[i]);
    } else {
        lemma_field(front, i);
        assert(front.take(i) =~= fields.take(i));
        assert(front.take(i + 1) =~= fields.take(i + 1));
        assert(all.subrange(start_of(fields, i), start_of(fields, i + 1)) =~= laid_out(
            front,
        ).subrange(start_of(fields, i), start_of(fields, i + 1)));
    }
}

/// A number that stands somewhere is read from there.
proof fn lemma_reads(bits: Seq<bool>, start: int, v: nat, n: nat)
    requires
        0 <= start,
        start + n <= bits.len(),
        bits.subrange(start, start + n) == number(v, n),
        v < pow2(n),
    ensures
        ais::uint_at(bits, start, n as int) == Some(v),
{
    lemma_number(v, n);
}

/// A signed number that stands somewhere is read from there.
proof fn lemma_reads_signed(bits: Seq<bool>, start: int, v: int, n: nat)
    requires
        0 <= start,
        0 < n,
        start + n <= bits.len(),
        bits.subrange(start, start + n) == signed(v, n),
        -pow2((n - 1) as nat) <= v < pow2((n - 1) as nat),
    ensures
        ais::int_at(bits, start, n as int) == Some(v),
{
    lemma_pow2_unfold(n);
    lemma_pow2_pos((n - 1) as nat);
    let field = bits.subrange(start, start + n);
    assert(field[0] == bits[start]);
    let raw: nat = if v >= 0 {
        v as nat
    } else {
        (v + pow2(n)) as nat
    };
    lemma_number(raw, n);
    if bits[start] {
        ais::lemma_top_set(field);
    } else {
        ais::lemma_top_clear(field);
    }
}

proof fn lemma_letters_len(t: Seq<char>, count: nat)
    ensures
        letters(t, count).len() == 6 * count,
    decreases count,
{
    if count > 0 {
        let rest = if t.len() == 0 {
            t
        } else {
            t.drop_first()
        };
        lemma_letters_len(rest, (count - 1) as nat);
        lemma_number(
            if t.len() == 0 {
                0
            } else {
                letter(t[0])
            },
            6,
        );
    }
}

/// Text that stands somewhere is read from there, up to its padding.
proof fn lemma_reads_letters(bits: Seq<bool>, start: int, t: Seq<char>, count: nat)
    requires
        0 <= start,
        start + 6 * count <= bits.len(),
        bits.subrange(start, start + 6 * count) == letters(t, count),
        t.len() <= count,
        forall|i: int| 0 <= i < t.len() ==> ' ' <= #[trigger] t[i] <= '_' && t[i] != '@',
    ensures
        ais::six_text(bits, start, count) == Some(t),
    decreases count,
{
    if count == 0 {
        assert(t =~= Seq::<char>::empty());
    } else {
        lemma2_to64();
        let field = bits.subrange(start, start + 6 * count);
        let v = if t.len() == 0 {
            0
        } else {
            letter(t[0])
        };
        lemma_number(v, 6);
        lemma_letters_len(t, count);
        assert(bits.subrange(start, start + 6) =~= field.take(6));
        assert(field.take(6) =~= number(v, 6));
        assert(ais::uint_at(bits, start, 6) == Some(v));
        if t.len() == 0 {
            assert(t =~= Seq::<char>::empty());
        } else {
            let rest = t.drop_first();
            assert forall|i: int| 0 <= i < rest.len() implies ' ' <= #[trigger] rest[i] <= '_'
                && rest[i] != '@' by {
                assert(rest[i] == t[i + 1]);
            }
            assert(bits.subrange(start + 6, start + 6 + 6 * (count - 1)) =~= field.skip(6));
            assert(field.skip(6) =~= letters(rest, (count - 1) as nat));
            lemma_reads_letters(bits, start + 6, rest, (count - 1) as nat);
            assert(ais::six_char(v) == t[0]);
            assert(seq![t[0]] + rest =~= t);
        }
    }
}

proof fn lemma_spaces_go(sent: Seq<char>, n: int)
    requires
        0 <= n <= sent.len(),
        forall|i: int| n <= i < sent.len() ==> #[trigger] sent[i] == ' ',
        n > 0 ==> !text::is_space(sent[n - 1]),
    ensures
        text::trim_end(sent) == sent.take(n),
    decreases sent.len(),
{
    if n < sent.len() {
        let front = sent.drop_last();
        assert(sent.last() == sent[sent.len() - 1]);
        assert forall|i: int| n <= i < front.len() implies #[trigger] front[i] == ' ' by {
            assert(front[i] == sent[i]);
        }
        lemma_spaces_go(front, n);
        assert(front.take(n) =~= sent.take(n));
    } else {
        assert(sent.take(n) =~= sent);
    }
}

proof fn lemma_reads_text(
    bits: Seq<bool>,
    start: int,
    field: Option<Seq<char>>,
    sent: Seq<char>,
    count: nat,
)
    requires
        0 <= start,
        start + 6 * count <= bits.len(),
        bits.subrange(start, start + 6 * count) == letters(sent, count),
        is_text_sent_as(field, sent, count),
    ensures
        ais::text_at(bits, start, count) == field,
{
    lemma_reads_letters(bits, start, sent, count);
    match field {
        Some(t) => {
            let n = t.len() as int;
            assert(sent[n - 1] == t[n - 1]);
            assert(' ' <= sent[n - 1] <= '_');
            lemma_spaces_go(sent, n);
        },
        None => {
            lemma_spaces_go(sent, 0);
        },
    }
}

/// A payload character: 0 to 39 are `0` to `W`, 40 to 63 are a backquote to
/// `w`.
pub open spec fn armor(v: nat) -> char {
    (if v < 40 {
        v + 48
    } else {
        v + 56
    }) as char
}

/// How many bits are missing to the next whole character.
pub open spec fn fill_of(bits: Seq<bool>) -> nat {
    ((6 - bits.len() % 6) % 6) as nat
}

/// Bits as payload characters, six to a character, the last one filled up.
pub open spec fn armored(bits: Seq<bool>) -> Seq<char> {
    let padded = bits + Seq::new(fill_of(bits), |i: int| false);
    Seq::new(
        padded.len() / 6,
        |i: int| armor(ais::bits_value(padded.subrange(6 * i, 6 * i + 6))),
    )
}

/// A payload character carries six bits, and every six bits have one
/// character.
pub proof fn a_character_carries_six_bits(c: char)
    ensures
        ais::armor_value(c) matches Some(v) ==> 0 <= v < 64 && armor(v as nat) == c,
        forall|v: nat| v < 64 ==> ais::armor_value(#[trigger] armor(v)) == Some(v as int),
{
}

proof fn lemma_six(bits: Seq<bool>)
    requires
        bits.len() == 6,
    ensures
        ais::bits_value(bits) < 64,
        ais::six_bits(ais::bits_value(bits) as int) == bits,
{
    lemma2_to64();
    ais::lemma_bits_bound(bits);
    reveal_with_fuel(ais::bits_value, 7);
    let b = bits;
    let one = |x: bool| -> int { if x { 1int } else { 0int } };
    assert(b.drop_last() =~= seq![b[0], b[1], b[2], b[3], b[4]]);
    assert(b.drop_last().drop_last() =~= seq![b[0], b[1], b[2], b[3]]);
    assert(b.drop_last().drop_last().drop_last() =~= seq![b[0], b[1], b[2]]);
    assert(b.drop_last().drop_last().drop_last().drop_last() =~= seq![b[0], b[1]]);
    assert(b.drop_last().drop_last().drop_last().drop_last().drop_last() =~= seq![b[0]]);
    let v = ais::bits_value(b) as int;
    assert(v == 32 * one(b[0]) + 16 * one(b[1]) + 8 * one(b[2]) + 4 * one(b[3]) + 2 * one(b[4])
        + one(b[5]));
    assert(ais::six_bits(v) =~= b);
}

proof fn lemma_unarmored(payload: Seq<char>, bits: Seq<bool>)
    requires
        bits.len() == 6 * payload.len(),
        forall|i: int|
            0 <= i < payload.len() ==> #[trigger] payload[i] == armor(
                ais::bits_value(bits.subrange(6 * i, 6 * i + 6)),
            ),
    ensures
        ais::unarmored(payload) == Some(bits),
    decreases payload.len(),
{
    if payload.len() == 0 {
        assert(bits =~= Seq::<bool>::empty());
    } else {
        let n = payload.len() - 1;
        let front = payload.drop_last();
        let most = bits.take(6 * n);
        assert forall|i: int| 0 <= i < front.len() implies #[trigger] front[i] == armor(
            ais::bits_value(most.subrange(6 * i, 6 * i + 6)),
        ) by {
            assert(front[i] == payload[i]);
            assert(most.subrange(6 * i, 6 * i + 6) =~= bits.subrange(6 * i, 6 * i + 6));
        }
        lemma_unarmored(front, most);
        let six = bits.subrange(6 * n, 6 * n + 6);
        lemma_six(six);
        assert(payload.last() == payload[n]);
        assert(most + six =~= bits);
    }
}

/// What is armored comes out of the armor as it went in.
pub proof fn armor_comes_off(bits: Seq<bool>)
    ensures
        ais::bits_of(armored(bits), fill_of(bits)) == Some(bits),
{
    let padded = bits + Seq::new(fill_of(bits), |i: int| false);
    assert(padded.len() % 6 == 0);
    lemma_unarmored(armored(bits), padded);
    assert(padded.take(padded.len() - fill_of(bits)) =~= bits);
}

/// A payload with a character that carries no bits reports nothing, and so
/// does one whose fill is more than a character leaves over.
pub proof fn what_is_not_armor_reports_nothing(payload: Seq<char>, fill: nat, i: int)
    requires
        fill > 5 || (0 <= i < payload.len() && forall|v: nat|
            v < 64 ==> #[trigger] armor(v) != payload[i]),
    ensures
        ais::decoded(payload, fill) == Seq::<ReportView>::empty(),
{
    if fill <= 5 {
        a_character_carries_six_bits(payload[i]);
        lemma_not_armor(payload, i);
    }
}

proof fn lemma_not_armor(payload: Seq<char>, i: int)
    requires
        0 <= i < payload.len(),
        ais::armor_value(payload[i]) is None,
    ensures
        ais::unarmored(payload) is None,
    decreases payload.len(),
{
    if i < payload.len() - 1 {
        assert(payload.drop_last()[i] == payload[i]);
        lemma_not_armor(payload.drop_last(), i);
    }
}

/// A number that a message leaves out is sent as `absent` or more.
pub open spec fn is_sent_as(field: Option<u16>, raw: nat, absent: nat) -> bool {
    match field {
        Some(v) => raw == v && v < absent,
        None => raw >= absent,
    }
}

proof fn lemma_position(
    bits: Seq<bool>,
    at: int,
    p: Position,
    lon: int,
    lat: int,
    sog: nat,
    cog: nat,
    heading: nat,
)
    requires
        0 <= at,
        at + 87 <= bits.len(),
        bits.subrange(at, at + 10) == number(sog, 10),
        bits.subrange(at + 11, at + 39) == signed(lon, 28),
        bits.subrange(at + 39, at + 66) == signed(lat, 27),
        bits.subrange(at + 66, at + 78) == number(cog, 12),
        bits.subrange(at + 78, at + 87) == number(heading, 9),
        sog < 1024,
        cog < 4096,
        heading < 512,
        -134_217_728 <= lon < 134_217_728,
        -67_108_864 <= lat < 67_108_864,
        is_sent_as(p.sog_tenths, sog, 1023),
        is_sent_as(p.cog_tenths, cog, 3600),
        is_sent_as(p.heading_deg, heading, 360),
    ensures
        ais::position_at(bits, p.mmsi, p.class, p.status, at) == (if -108_000_000 <= lon
            <= 108_000_000 && -54_000_000 <= lat <= 54_000_000 {
            Some(Position { lat: lat as i32, lon: lon as i32, ..p })
        } else {
            None
        }),
{
    lemma2_to64();
    lemma_reads(bits, at, sog, 10);
    lemma_reads_signed(bits, at + 11, lon, 28);
    lemma_reads_signed(bits, at + 39, lat, 27);
    lemma_reads(bits, at + 66, cog, 12);
    lemma_reads(bits, at + 78, heading, 9);
}

/// A class A position report, as messages of type 1, 2 and 3 all lay it out:
/// type, repeat, MMSI, status, rate of turn, speed, accuracy, longitude,
/// latitude, course, heading, and what follows them.
pub open spec fn class_a(
    kind: nat,
    repeat: Seq<bool>,
    mmsi: nat,
    status: nat,
    turn: Seq<bool>,
    sog: nat,
    accuracy: bool,
    lon: int,
    lat: int,
    cog: nat,
    heading: nat,
    rest: Seq<bool>,
) -> Seq<bool> {
    laid_out(
        seq![
            number(kind, 6),
            repeat,
            number(mmsi, 30),
            number(status, 4),
            turn,
            number(sog, 10),
            seq![accuracy],
            signed(lon, 28),
            signed(lat, 27),
            number(cog, 12),
            number(heading, 9),
            rest,
        ],
    )
}

#[verifier::spinoff_prover]
proof fn lemma_class_a(
    kind: nat,
    repeat: Seq<bool>,
    mmsi: nat,
    status: nat,
    turn: Seq<bool>,
    sog: nat,
    accuracy: bool,
    lon: int,
    lat: int,
    cog: nat,
    heading: nat,
    rest: Seq<bool>,
)
    requires
        repeat.len() == 2,
        turn.len() == 8,
    ensures
        ({
            let bits = class_a(
                kind,
                repeat,
                mmsi,
                status,
                turn,
                sog,
                accuracy,
                lon,
                lat,
                cog,
                heading,
                rest,
            );
            &&& bits.len() == 137 + rest.len()
            &&& bits.subrange(0, 6) == number(kind, 6)
            &&& bits.subrange(8, 38) == number(mmsi, 30)
            &&& bits.subrange(38, 42) == number(status, 4)
            &&& bits.subrange(50, 60) == number(sog, 10)
            &&& bits.subrange(61, 89) == signed(lon, 28)
            &&& bits.subrange(89, 116) == signed(lat, 27)
            &&& bits.subrange(116, 128) == number(cog, 12)
            &&& bits.subrange(128, 137) == number(heading, 9)
        }),
{
    let fields = seq![
        number(kind, 6),
        repeat,
        number(mmsi, 30),
        number(status, 4),
        turn,
        number(sog, 10),
        seq![accuracy],
        signed(lon, 28),
        signed(lat, 27),
        number(cog, 12),
        number(heading, 9),
        rest,
    ];
    lemma_number(kind, 6);
    lemma_number(mmsi, 30);
    lemma_number(status, 4);
    lemma_number(sog, 10);
    lemma_signed_len(lon, 28);
    lemma_signed_len(lat, 27);
    lemma_number(cog, 12);
    lemma_number(heading, 9);
    lemma_field(fields, 0);
    lemma_field(fields, 1);
    lemma_field(fields, 2);
    lemma_field(fields, 3);
    lemma_field(fields, 4);
    lemma_field(fields, 5);
    lemma_field(fields, 6);
    lemma_field(fields, 7);
    lemma_field(fields, 8);
    lemma_field(fields, 9);
    lemma_field(fields, 10);
    lemma_field(fields, 11);
}

proof fn lemma_signed_len(v: int, n: nat)
    ensures
        signed(v, n).len() == n,
{
    lemma_number(v as nat, n);
    lemma_number((v + pow2(n)) as nat, n);
}

/// A class A position, sent in a message of type 1, 2 or 3, is what is
/// decoded from it, and nothing else is: which of the three types it is makes
/// no difference, and neither do the fields around it.
pub proof fn a_class_a_position_is_read_back(
    kind: nat,
    p: Position,
    repeat: Seq<bool>,
    turn: Seq<bool>,
    sog: nat,
    accuracy: bool,
    cog: nat,
    heading: nat,
    rest: Seq<bool>,
)
    requires
        kind == 1 || kind == 2 || kind == 3,
        p.class == Class::A,
        0 < p.mmsi < 1_073_741_824,
        p.status matches Some(s) && s < 16,
        -108_000_000 <= p.lon <= 108_000_000,
        -54_000_000 <= p.lat <= 54_000_000,
        is_sent_as(p.sog_tenths, sog, 1023) && sog < 1024,
        is_sent_as(p.cog_tenths, cog, 3600) && cog < 4096,
        is_sent_as(p.heading_deg, heading, 360) && heading < 512,
        repeat.len() == 2,
        turn.len() == 8,
        rest.len() >= 31,
    ensures
        ({
            let bits = class_a(
                kind,
                repeat,
                p.mmsi as nat,
                p.status->0 as nat,
                turn,
                sog,
                accuracy,
                p.lon as int,
                p.lat as int,
                cog,
                heading,
                rest,
            );
            ais::decoded(armored(bits), fill_of(bits)) == seq![ReportView::Position(p)]
        }),
{
    lemma2_to64();
    let mmsi = p.mmsi as nat;
    let status = p.status->0 as nat;
    let lon = p.lon as int;
    let lat = p.lat as int;
    lemma_class_a(
        kind,
        repeat,
        mmsi,
        status,
        turn,
        sog,
        accuracy,
        lon,
        lat,
        cog,
        heading,
        rest,
    );
    let bits = class_a(
        kind,
        repeat,
        mmsi,
        status,
        turn,
        sog,
        accuracy,
        lon,
        lat,
        cog,
        heading,
        rest,
    );
    armor_comes_off(bits);
    lemma_reads(bits, 0, kind, 6);
    lemma_reads(bits, 8, mmsi, 30);
    lemma_reads(bits, 38, status, 4);
    lemma_position(bits, 50, p, lon, lat, sog, cog, heading);
}

/// A class B position report, type 18: MMSI, then the same run of fields as in
/// class A from speed on.
pub open spec fn class_b(
    repeat: Seq<bool>,
    mmsi: nat,
    reserved: Seq<bool>,
    sog: nat,
    accuracy: bool,
    lon: int,
    lat: int,
    cog: nat,
    heading: nat,
    rest: Seq<bool>,
) -> Seq<bool> {
    laid_out(
        seq![
            number(18, 6),
            repeat,
            number(mmsi, 30),
            reserved,
            number(sog, 10),
            seq![accuracy],
            signed(lon, 28),
            signed(lat, 27),
            number(cog, 12),
            number(heading, 9),
            rest,
        ],
    )
}

#[verifier::spinoff_prover]
proof fn lemma_class_b(
    repeat: Seq<bool>,
    mmsi: nat,
    reserved: Seq<bool>,
    sog: nat,
    accuracy: bool,
    lon: int,
    lat: int,
    cog: nat,
    heading: nat,
    rest: Seq<bool>,
)
    requires
        repeat.len() == 2,
        reserved.len() == 8,
    ensures
        ({
            let bits = class_b(repeat, mmsi, reserved, sog, accuracy, lon, lat, cog, heading, rest);
            &&& bits.len() == 133 + rest.len()
            &&& bits.subrange(0, 6) == number(18, 6)
            &&& bits.subrange(8, 38) == number(mmsi, 30)
            &&& bits.subrange(46, 56) == number(sog, 10)
            &&& bits.subrange(57, 85) == signed(lon, 28)
            &&& bits.subrange(85, 112) == signed(lat, 27)
            &&& bits.subrange(112, 124) == number(cog, 12)
            &&& bits.subrange(124, 133) == number(heading, 9)
        }),
{
    let fields = seq![
        number(18, 6),
        repeat,
        number(mmsi, 30),
        reserved,
        number(sog, 10),
        seq![accuracy],
        signed(lon, 28),
        signed(lat, 27),
        number(cog, 12),
        number(heading, 9),
        rest,
    ];
    lemma_number(18, 6);
    lemma_number(mmsi, 30);
    lemma_number(sog, 10);
    lemma_signed_len(lon, 28);
    lemma_signed_len(lat, 27);
    lemma_number(cog, 12);
    lemma_number(heading, 9);
    lemma_field(fields, 0);
    lemma_field(fields, 1);
    lemma_field(fields, 2);
    lemma_field(fields, 3);
    lemma_field(fields, 4);
    lemma_field(fields, 5);
    lemma_field(fields, 6);
    lemma_field(fields, 7);
    lemma_field(fields, 8);
    lemma_field(fields, 9);
    lemma_field(fields, 10);
}

/// A class B position report with the vessel's particulars, type 19.
pub open spec fn class_b_extended(
    repeat: Seq<bool>,
    mmsi: nat,
    reserved: Seq<bool>,
    sog: nat,
    accuracy: bool,
    lon: int,
    lat: int,
    cog: nat,
    heading: nat,
    seconds: Seq<bool>,
    name: Seq<char>,
    ship_type: nat,
    bow: nat,
    stern: nat,
    port: nat,
    starboard: nat,
    rest: Seq<bool>,
) -> Seq<bool> {
    laid_out(
        seq![
            number(19, 6),
            repeat,
            number(mmsi, 30),
            reserved,
            number(sog, 10),
            seq![accuracy],
            signed(lon, 28),
            signed(lat, 27),
            number(cog, 12),
            number(heading, 9),
            seconds,
            letters(name, 20),
            number(ship_type, 8),
            number(bow, 9),
            number(stern, 9),
            number(port, 6),
            number(starboard, 6),
            rest,
        ],
    )
}

#[verifier::spinoff_prover]
proof fn lemma_class_b_extended(
    repeat: Seq<bool>,
    mmsi: nat,
    reserved: Seq<bool>,
    sog: nat,
    accuracy: bool,
    lon: int,
    lat: int,
    cog: nat,
    heading: nat,
    seconds: Seq<bool>,
    name: Seq<char>,
    ship_type: nat,
    bow: nat,
    stern: nat,
    port: nat,
    starboard: nat,
    rest: Seq<bool>,
)
    requires
        repeat.len() == 2,
        reserved.len() == 8,
        seconds.len() == 10,
    ensures
        ({
            let bits = class_b_extended(
                repeat,
                mmsi,
                reserved,
                sog,
                accuracy,
                lon,
                lat,
                cog,
                heading,
                seconds,
                name,
                ship_type,
                bow,
                stern,
                port,
                starboard,
                rest,
            );
            &&& bits.len() == 301 + rest.len()
            &&& bits.subrange(0, 6) == number(19, 6)
            &&& bits.subrange(8, 38) == number(mmsi, 30)
            &&& bits.subrange(46, 56) == number(sog, 10)
            &&& bits.subrange(57, 85) == signed(lon, 28)
            &&& bits.subrange(85, 112) == signed(lat, 27)
            &&& bits.subrange(112, 124) == number(cog, 12)
            &&& bits.subrange(124, 133) == number(heading, 9)
            &&& bits.subrange(143, 263) == letters(name, 20)
            &&& bits.subrange(263, 271) == number(ship_type, 8)
            &&& bits.subrange(271, 280) == number(bow, 9)
            &&& bits.subrange(280, 289) == number(stern, 9)
            &&& bits.subrange(289, 295) == number(port, 6)
            &&& bits.subrange(295, 301) == number(starboard, 6)
        }),
{
    let fields = seq![
        number(19, 6),
        repeat,
        number(mmsi, 30),
        reserved,
        number(sog, 10),
        seq![accuracy],
        signed(lon, 28),
        signed(lat, 27),
        number(cog, 12),
        number(heading, 9),
        seconds,
        letters(name, 20),
        number(ship_type, 8),
        number(bow, 9),
        number(stern, 9),
        number(port, 6),
        number(starboard, 6),
        rest,
    ];
    lemma_number(19, 6);
    lemma_number(mmsi, 30);
    lemma_number(sog, 10);
    lemma_signed_len(lon, 28);
    lemma_signed_len(lat, 27);
    lemma_number(cog, 12);
    lemma_number(heading, 9);
    lemma_letters_len(name, 20);
    lemma_number(ship_type, 8);
    lemma_number(bow, 9);
    lemma_number(stern, 9);
    lemma_number(port, 6);
    lemma_number(starboard, 6);
    lemma_field(fields, 0);
    lemma_field(fields, 1);
    lemma_field(fields, 2);
    lemma_field(fields, 3);
    lemma_field(fields, 4);
    lemma_field(fields, 5);
    lemma_field(fields, 6);
    lemma_field(fields, 7);
    lemma_field(fields, 8);
    lemma_field(fields, 9);
    lemma_field(fields, 10);
    lemma_field(fields, 11);
    lemma_field(fields, 12);
    lemma_field(fields, 13);
    lemma_field(fields, 14);
    lemma_field(fields, 15);
    lemma_field(fields, 16);
    lemma_field(fields, 17);
}

/// Static and voyage data, type 5.
pub open spec fn voyage(
    repeat: Seq<bool>,
    mmsi: nat,
    version: Seq<bool>,
    imo: Seq<bool>,
    callsign: Seq<char>,
    name: Seq<char>,
    ship_type: nat,
    bow: nat,
    stern: nat,
    port: nat,
    starboard: nat,
    eta: Seq<bool>,
    draught: Seq<bool>,
    destination: Seq<char>,
    rest: Seq<bool>,
) -> Seq<bool> {
    laid_out(
        seq![
            number(5, 6),
            repeat,
            number(mmsi, 30),
            version,
            imo,
            letters(callsign, 7),
            letters(name, 20),
            number(ship_type, 8),
            number(bow, 9),
            number(stern, 9),
            number(port, 6),
            number(starboard, 6),
            eta,
            draught,
            letters(destination, 20),
            rest,
        ],
    )
}

#[verifier::spinoff_prover]
proof fn lemma_voyage(
    repeat: Seq<bool>,
    mmsi: nat,
    version: Seq<bool>,
    imo: Seq<bool>,
    callsign: Seq<char>,
    name: Seq<char>,
    ship_type: nat,
    bow: nat,
    stern: nat,
    port: nat,
    starboard: nat,
    eta: Seq<bool>,
    draught: Seq<bool>,
    destination: Seq<char>,
    rest: Seq<bool>,
)
    requires
        repeat.len() == 2,
        version.len() == 2,
        imo.len() == 30,
        eta.len() == 24,
        draught.len() == 8,
    ensures
        ({
            let bits = voyage(
                repeat,
                mmsi,
                version,
                imo,
                callsign,
                name,
                ship_type,
                bow,
                stern,
                port,
                starboard,
                eta,
                draught,
                destination,
                rest,
            );
            &&& bits.len() == 422 + rest.len()
            &&& bits.subrange(0, 6) == number(5, 6)
            &&& bits.subrange(8, 38) == number(mmsi, 30)
            &&& bits.subrange(70, 112) == letters(callsign, 7)
            &&& bits.subrange(112, 232) == letters(name, 20)
            &&& bits.subrange(232, 240) == number(ship_type, 8)
            &&& bits.subrange(240, 249) == number(bow, 9)
            &&& bits.subrange(249, 258) == number(stern, 9)
            &&& bits.subrange(258, 264) == number(port, 6)
            &&& bits.subrange(264, 270) == number(starboard, 6)
            &&& bits.subrange(302, 422) == letters(destination, 20)
        }),
{
    let fields = seq![
        number(5, 6),
        repeat,
        number(mmsi, 30),
        version,
        imo,
        letters(callsign, 7),
        letters(name, 20),
        number(ship_type, 8),
        number(bow, 9),
        number(stern, 9),
        number(port, 6),
        number(starboard, 6),
        eta,
        draught,
        letters(destination, 20),
        rest,
    ];
    lemma_number(5, 6);
    lemma_number(mmsi, 30);
    lemma_letters_len(callsign, 7);
    lemma_letters_len(name, 20);
    lemma_number(ship_type, 8);
    lemma_number(bow, 9);
    lemma_number(stern, 9);
    lemma_number(port, 6);
    lemma_number(starboard, 6);
    lemma_letters_len(destination, 20);
    lemma_field(fields, 0);
    lemma_field(fields, 1);
    lemma_field(fields, 2);
    lemma_field(fields, 3);
    lemma_field(fields, 4);
    lemma_field(fields, 5);
    lemma_field(fields, 6);
    lemma_field(fields, 7);
    lemma_field(fields, 8);
    lemma_field(fields, 9);
    lemma_field(fields, 10);
    lemma_field(fields, 11);
    lemma_field(fields, 12);
    lemma_field(fields, 13);
    lemma_field(fields, 14);
    lemma_field(fields, 15);
}

/// Part A of a class B vessel's static data, type 24: its name.
pub open spec fn part_a(
    repeat: Seq<bool>,
    mmsi: nat,
    name: Seq<char>,
    rest: Seq<bool>,
) -> Seq<bool> {
    laid_out(
        seq![
            number(24, 6),
            repeat,
            number(mmsi, 30),
            number(0, 2),
            letters(name, 20),
            rest,
        ],
    )
}

#[verifier::spinoff_prover]
proof fn lemma_part_a(
    repeat: Seq<bool>,
    mmsi: nat,
    name: Seq<char>,
    rest: Seq<bool>,
)
    requires
        repeat.len() == 2,
    ensures
        ({
            let bits = part_a(repeat, mmsi, name, rest);
            &&& bits.len() == 160 + rest.len()
            &&& bits.subrange(0, 6) == number(24, 6)
            &&& bits.subrange(8, 38) == number(mmsi, 30)
            &&& bits.subrange(38, 40) == number(0, 2)
            &&& bits.subrange(40, 160) == letters(name, 20)
        }),
{
    let fields = seq![
        number(24, 6),
        repeat,
        number(mmsi, 30),
        number(0, 2),
        letters(name, 20),
        rest,
    ];
    lemma_number(24, 6);
    lemma_number(mmsi, 30);
    lemma_number(0, 2);
    lemma_letters_len(name, 20);
    lemma_field(fields, 0);
    lemma_field(fields, 1);
    lemma_field(fields, 2);
    lemma_field(fields, 3);
    lemma_field(fields, 4);
    lemma_field(fields, 5);
}

/// Part B of a class B vessel's static data, type 24.
pub open spec fn part_b(
    repeat: Seq<bool>,
    mmsi: nat,
    ship_type: nat,
    vendor: Seq<bool>,
    callsign: Seq<char>,
    bow: nat,
    stern: nat,
    port: nat,
    starboard: nat,
    rest: Seq<bool>,
) -> Seq<bool> {
    laid_out(
        seq![
            number(24, 6),
            repeat,
            number(mmsi, 30),
            number(1, 2),
            number(ship_type, 8),
            vendor,
            letters(callsign, 7),
            number(bow, 9),
            number(stern, 9),
            number(port, 6),
            number(starboard, 6),
            rest,
        ],
    )
}

#[verifier::spinoff_prover]
proof fn lemma_part_b(
    repeat: Seq<bool>,
    mmsi: nat,
    ship_type: nat,
    vendor: Seq<bool>,
    callsign: Seq<char>,
    bow: nat,
    stern: nat,
    port: nat,
    starboard: nat,
    rest: Seq<bool>,
)
    requires
        repeat.len() == 2,
        vendor.len() == 42,
    ensures
        ({
            let bits = part_b(
                repeat,
                mmsi,
                ship_type,
                vendor,
                callsign,
                bow,
                stern,
                port,
                starboard,
                rest,
            );
            &&& bits.len() == 162 + rest.len()
            &&& bits.subrange(0, 6) == number(24, 6)
            &&& bits.subrange(8, 38) == number(mmsi, 30)
            &&& bits.subrange(38, 40) == number(1, 2)
            &&& bits.subrange(40, 48) == number(ship_type, 8)
            &&& bits.subrange(90, 132) == letters(callsign, 7)
            &&& bits.subrange(132, 141) == number(bow, 9)
            &&& bits.subrange(141, 150) == number(stern, 9)
            &&& bits.subrange(150, 156) == number(port, 6)
            &&& bits.subrange(156, 162) == number(starboard, 6)
        }),
{
    let fields = seq![
        number(24, 6),
        repeat,
        number(mmsi, 30),
        number(1, 2),
        number(ship_type, 8),
        vendor,
        letters(callsign, 7),
        number(bow, 9),
        number(stern, 9),
        number(port, 6),
        number(starboard, 6),
        rest,
    ];
    lemma_number(24, 6);
    lemma_number(mmsi, 30);
    lemma_number(1, 2);
    lemma_number(ship_type, 8);
    lemma_letters_len(callsign, 7);
    lemma_number(bow, 9);
    lemma_number(stern, 9);
    lemma_number(port, 6);
    lemma_number(starboard, 6);
    lemma_field(fields, 0);
    lemma_field(fields, 1);
    lemma_field(fields, 2);
    lemma_field(fields, 3);
    lemma_field(fields, 4);
    lemma_field(fields, 5);
    lemma_field(fields, 6);
    lemma_field(fields, 7);
    lemma_field(fields, 8);
    lemma_field(fields, 9);
    lemma_field(fields, 10);
    lemma_field(fields, 11);
}

/// A ship type as it is sent: 0 stands for none.
pub open spec fn is_type_sent_as(field: Option<u8>, raw: nat) -> bool {
    match field {
        Some(t) => raw == t && t > 0,
        None => raw == 0,
    }
}

/// A length or a beam as it is sent: the distances from the antenna to either
/// end, both 0 where it isn't known.
pub open spec fn is_size_sent_as(field: Option<u16>, a: nat, b: nat) -> bool {
    match field {
        Some(v) => a + b == v && v > 0,
        None => a == 0 && b == 0,
    }
}

proof fn lemma_reads_type(bits: Seq<bool>, at: int, field: Option<u8>, raw: nat)
    requires
        0 <= at,
        at + 8 <= bits.len(),
        bits.subrange(at, at + 8) == number(raw, 8),
        is_type_sent_as(field, raw),
    ensures
        ais::ship_type_at(bits, at) == field,
{
    lemma2_to64();
    lemma_reads(bits, at, raw, 8);
}

proof fn lemma_reads_size(bits: Seq<bool>, at: int, len: nat, field: Option<u16>, a: nat, b: nat)
    requires
        0 <= at,
        at + 2 * len <= bits.len(),
        bits.subrange(at, at + len) == number(a, len),
        bits.subrange(at + len, at + 2 * len) == number(b, len),
        a < pow2(len),
        b < pow2(len),
        is_size_sent_as(field, a, b),
    ensures
        ais::sum_at(bits, at, len as int) == field,
{
    lemma_reads(bits, at, a, len);
    lemma_reads(bits, at + len, b, len);
}

/// A class B position, sent in a message of type 18, is what is decoded from
/// it: it has no status.
pub proof fn a_class_b_position_is_read_back(
    p: Position,
    repeat: Seq<bool>,
    reserved: Seq<bool>,
    sog: nat,
    accuracy: bool,
    cog: nat,
    heading: nat,
    rest: Seq<bool>,
)
    requires
        p.class == Class::B,
        p.status is None,
        0 < p.mmsi < 1_073_741_824,
        -108_000_000 <= p.lon <= 108_000_000,
        -54_000_000 <= p.lat <= 54_000_000,
        is_sent_as(p.sog_tenths, sog, 1023) && sog < 1024,
        is_sent_as(p.cog_tenths, cog, 3600) && cog < 4096,
        is_sent_as(p.heading_deg, heading, 360) && heading < 512,
        repeat.len() == 2,
        reserved.len() == 8,
        rest.len() >= 35,
    ensures
        ({
            let bits = class_b(
                repeat,
                p.mmsi as nat,
                reserved,
                sog,
                accuracy,
                p.lon as int,
                p.lat as int,
                cog,
                heading,
                rest,
            );
            ais::decoded(armored(bits), fill_of(bits)) == seq![ReportView::Position(p)]
        }),
{
    lemma2_to64();
    lemma_class_b(
        repeat,
        p.mmsi as nat,
        reserved,
        sog,
        accuracy,
        p.lon as int,
        p.lat as int,
        cog,
        heading,
        rest,
    );
    let bits = class_b(
        repeat,
        p.mmsi as nat,
        reserved,
        sog,
        accuracy,
        p.lon as int,
        p.lat as int,
        cog,
        heading,
        rest,
    );
    armor_comes_off(bits);
    lemma_reads(bits, 0, 18, 6);
    lemma_reads(bits, 8, p.mmsi as nat, 30);
    lemma_position(bits, 46, p, p.lon as int, p.lat as int, sog, cog, heading);
}

/// A message of type 19 gives back the position that was sent in it and after
/// it the vessel's name, type and size.
pub proof fn a_class_b_vessel_is_read_back(
    p: Position,
    v: ParticularsView,
    repeat: Seq<bool>,
    reserved: Seq<bool>,
    sog: nat,
    accuracy: bool,
    cog: nat,
    heading: nat,
    seconds: Seq<bool>,
    name: Seq<char>,
    ship_type: nat,
    bow: nat,
    stern: nat,
    port: nat,
    starboard: nat,
    rest: Seq<bool>,
)
    requires
        p.class == Class::B,
        p.status is None,
        0 < p.mmsi < 1_073_741_824,
        -108_000_000 <= p.lon <= 108_000_000,
        -54_000_000 <= p.lat <= 54_000_000,
        is_sent_as(p.sog_tenths, sog, 1023) && sog < 1024,
        is_sent_as(p.cog_tenths, cog, 3600) && cog < 4096,
        is_sent_as(p.heading_deg, heading, 360) && heading < 512,
        v.mmsi == p.mmsi,
        v.callsign is None,
        v.destination is None,
        is_text_sent_as(v.name, name, 20),
        is_type_sent_as(v.ship_type, ship_type),
        is_size_sent_as(v.length_m, bow, stern) && bow < 512 && stern < 512,
        is_size_sent_as(v.beam_m, port, starboard) && port < 64 && starboard < 64,
        repeat.len() == 2,
        reserved.len() == 8,
        seconds.len() == 10,
        rest.len() >= 11,
    ensures
        ({
            let bits = class_b_extended(
                repeat,
                p.mmsi as nat,
                reserved,
                sog,
                accuracy,
                p.lon as int,
                p.lat as int,
                cog,
                heading,
                seconds,
                name,
                ship_type,
                bow,
                stern,
                port,
                starboard,
                rest,
            );
            ais::decoded(armored(bits), fill_of(bits)) == seq![ReportView::Position(p), ReportView::Particulars(v)]
        }),
{
    lemma2_to64();
    lemma_class_b_extended(
        repeat,
        p.mmsi as nat,
        reserved,
        sog,
        accuracy,
        p.lon as int,
        p.lat as int,
        cog,
        heading,
        seconds,
        name,
        ship_type,
        bow,
        stern,
        port,
        starboard,
        rest,
    );
    let bits = class_b_extended(
        repeat,
        p.mmsi as nat,
        reserved,
        sog,
        accuracy,
        p.lon as int,
        p.lat as int,
        cog,
        heading,
        seconds,
        name,
        ship_type,
        bow,
        stern,
        port,
        starboard,
        rest,
    );
    armor_comes_off(bits);
    lemma_reads(bits, 0, 19, 6);
    lemma_reads(bits, 8, p.mmsi as nat, 30);
    lemma_position(bits, 46, p, p.lon as int, p.lat as int, sog, cog, heading);
    lemma_reads_text(bits, 143, v.name, name, 20);
    lemma_reads_type(bits, 263, v.ship_type, ship_type);
    lemma_reads_size(bits, 271, 9, v.length_m, bow, stern);
    lemma_reads_size(bits, 289, 6, v.beam_m, port, starboard);
}

/// A message of type 5 gives back the particulars that were sent in it.
pub proof fn voyage_data_is_read_back(
    v: ParticularsView,
    repeat: Seq<bool>,
    version: Seq<bool>,
    imo: Seq<bool>,
    callsign: Seq<char>,
    name: Seq<char>,
    ship_type: nat,
    bow: nat,
    stern: nat,
    port: nat,
    starboard: nat,
    eta: Seq<bool>,
    draught: Seq<bool>,
    destination: Seq<char>,
    rest: Seq<bool>,
)
    requires
        0 < v.mmsi < 1_073_741_824,
        is_text_sent_as(v.callsign, callsign, 7),
        is_text_sent_as(v.name, name, 20),
        is_text_sent_as(v.destination, destination, 20),
        is_type_sent_as(v.ship_type, ship_type),
        is_size_sent_as(v.length_m, bow, stern) && bow < 512 && stern < 512,
        is_size_sent_as(v.beam_m, port, starboard) && port < 64 && starboard < 64,
        repeat.len() == 2,
        version.len() == 2,
        imo.len() == 30,
        eta.len() == 24,
        draught.len() == 8,
    ensures
        ({
            let bits = voyage(
                repeat,
                v.mmsi as nat,
                version,
                imo,
                callsign,
                name,
                ship_type,
                bow,
                stern,
                port,
                starboard,
                eta,
                draught,
                destination,
                rest,
            );
            ais::decoded(armored(bits), fill_of(bits)) == seq![ReportView::Particulars(v)]
        }),
{
    lemma2_to64();
    lemma_voyage(
        repeat,
        v.mmsi as nat,
        version,
        imo,
        callsign,
        name,
        ship_type,
        bow,
        stern,
        port,
        starboard,
        eta,
        draught,
        destination,
        rest,
    );
    let bits = voyage(
        repeat,
        v.mmsi as nat,
        version,
        imo,
        callsign,
        name,
        ship_type,
        bow,
        stern,
        port,
        starboard,
        eta,
        draught,
        destination,
        rest,
    );
    armor_comes_off(bits);
    lemma_reads(bits, 0, 5, 6);
    lemma_reads(bits, 8, v.mmsi as nat, 30);
    lemma_reads_text(bits, 70, v.callsign, callsign, 7);
    lemma_reads_text(bits, 112, v.name, name, 20);
    lemma_reads_type(bits, 232, v.ship_type, ship_type);
    lemma_reads_size(bits, 240, 9, v.length_m, bow, stern);
    lemma_reads_size(bits, 258, 6, v.beam_m, port, starboard);
    lemma_reads_text(bits, 302, v.destination, destination, 20);
}

/// Part A of a message of type 24 gives back the name that was sent in it, and
/// nothing else of the vessel.
pub proof fn a_class_b_name_is_read_back(
    v: ParticularsView,
    repeat: Seq<bool>,
    name: Seq<char>,
    rest: Seq<bool>,
)
    requires
        0 < v.mmsi < 1_073_741_824,
        is_text_sent_as(v.name, name, 20),
        v.callsign is None,
        v.ship_type is None,
        v.length_m is None,
        v.beam_m is None,
        v.destination is None,
        repeat.len() == 2,
    ensures
        ({
            let bits = part_a(repeat, v.mmsi as nat, name, rest);
            ais::decoded(armored(bits), fill_of(bits)) == seq![ReportView::Particulars(v)]
        }),
{
    lemma2_to64();
    lemma_part_a(repeat, v.mmsi as nat, name, rest);
    let bits = part_a(repeat, v.mmsi as nat, name, rest);
    armor_comes_off(bits);
    lemma_reads(bits, 0, 24, 6);
    lemma_reads(bits, 8, v.mmsi as nat, 30);
    lemma_reads(bits, 38, 0, 2);
    lemma_reads_text(bits, 40, v.name, name, 20);
}

/// Part B of a message of type 24 gives back the type, call sign and size that
/// were sent in it. An auxiliary craft, whose MMSI starts with 98, sends its
/// mother ship's MMSI in place of a size: it has none.
pub proof fn class_b_particulars_are_read_back(
    v: ParticularsView,
    repeat: Seq<bool>,
    ship_type: nat,
    vendor: Seq<bool>,
    callsign: Seq<char>,
    bow: nat,
    stern: nat,
    port: nat,
    starboard: nat,
    rest: Seq<bool>,
)
    requires
        0 < v.mmsi < 1_073_741_824,
        v.name is None,
        v.destination is None,
        is_text_sent_as(v.callsign, callsign, 7),
        is_type_sent_as(v.ship_type, ship_type),
        bow < 512 && stern < 512 && port < 64 && starboard < 64,
        v.mmsi / 10_000_000 == 98 ==> v.length_m is None && v.beam_m is None,
        v.mmsi / 10_000_000 != 98 ==> is_size_sent_as(v.length_m, bow, stern) && is_size_sent_as(
            v.beam_m,
            port,
            starboard,
        ),
        repeat.len() == 2,
        vendor.len() == 42,
    ensures
        ({
            let bits = part_b(
                repeat,
                v.mmsi as nat,
                ship_type,
                vendor,
                callsign,
                bow,
                stern,
                port,
                starboard,
                rest,
            );
            ais::decoded(armored(bits), fill_of(bits)) == seq![ReportView::Particulars(v)]
        }),
{
    lemma2_to64();
    lemma_part_b(
        repeat,
        v.mmsi as nat,
        ship_type,
        vendor,
        callsign,
        bow,
        stern,
        port,
        starboard,
        rest,
    );
    let bits = part_b(
        repeat,
        v.mmsi as nat,
        ship_type,
        vendor,
        callsign,
        bow,
        stern,
        port,
        starboard,
        rest,
    );
    armor_comes_off(bits);
    lemma_reads(bits, 0, 24, 6);
    lemma_reads(bits, 8, v.mmsi as nat, 30);
    lemma_reads(bits, 38, 1, 2);
    lemma_reads_type(bits, 40, v.ship_type, ship_type);
    lemma_reads_text(bits, 90, v.callsign, callsign, 7);
    if v.mmsi / 10_000_000 != 98 {
        lemma_reads_size(bits, 132, 9, v.length_m, bow, stern);
        lemma_reads_size(bits, 150, 6, v.beam_m, port, starboard);
    }
}

/// A message that ends before its type's last field does, one of another
/// type, and one without an MMSI report nothing at all.
pub proof fn what_is_cut_short_or_unknown_reports_nothing(bits: Seq<bool>, kind: nat)
    requires
        kind < 64,
        bits.len() >= 6 ==> bits.take(6) == number(kind, 6),
        ({
            ||| bits.len() < 160
            ||| bits.subrange(8, 38) == number(0, 30)
            ||| kind == 0 || kind == 4 || 6 <= kind <= 17 || 20 <= kind <= 23 || 25 <= kind
            ||| 1 <= kind <= 3 && bits.len() < 168
            ||| kind == 5 && bits.len() < 422
            ||| kind == 18 && bits.len() < 168
            ||| kind == 19 && bits.len() < 312
            ||| kind == 24 && bits.len() < 162 && bits.subrange(38, 40) == number(1, 2)
            ||| kind == 24 && bits.subrange(38, 39) == number(1, 1)
        }),
    ensures
        ais::decoded(armored(bits), fill_of(bits)) == Seq::<ReportView>::empty(),
{
    lemma2_to64();
    armor_comes_off(bits);
    if bits.len() >= 6 {
        assert(bits.subrange(0, 6) =~= bits.take(6));
        lemma_reads(bits, 0, kind, 6);
    }
    if bits.len() >= 38 && bits.subrange(8, 38) == number(0, 30) {
        lemma_reads(bits, 8, 0, 30);
    }
    if kind == 24 && bits.len() >= 160 && bits.subrange(38, 40) == number(1, 2) {
        lemma_reads(bits, 38, 1, 2);
    }
    if kind == 24 && bits.len() >= 160 && bits.subrange(38, 39) == number(1, 1) {
        lemma_number(1, 1);
        let two = bits.subrange(38, 40);
        reveal_with_fuel(ais::bits_value, 3);
        reveal_with_fuel(number, 2);
        assert(bits.subrange(38, 39)[0]);
        assert(two.drop_last()[0]);
        assert(two.drop_last().last());
        assert(ais::bits_value(two) >= 2);
    }
}

/// A position that isn't on the globe, such as the 181 and 91 degrees that
/// stand for none, is not reported, whatever else the message says.
pub proof fn a_position_off_the_globe_is_not_reported(
    kind: nat,
    status: nat,
    repeat: Seq<bool>,
    mmsi: nat,
    before: Seq<bool>,
    sog: nat,
    accuracy: bool,
    lon: int,
    lat: int,
    cog: nat,
    heading: nat,
    rest: Seq<bool>,
)
    requires
        0 < mmsi < 1_073_741_824,
        status < 16,
        -134_217_728 <= lon < 134_217_728,
        -67_108_864 <= lat < 67_108_864,
        lon < -108_000_000 || lon > 108_000_000 || lat < -54_000_000 || lat > 54_000_000,
        sog < 1024,
        cog < 4096,
        heading < 512,
        1 <= kind <= 3,
        repeat.len() == 2,
        before.len() == 8,
        rest.len() >= 35,
    ensures
        ({
            let bits = class_a(
                kind,
                repeat,
                mmsi,
                status,
                before,
                sog,
                accuracy,
                lon,
                lat,
                cog,
                heading,
                rest,
            );
            ais::decoded(armored(bits), fill_of(bits)) == Seq::<ReportView>::empty()
        }),
        ({
            let bits = class_b(
                repeat,
                mmsi,
                before,
                sog,
                accuracy,
                lon,
                lat,
                cog,
                heading,
                rest,
            );
            ais::decoded(armored(bits), fill_of(bits)) == Seq::<ReportView>::empty()
        }),
{
    lemma2_to64();
    let some = |raw: nat, absent: nat| -> Option<u16> {
        if raw < absent {
            Some(raw as u16)
        } else {
            None
        }
    };
    let p = Position {
        mmsi: mmsi as u32,
        class: Class::A,
        status: Some(status as u8),
        lat: 0,
        lon: 0,
        sog_tenths: some(sog, 1023),
        cog_tenths: some(cog, 3600),
        heading_deg: some(heading, 360),
    };
    let a = class_a(
        kind,
        repeat,
        mmsi,
        status,
        before,
        sog,
        accuracy,
        lon,
        lat,
        cog,
        heading,
        rest,
    );
    lemma_class_a(
        kind,
        repeat,
        mmsi,
        status,
        before,
        sog,
        accuracy,
        lon,
        lat,
        cog,
        heading,
        rest,
    );
    armor_comes_off(a);
    lemma_reads(a, 0, kind, 6);
    lemma_reads(a, 8, mmsi, 30);
    lemma_reads(a, 38, status, 4);
    lemma_position(a, 50, p, lon, lat, sog, cog, heading);
    let b = class_b(repeat, mmsi, before, sog, accuracy, lon, lat, cog, heading, rest);
    lemma_class_b(repeat, mmsi, before, sog, accuracy, lon, lat, cog, heading, rest);
    armor_comes_off(b);
    lemma_reads(b, 0, 18, 6);
    lemma_reads(b, 8, mmsi, 30);
    lemma_position(
        b,
        46,
        (Position { class: Class::B, status: None, ..p }),
        lon,
        lat,
        sog,
        cog,
        heading,
    );
}

/// A sentence that carries part of a message: how many sentences the message
/// has, which of them this is, the message's id and channel, the payload and
/// its fill.
pub open spec fn sentence(
    talker: Seq<char>,
    count: nat,
    number: nat,
    id: Seq<char>,
    channel: Seq<char>,
    payload: Seq<char>,
    fill: nat,
) -> SentenceView {
    SentenceView {
        talker,
        kind: "VDM"@,
        fields: seq![
            text::decimal(count),
            text::decimal(number),
            id,
            channel,
            payload,
            text::decimal(fill),
        ],
    }
}

/// A sentence that was written is the part it was written for, whoever
/// talks: one of up to nine, and none where its number isn't one of them.
pub proof fn a_written_part_is_read(
    talker: Seq<char>,
    count: nat,
    number: nat,
    id: Seq<char>,
    channel: Seq<char>,
    payload: Seq<char>,
    fill: nat,
)
    requires
        fill <= 5,
    ensures
        ais::part_of(sentence(talker, count, number, id, channel, payload, fill)) == (if 1
            <= number <= count <= 9 {
            Some(Part { count, number, id, channel, payload, fill })
        } else {
            None
        }),
{
    text::lemma_decimal(count);
    text::lemma_decimal(number);
    text::lemma_decimal(fill);
    text::lemma_unsigned_digits(text::decimal(count), 255);
    text::lemma_unsigned_digits(text::decimal(number), 255);
    text::lemma_unsigned_digits(text::decimal(fill), usize::MAX as nat);
}

/// A message that fits in one sentence is reported as that sentence comes,
/// and leaves the ones that wait for more as they are.
pub proof fn a_single_sentence_reports_at_once(
    pending: Seq<PendingView>,
    talker: Seq<char>,
    id: Seq<char>,
    channel: Seq<char>,
    bits: Seq<bool>,
)
    ensures
        ais::fed(
            pending,
            sentence(talker, 1, 1, id, channel, armored(bits), fill_of(bits)),
        ) == (pending, ais::reports_of(bits)),
{
    a_written_part_is_read(talker, 1, 1, id, channel, armored(bits), fill_of(bits));
    armor_comes_off(bits);
}

/// A message cut in two anywhere between characters, and sent in two
/// sentences under one id on one channel, is reported whole with the second,
/// whatever waits.
pub proof fn a_message_in_two_sentences_is_reported(
    pending: Seq<PendingView>,
    talker: Seq<char>,
    id: Seq<char>,
    channel: Seq<char>,
    bits: Seq<bool>,
    cut: int,
    fill: nat,
)
    requires
        ais::is_queue(pending),
        0 <= cut <= armored(bits).len(),
        fill <= 5,
    ensures
        ({
            let first = sentence(talker, 2, 1, id, channel, armored(bits).take(cut), fill);
            let second = sentence(
                talker,
                2,
                2,
                id,
                channel,
                armored(bits).skip(cut),
                fill_of(bits),
            );
            let waiting = ais::fed(pending, first);
            &&& waiting.1 == Seq::<ReportView>::empty()
            &&& ais::fed(waiting.0, second).1 == ais::reports_of(bits)
        }),
{
    let payload = armored(bits);
    let first = sentence(talker, 2, 1, id, channel, payload.take(cut), fill);
    let second = sentence(talker, 2, 2, id, channel, payload.skip(cut), fill_of(bits));
    a_written_part_is_read(talker, 2, 1, id, channel, payload.take(cut), fill);
    a_written_part_is_read(talker, 2, 2, id, channel, payload.skip(cut), fill_of(bits));
    armor_comes_off(bits);
    let both = seq![first, second];
    assert(ais::is_part(first, both, 0));
    assert(ais::is_part(second, both, 1));
    ais::a_message_in_order_is_joined(pending, both);
    assert(both.drop_last() =~= seq![first]);
    assert(both.drop_last().drop_last() =~= Seq::<SentenceView>::empty());
    reveal_with_fuel(ais::fed_all, 3);
    reveal_with_fuel(ais::whole_payload, 3);
    assert(payload.take(cut) + payload.skip(cut) =~= payload);
    assert(ais::whole_payload(both) =~= payload);
    let waiting = ais::fed(pending, first);
    assert(Seq::<ReportView>::empty() + waiting.1 =~= waiting.1);
    assert(waiting.1 + ais::fed(waiting.0, second).1 =~= ais::fed(waiting.0, second).1);
}

/// Of a class B vessel off the globe, a message of type 19 gives back the
/// particulars alone.
pub proof fn a_class_b_vessel_off_the_globe_is_known_by_name(
    v: ParticularsView,
    repeat: Seq<bool>,
    reserved: Seq<bool>,
    sog: nat,
    accuracy: bool,
    lon: int,
    lat: int,
    cog: nat,
    heading: nat,
    seconds: Seq<bool>,
    name: Seq<char>,
    ship_type: nat,
    bow: nat,
    stern: nat,
    port: nat,
    starboard: nat,
    rest: Seq<bool>,
)
    requires
        0 < v.mmsi < 1_073_741_824,
        -134_217_728 <= lon < 134_217_728,
        -67_108_864 <= lat < 67_108_864,
        lon < -108_000_000 || lon > 108_000_000 || lat < -54_000_000 || lat > 54_000_000,
        sog < 1024,
        cog < 4096,
        heading < 512,
        v.callsign is None,
        v.destination is None,
        is_text_sent_as(v.name, name, 20),
        is_type_sent_as(v.ship_type, ship_type),
        is_size_sent_as(v.length_m, bow, stern) && bow < 512 && stern < 512,
        is_size_sent_as(v.beam_m, port, starboard) && port < 64 && starboard < 64,
        repeat.len() == 2,
        reserved.len() == 8,
        seconds.len() == 10,
        rest.len() >= 11,
    ensures
        ({
            let bits = class_b_extended(
                repeat,
                v.mmsi as nat,
                reserved,
                sog,
                accuracy,
                lon,
                lat,
                cog,
                heading,
                seconds,
                name,
                ship_type,
                bow,
                stern,
                port,
                starboard,
                rest,
            );
            ais::decoded(armored(bits), fill_of(bits)) == seq![ReportView::Particulars(v)]
        }),
{
    lemma2_to64();
    lemma_class_b_extended(
        repeat,
        v.mmsi as nat,
        reserved,
        sog,
        accuracy,
        lon,
        lat,
        cog,
        heading,
        seconds,
        name,
        ship_type,
        bow,
        stern,
        port,
        starboard,
        rest,
    );
    let bits = class_b_extended(
        repeat,
        v.mmsi as nat,
        reserved,
        sog,
        accuracy,
        lon,
        lat,
        cog,
        heading,
        seconds,
        name,
        ship_type,
        bow,
        stern,
        port,
        starboard,
        rest,
    );
    let some = |raw: nat, absent: nat| -> Option<u16> {
        if raw < absent {
            Some(raw as u16)
        } else {
            None
        }
    };
    let p = Position {
        mmsi: v.mmsi,
        class: Class::B,
        status: None,
        lat: 0,
        lon: 0,
        sog_tenths: some(sog, 1023),
        cog_tenths: some(cog, 3600),
        heading_deg: some(heading, 360),
    };
    armor_comes_off(bits);
    lemma_reads(bits, 0, 19, 6);
    lemma_reads(bits, 8, v.mmsi as nat, 30);
    lemma_position(bits, 46, p, lon, lat, sog, cog, heading);
    lemma_reads_text(bits, 143, v.name, name, 20);
    lemma_reads_type(bits, 263, v.ship_type, ship_type);
    lemma_reads_size(bits, 271, 9, v.length_m, bow, stern);
    lemma_reads_size(bits, 289, 6, v.beam_m, port, starboard);
    assert(Seq::<ReportView>::empty().push(ReportView::Particulars(v)) =~= seq![
        ReportView::Particulars(v),
    ]);
}

} // verus!
