//! Text, character by character: trimming, splitting, and numbers in decimal.

use vstd::prelude::*;
use vstd::string::*;

verus! {

/// `String::push` appends the one character it is given.
pub assume_specification[ String::push ](s: &mut String, c: char)
    ensures
        final(s)@ == old(s)@.push(c),
;

/// The characters of each string in a list.
pub open spec fn views(list: Seq<&str>) -> Seq<Seq<char>> {
    Seq::new(list.len(), |i: int| list[i]@)
}

/// The characters of a string that may be absent.
pub open spec fn text_of(text: Option<String>) -> Option<Seq<char>> {
    match text {
        Some(t) => Some(t@),
        None => None,
    }
}

/// The characters of a string slice, in a list.
pub fn chars(s: &str) -> (list: Vec<char>)
    ensures
        list@ == s@,
{
    let mut list: Vec<char> = Vec::new();
    for c in it: s.chars()
        invariant
            it.seq() == s@,
            list@ == s@.take(it.index() as int),
    {
        list.push(c);
        assert(s@.take(it.index() + 1) == s@.take(it.index() as int).push(c));
    }
    assert(s@.take(s@.len() as int) == s@);
    list
}

/// Whether two strings hold the same characters.
pub fn same(a: &str, b: &str) -> (equal: bool)
    ensures
        equal == (a@ == b@),
{
    a.to_owned() == b.to_owned()
}

/// A copy of a string that may be absent.
pub fn copy(text: &Option<String>) -> (copied: Option<String>)
    ensures
        copied == *text,
{
    match text {
        Some(t) => Some(t.clone()),
        None => None,
    }
}

/// Unicode white space.
pub open spec fn is_space(c: char) -> bool {
    let n: u32 = c as u32;
    ||| 0x09 <= n <= 0x0d
    ||| n == 0x20
    ||| n == 0x85
    ||| n == 0xa0
    ||| n == 0x1680
    ||| 0x2000 <= n <= 0x200a
    ||| n == 0x2028
    ||| n == 0x2029
    ||| n == 0x202f
    ||| n == 0x205f
    ||| n == 0x3000
}

/// Text without the white space at its end.
pub open spec fn trim_end(s: Seq<char>) -> Seq<char>
    decreases s.len(),
{
    if s.len() > 0 && is_space(s.last()) {
        trim_end(s.drop_last())
    } else {
        s
    }
}

/// Text without the white space at its start.
pub open spec fn trim_start(s: Seq<char>) -> Seq<char>
    decreases s.len(),
{
    if s.len() > 0 && is_space(s.first()) {
        trim_start(s.drop_first())
    } else {
        s
    }
}

/// Text without the white space around it.
pub open spec fn trim(s: Seq<char>) -> Seq<char> {
    trim_end(trim_start(s))
}

/// `i` is where `sep` first occurs in `s`.
pub open spec fn is_first(s: Seq<char>, sep: char, i: int) -> bool {
    &&& 0 <= i < s.len()
    &&& s[i] == sep
    &&& forall|j: int| 0 <= j < i ==> s[j] != sep
}

/// `i` is where `sep` last occurs in `s`.
pub open spec fn is_last(s: Seq<char>, sep: char, i: int) -> bool {
    &&& 0 <= i < s.len()
    &&& s[i] == sep
    &&& forall|j: int| i < j < s.len() ==> s[j] != sep
}

/// What stands before and after the first `sep`, where there is one.
pub open spec fn split_once(s: Seq<char>, sep: char) -> Option<(Seq<char>, Seq<char>)> {
    if s.contains(sep) {
        let i: int = choose|i: int| is_first(s, sep, i);
        Some((s.take(i), s.skip(i + 1)))
    } else {
        None
    }
}

/// What stands before and after the last `sep`, where there is one.
pub open spec fn rsplit_once(s: Seq<char>, sep: char) -> Option<(Seq<char>, Seq<char>)> {
    if s.contains(sep) {
        let i: int = choose|i: int| is_last(s, sep, i);
        Some((s.take(i), s.skip(i + 1)))
    } else {
        None
    }
}

/// The pieces between one `sep` and the next: one more than there are `sep`s.
pub open spec fn split(s: Seq<char>, sep: char) -> Seq<Seq<char>>
    decreases s.len(),
{
    if s.len() == 0 {
        seq![Seq::<char>::empty()]
    } else {
        let before = split(s.drop_last(), sep);
        if s.last() == sep {
            before.push(Seq::<char>::empty())
        } else {
            before.drop_last().push(before.last().push(s.last()))
        }
    }
}

pub open spec fn is_digit(c: char) -> bool {
    '0' <= c <= '9'
}

/// One digit or more, and nothing else.
pub open spec fn all_digits(s: Seq<char>) -> bool {
    &&& s.len() > 0
    &&& forall|i: int| 0 <= i < s.len() ==> is_digit(#[trigger] s[i])
}

/// The number that decimal digits write.
pub open spec fn digits_value(s: Seq<char>) -> nat
    decreases s.len(),
{
    if s.len() == 0 {
        0
    } else {
        (10 * digits_value(s.drop_last()) + (s.last() as int - '0' as int)) as nat
    }
}

/// An unsigned integer in decimal, at most `max`: digits, which one `+` may
/// precede.
pub open spec fn unsigned(s: Seq<char>, max: nat) -> Option<nat> {
    let digits = if s.len() > 0 && s[0] == '+' {
        s.drop_first()
    } else {
        s
    };
    if all_digits(digits) && digits_value(digits) <= max {
        Some(digits_value(digits))
    } else {
        None
    }
}

/// The character of a single decimal digit.
pub open spec fn digit(d: nat) -> char {
    ('0' as nat + d) as char
}

/// A number in decimal, without leading zeros.
pub open spec fn decimal(n: nat) -> Seq<char>
    decreases n,
{
    if n < 10 {
        seq![digit(n)]
    } else {
        decimal(n / 10).push(digit(n % 10))
    }
}

pub proof fn lemma_is_first(s: Seq<char>, sep: char, i: int)
    requires
        is_first(s, sep, i),
    ensures
        split_once(s, sep) == Some((s.take(i), s.skip(i + 1))),
{
    let k: int = choose|k: int| is_first(s, sep, k);
    assert(is_first(s, sep, k));
    assert(k == i);
    assert(s[i] == sep);
}

pub proof fn lemma_is_last(s: Seq<char>, sep: char, i: int)
    requires
        is_last(s, sep, i),
    ensures
        rsplit_once(s, sep) == Some((s.take(i), s.skip(i + 1))),
{
    let k: int = choose|k: int| is_last(s, sep, k);
    assert(is_last(s, sep, k));
    assert(k == i);
    assert(s[i] == sep);
}

/// The parts around the last `sep` make up the whole.
pub proof fn lemma_rsplit_some(s: Seq<char>, sep: char)
    requires
        rsplit_once(s, sep) is Some,
    ensures
        ({
            let (before, after) = rsplit_once(s, sep)->0;
            s == before + seq![sep] + after && !after.contains(sep)
        }),
{
    lemma_last_exists(s, sep);
    let i: int = choose|i: int| is_last(s, sep, i);
    lemma_is_last(s, sep, i);
    assert(s =~= s.take(i) + seq![sep] + s.skip(i + 1));
}

proof fn lemma_last_exists(s: Seq<char>, sep: char)
    requires
        s.contains(sep),
    ensures
        exists|i: int| is_last(s, sep, i),
    decreases s.len(),
{
    if s.last() == sep {
        assert(is_last(s, sep, s.len() - 1));
    } else {
        let front = s.drop_last();
        let k: int = choose|k: int| 0 <= k < s.len() && s[k] == sep;
        assert(front[k] == sep);
        lemma_last_exists(front, sep);
        let i: int = choose|i: int| is_last(front, sep, i);
        assert forall|j: int| i < j < s.len() implies s[j] != sep by {
            if j < front.len() {
                assert(front[j] == s[j]);
            }
        }
        assert(is_last(s, sep, i));
    }
}

pub proof fn lemma_trim_end(s: Seq<char>, n: int)
    requires
        0 <= n <= s.len(),
        forall|i: int| n <= i < s.len() ==> is_space(#[trigger] s[i]),
        n > 0 ==> !is_space(s[n - 1]),
    ensures
        trim_end(s) == s.take(n),
    decreases s.len(),
{
    if n < s.len() {
        assert(is_space(s[s.len() - 1]));
        lemma_trim_end(s.drop_last(), n);
        assert(s.drop_last().take(n) == s.take(n));
    } else {
        assert(s.take(n) == s);
    }
}

pub proof fn lemma_trim_start(s: Seq<char>, n: int)
    requires
        0 <= n <= s.len(),
        forall|i: int| 0 <= i < n ==> is_space(#[trigger] s[i]),
        n < s.len() ==> !is_space(s[n]),
    ensures
        trim_start(s) == s.skip(n),
    decreases s.len(),
{
    if n > 0 {
        assert(is_space(s[0]));
        assert forall|i: int| 0 <= i < n - 1 implies is_space(#[trigger] s.drop_first()[i]) by {
            assert(is_space(s[i + 1]));
        }
        lemma_trim_start(s.drop_first(), n - 1);
        assert(s.drop_first().skip(n - 1) == s.skip(n));
    } else {
        assert(s.skip(n) == s);
    }
}

pub proof fn lemma_split_some(s: Seq<char>, sep: char)
    ensures
        split(s, sep).len() > 0,
    decreases s.len(),
{
    if s.len() > 0 {
        lemma_split_some(s.drop_last(), sep);
    }
}

pub proof fn lemma_digits_value_monotone(s: Seq<char>, n: int)
    requires
        0 <= n <= s.len(),
        all_digits(s),
    ensures
        digits_value(s.take(n)) <= digits_value(s),
    decreases s.len(),
{
    if n < s.len() {
        assert(is_digit(s[s.len() - 1]));
        if s.len() > 1 {
            assert forall|i: int| 0 <= i < s.len() - 1 implies is_digit(
                #[trigger] s.drop_last()[i],
            ) by {
                assert(is_digit(s[i]));
            }
            lemma_digits_value_monotone(s.drop_last(), n);
        }
        assert(s.drop_last().take(n) == s.take(n));
    } else {
        assert(s.take(n) == s);
    }
}

/// A number written in decimal reads back as itself.
pub proof fn lemma_decimal(n: nat)
    ensures
        all_digits(decimal(n)),
        digits_value(decimal(n)) == n,
    decreases n,
{
    if n < 10 {
        let s = seq![digit(n)];
        assert(s.drop_last() == Seq::<char>::empty());
        assert(digits_value(s.drop_last()) == 0);
    } else {
        lemma_decimal(n / 10);
        let s = decimal(n);
        assert(s.drop_last() == decimal(n / 10));
        assert forall|i: int| 0 <= i < s.len() implies is_digit(#[trigger] s[i]) by {
            if i < s.len() - 1 {
                assert(is_digit(decimal(n / 10)[i]));
            }
        }
    }
}

/// No white space at either end.
pub open spec fn is_trimmed(s: Seq<char>) -> bool {
    s.len() == 0 || (!is_space(s.first()) && !is_space(s.last()))
}

pub proof fn lemma_trim_end_ends(s: Seq<char>)
    ensures
        trim_end(s).len() <= s.len(),
        trim_end(s) == s.take(trim_end(s).len() as int),
        trim_end(s).len() > 0 ==> !is_space(trim_end(s).last()),
        s.len() > 0 && !is_space(s.last()) ==> trim_end(s) == s,
    decreases s.len(),
{
    if s.len() > 0 && is_space(s.last()) {
        lemma_trim_end_ends(s.drop_last());
        let n = trim_end(s).len() as int;
        assert(s.drop_last().take(n) == s.take(n));
    } else {
        assert(s.take(s.len() as int) == s);
    }
}

pub proof fn lemma_trim_start_starts(s: Seq<char>)
    ensures
        trim_start(s).len() <= s.len(),
        trim_start(s) == s.skip(s.len() - trim_start(s).len()),
        trim_start(s).len() > 0 ==> !is_space(trim_start(s).first()),
        s.len() > 0 && !is_space(s.first()) ==> trim_start(s) == s,
        s.len() > 0 && !is_space(s.last()) ==> trim_start(s).len() > 0,
    decreases s.len(),
{
    if s.len() > 0 && is_space(s.first()) {
        lemma_trim_start_starts(s.drop_first());
        let n = s.len() - trim_start(s).len();
        assert(s.drop_first().skip(n - 1) == s.skip(n));
        if !is_space(s.last()) {
            assert(s.drop_first().last() == s.last());
        }
    } else {
        assert(s.skip(0) == s);
    }
}

/// Trimming leaves text that trimming leaves alone.
pub proof fn lemma_trim(s: Seq<char>)
    ensures
        is_trimmed(trim(s)),
        is_trimmed(s) ==> trim(s) == s,
        s.len() > 0 && !is_space(s.last()) ==> trim(s).len() > 0,
        trim(trim(s)) == trim(s),
{
    let t = trim_start(s);
    lemma_trim_start_starts(s);
    lemma_trim_end_ends(t);
    if trim(s).len() > 0 {
        assert(trim(s).first() == t.first());
    }
    if t.len() > 0 {
        assert(t.last() == s.last());
    }
    lemma_trim_start_starts(trim(s));
    lemma_trim_end_ends(trim(s));
}

/// Text without `sep` goes on with the last piece.
pub proof fn lemma_split_append(s: Seq<char>, more: Seq<char>, sep: char)
    requires
        !more.contains(sep),
    ensures
        split(s + more, sep) == split(s, sep).drop_last().push(split(s, sep).last() + more),
    decreases more.len(),
{
    lemma_split_some(s, sep);
    if more.len() == 0 {
        assert(s + more == s);
        assert(split(s, sep).last() + more == split(s, sep).last());
        assert(split(s, sep).drop_last().push(split(s, sep).last()) == split(s, sep));
    } else {
        let whole = s + more;
        let less = more.drop_last();
        assert(more.contains(more.last()));
        assert forall|c: char| less.contains(c) implies more.contains(c) by {
            let i: int = choose|i: int| 0 <= i < less.len() && less[i] == c;
            assert(more[i] == c);
        }
        lemma_split_append(s, less, sep);
        assert(whole.drop_last() == s + less);
        let before = split(s + less, sep);
        assert(before.drop_last() == split(s, sep).drop_last());
        assert(before.last().push(more.last()) == split(s, sep).last() + more);
    }
}

/// Digits alone are an unsigned integer, where they write one small enough.
pub proof fn lemma_unsigned_digits(s: Seq<char>, max: nat)
    requires
        all_digits(s),
    ensures
        unsigned(s, max) == (if digits_value(s) <= max {
            Some(digits_value(s))
        } else {
            None
        }),
{
    assert(is_digit(s[0]));
}

fn space(c: char) -> (yes: bool)
    ensures
        yes == is_space(c),
{
    let n: u32 = c as u32;
    (0x09 <= n && n <= 0x0d) || n == 0x20 || n == 0x85 || n == 0xa0 || n == 0x1680
        || (0x2000 <= n && n <= 0x200a) || n == 0x2028 || n == 0x2029 || n == 0x202f
        || n == 0x205f || n == 0x3000
}

/// `s` without the white space at its end.
pub fn trimmed_end(s: &str) -> (trimmed: &str)
    ensures
        trimmed@ == trim_end(s@),
{
    let list = chars(s);
    let mut n: usize = list.len();
    while n > 0 && space(list[n - 1])
        invariant
            n <= list.len(),
            list@ == s@,
            forall|i: int| n <= i < s@.len() ==> is_space(#[trigger] s@[i]),
        decreases n,
    {
        n = n - 1;
    }
    proof {
        lemma_trim_end(s@, n as int);
        assert(s@.subrange(0, n as int) == s@.take(n as int));
    }
    s.substring_char(0, n)
}

/// `s` without the white space around it.
pub fn trimmed(s: &str) -> (trimmed: &str)
    ensures
        trimmed@ == trim(s@),
{
    let list = chars(s);
    let mut n: usize = 0;
    while n < list.len() && space(list[n])
        invariant
            n <= list.len(),
            list@ == s@,
            forall|i: int| 0 <= i < n ==> is_space(#[trigger] s@[i]),
        decreases list.len() - n,
    {
        n = n + 1;
    }
    proof {
        lemma_trim_start(s@, n as int);
        assert(s@.subrange(n as int, s@.len() as int) == s@.skip(n as int));
    }
    trimmed_end(s.substring_char(n, list.len()))
}

/// What stands before and after the first `sep` in `s`.
pub fn parted<'a>(s: &'a str, sep: char) -> (parts: Option<(&'a str, &'a str)>)
    ensures
        match parts {
            Some((before, after)) => split_once(s@, sep) == Some((before@, after@)),
            None => split_once(s@, sep) is None,
        },
{
    let list = chars(s);
    let mut i: usize = 0;
    while i < list.len()
        invariant
            i <= list.len(),
            list@ == s@,
            forall|j: int| 0 <= j < i ==> s@[j] != sep,
        decreases list.len() - i,
    {
        if list[i] == sep {
            proof {
                lemma_is_first(s@, sep, i as int);
                assert(s@.subrange(0, i as int) == s@.take(i as int));
                assert(s@.subrange(i + 1, s@.len() as int) == s@.skip(i + 1));
            }
            return Some((s.substring_char(0, i), s.substring_char(i + 1, list.len())));
        }
        i = i + 1;
    }
    None
}

/// What stands before and after the last `sep` in `s`.
pub fn parted_last<'a>(s: &'a str, sep: char) -> (parts: Option<(&'a str, &'a str)>)
    ensures
        match parts {
            Some((before, after)) => rsplit_once(s@, sep) == Some((before@, after@)),
            None => rsplit_once(s@, sep) is None,
        },
{
    let list = chars(s);
    let mut i: usize = list.len();
    while i > 0
        invariant
            i <= list.len(),
            list@ == s@,
            forall|j: int| i <= j < s@.len() ==> s@[j] != sep,
        decreases i,
    {
        if list[i - 1] == sep {
            proof {
                lemma_is_last(s@, sep, i - 1);
                assert(s@.subrange(0, i - 1) == s@.take(i - 1));
                assert(s@.subrange(i as int, s@.len() as int) == s@.skip(i as int));
            }
            return Some((s.substring_char(0, i - 1), s.substring_char(i, list.len())));
        }
        i = i - 1;
    }
    None
}

/// The pieces of `s` between one `sep` and the next.
pub fn pieces<'a>(s: &'a str, sep: char) -> (list: Vec<&'a str>)
    ensures
        views(list@) == split(s@, sep),
{
    let all = chars(s);
    let mut list: Vec<&'a str> = Vec::new();
    let mut start: usize = 0;
    let mut i: usize = 0;
    proof {
        assert(s@.take(0) == Seq::<char>::empty());
        assert(s@.subrange(0, 0) == Seq::<char>::empty());
        assert(views(list@).push(s@.subrange(0, 0)) == split(s@.take(0), sep));
    }
    while i < all.len()
        invariant
            start <= i <= all.len(),
            all@ == s@,
            views(list@).push(s@.subrange(start as int, i as int)) == split(
                s@.take(i as int),
                sep,
            ),
        decreases all.len() - i,
    {
        let ghost before = split(s@.take(i as int), sep);
        assert(s@.take(i + 1).drop_last() == s@.take(i as int));
        if all[i] == sep {
            let piece = s.substring_char(start, i);
            let ghost shorter = views(list@);
            list.push(piece);
            assert(views(list@) == shorter.push(piece@));
            start = i + 1;
            assert(s@.subrange(start as int, i + 1) == Seq::<char>::empty());
        } else {
            assert(s@.subrange(start as int, i + 1) == s@.subrange(start as int, i as int).push(
                s@[i as int],
            ));
            assert(before.drop_last() == views(list@));
        }
        i = i + 1;
    }
    assert(s@.take(i as int) == s@);
    let ghost shorter = views(list@);
    let piece = s.substring_char(start, i);
    list.push(piece);
    assert(views(list@) == shorter.push(piece@));
    list
}

/// Whether `s` is one digit or more, and nothing else.
pub fn digits(s: &str) -> (yes: bool)
    ensures
        yes == all_digits(s@),
{
    let list = chars(s);
    let mut i: usize = 0;
    while i < list.len()
        invariant
            i <= list.len(),
            list@ == s@,
            forall|j: int| 0 <= j < i ==> is_digit(#[trigger] s@[j]),
        decreases list.len() - i,
    {
        if !(list[i] >= '0' && list[i] <= '9') {
            assert(!is_digit(s@[i as int]));
            return false;
        }
        i = i + 1;
    }
    list.len() > 0
}

/// The number that `s` writes in decimal, where that is at most `max`.
fn digits_up_to(s: &str, max: u64) -> (n: Option<u64>)
    ensures
        match n {
            Some(v) => all_digits(s@) && digits_value(s@) <= max && v == digits_value(s@),
            None => !(all_digits(s@) && digits_value(s@) <= max),
        },
{
    if !digits(s) {
        return None;
    }
    let list = chars(s);
    let mut value: u64 = 0;
    let mut i: usize = 0;
    assert(s@.take(0) == Seq::<char>::empty());
    while i < list.len()
        invariant
            i <= list.len(),
            list@ == s@,
            all_digits(s@),
            value <= max,
            value == digits_value(s@.take(i as int)),
        decreases list.len() - i,
    {
        assert(is_digit(s@[i as int]));
        let d: u64 = list[i] as u64 - '0' as u64;
        assert(s@.take(i + 1).drop_last() == s@.take(i as int));
        assert(digits_value(s@.take(i + 1)) == 10 * value + d);
        if d > max || value > (max - d) / 10 {
            proof {
                lemma_digits_value_monotone(s@, i + 1);
            }
            return None;
        }
        value = value * 10 + d;
        i = i + 1;
    }
    assert(s@.take(i as int) == s@);
    Some(value)
}

/// The unsigned integer that `s` writes, where that is at most `max`.
pub fn number_up_to(s: &str, max: u64) -> (n: Option<u64>)
    ensures
        match n {
            Some(v) => unsigned(s@, max as nat) == Some(v as nat),
            None => unsigned(s@, max as nat) is None,
        },
{
    let count: usize = s.unicode_len();
    if count > 0 && s.get_char(0) == '+' {
        let rest = s.substring_char(1, count);
        assert(rest@ == s@.drop_first());
        digits_up_to(rest, max)
    } else {
        digits_up_to(s, max)
    }
}

/// Writes `n` in decimal at the end of `out`.
pub fn push_decimal(out: &mut String, n: u64)
    ensures
        final(out)@ == old(out)@ + decimal(n as nat),
    decreases n,
{
    if n >= 10 {
        push_decimal(out, n / 10);
    }
    let d: u8 = (n % 10) as u8;
    out.push(('0' as u8 + d) as char);
    assert(decimal(n as nat).last() == digit((n % 10) as nat));
    assert(out@ =~= old(out)@ + decimal(n as nat));
}

/// One character over and over.
pub open spec fn repeated(c: char, n: int) -> Seq<char> {
    if n > 0 {
        Seq::new(n as nat, |i: int| c)
    } else {
        Seq::empty()
    }
}

/// Text filled up to `width` with `c` in front.
pub open spec fn pad_start(s: Seq<char>, width: int, c: char) -> Seq<char> {
    repeated(c, width - s.len()) + s
}

/// Text filled up to `width` with `c` behind.
pub open spec fn pad_end(s: Seq<char>, width: int, c: char) -> Seq<char> {
    s + repeated(c, width - s.len())
}

fn push_repeated(out: &mut String, c: char, n: usize)
    ensures
        final(out)@ == old(out)@ + repeated(c, n as int),
{
    let mut i: usize = 0;
    assert(out@ =~= old(out)@ + repeated(c, 0));
    while i < n
        invariant
            i <= n,
            out@ == old(out)@ + repeated(c, i as int),
        decreases n - i,
    {
        out.push(c);
        assert(out@ =~= old(out)@ + repeated(c, i + 1));
        i = i + 1;
    }
}

/// Writes `s` at the end of `out`, filled up to `width` with `c` in front.
pub fn push_pad_start(out: &mut String, s: &str, width: usize, c: char)
    ensures
        final(out)@ == old(out)@ + pad_start(s@, width as int, c),
{
    let count: usize = s.unicode_len();
    if count < width {
        push_repeated(out, c, width - count);
    }
    out.append(s);
    assert(out@ =~= old(out)@ + pad_start(s@, width as int, c));
}

/// Writes `s` at the end of `out`, filled up to `width` with `c` behind.
pub fn push_pad_end(out: &mut String, s: &str, width: usize, c: char)
    ensures
        final(out)@ == old(out)@ + pad_end(s@, width as int, c),
{
    let count: usize = s.unicode_len();
    out.append(s);
    if count < width {
        push_repeated(out, c, width - count);
    }
    assert(out@ =~= old(out)@ + pad_end(s@, width as int, c));
}

/// Pieces with a `sep` between each and the next.
pub open spec fn joined(pieces: Seq<Seq<char>>, sep: char) -> Seq<char>
    decreases pieces.len(),
{
    if pieces.len() == 0 {
        Seq::empty()
    } else if pieces.len() == 1 {
        pieces[0]
    } else {
        joined(pieces.drop_last(), sep) + seq![sep] + pieces.last()
    }
}

/// Pieces that are joined come apart again where they were joined.
pub proof fn what_is_joined_comes_apart(pieces: Seq<Seq<char>>, sep: char)
    requires
        pieces.len() > 0,
        forall|i: int| 0 <= i < pieces.len() ==> !(#[trigger] pieces[i]).contains(sep),
    ensures
        split(joined(pieces, sep), sep) == pieces,
    decreases pieces.len(),
{
    let last = pieces.last();
    assert(!pieces[pieces.len() - 1].contains(sep));
    if pieces.len() == 1 {
        let empty = Seq::<char>::empty();
        lemma_split_append(empty, last, sep);
        assert(empty + last =~= last);
        assert(split(last, sep) =~= pieces);
    } else {
        let front = pieces.drop_last();
        assert forall|i: int| 0 <= i < front.len() implies !(#[trigger] front[i]).contains(sep) by {
            assert(front[i] == pieces[i]);
        }
        what_is_joined_comes_apart(front, sep);
        let head = joined(front, sep);
        let begun = head + seq![sep];
        assert(begun.drop_last() =~= head);
        assert(split(begun, sep) =~= front.push(Seq::<char>::empty()));
        lemma_split_append(begun, last, sep);
        assert(Seq::<char>::empty() + last =~= last);
        assert(split(begun + last, sep) =~= pieces);
    }
}

/// The pieces of a text make it up again, and none of them holds a `sep`.
pub proof fn splitting_loses_nothing(s: Seq<char>, sep: char)
    ensures
        joined(split(s, sep), sep) == s,
        forall|i: int| 0 <= i < split(s, sep).len() ==> !(#[trigger] split(s, sep)[i]).contains(sep),
    decreases s.len(),
{
    lemma_split_some(s, sep);
    let all = split(s, sep);
    if s.len() == 0 {
        assert(all[0] =~= s);
    } else {
        let front = s.drop_last();
        let c = s.last();
        let before = split(front, sep);
        splitting_loses_nothing(front, sep);
        lemma_split_some(front, sep);
        assert(front + seq![c] =~= s);
        if c == sep {
            assert(all.drop_last() =~= before);
            assert(front + seq![sep] + Seq::<char>::empty() =~= s);
            assert forall|i: int| 0 <= i < all.len() implies !(#[trigger] all[i]).contains(
                sep,
            ) by {
                if i < before.len() {
                    assert(all[i] == before[i]);
                }
            }
        } else {
            assert(all.drop_last() =~= before.drop_last());
            assert(!before[before.len() - 1].contains(sep));
            assert forall|i: int| 0 <= i < all.len() implies !(#[trigger] all[i]).contains(
                sep,
            ) by {
                if i < all.len() - 1 {
                    assert(all[i] == before[i]);
                } else if all[i].contains(sep) {
                    let k: int = choose|k: int| 0 <= k < all[i].len() && all[i][k] == sep;
                    assert(before.last()[k] == sep);
                    assert(before[before.len() - 1].contains(sep));
                }
            }
            if all.len() == 1 {
                assert(before[0].push(c) =~= s);
            } else {
                assert(joined(before.drop_last(), sep) + seq![sep] + before.last().push(c) =~= s);
            }
        }
    }
}

/// Text parts at its first `sep`: what comes before holds none, and the two
/// parts and the `sep` between them make up the whole. Text without one
/// doesn't part.
pub proof fn text_parts_at_the_first(before: Seq<char>, after: Seq<char>, sep: char)
    requires
        !before.contains(sep),
    ensures
        split_once(before + seq![sep] + after, sep) == Some((before, after)),
        split_once(before, sep) is None,
{
    let s = before + seq![sep] + after;
    let n = before.len() as int;
    assert forall|j: int| 0 <= j < n implies s[j] != sep by {
        assert(before.contains(before[j]));
    }
    assert(is_first(s, sep, n));
    lemma_is_first(s, sep, n);
    assert(s.take(n) =~= before);
    assert(s.skip(n + 1) =~= after);
}

/// Text parts at its last `sep`, in the same way.
pub proof fn text_parts_at_the_last(before: Seq<char>, after: Seq<char>, sep: char)
    requires
        !after.contains(sep),
    ensures
        rsplit_once(before + seq![sep] + after, sep) == Some((before, after)),
        rsplit_once(after, sep) is None,
{
    let s = before + seq![sep] + after;
    let n = before.len() as int;
    assert forall|j: int| n < j < s.len() implies s[j] != sep by {
        assert(after.contains(after[j - n - 1]));
    }
    assert(is_last(s, sep, n));
    lemma_is_last(s, sep, n);
    assert(s.take(n) =~= before);
    assert(s.skip(n + 1) =~= after);
}

/// White space around a text goes, and nothing else: neither the text nor the
/// white space within it.
pub proof fn space_around_goes(lead: Seq<char>, s: Seq<char>, tail: Seq<char>)
    requires
        is_trimmed(s),
        forall|i: int| 0 <= i < lead.len() ==> is_space(#[trigger] lead[i]),
        forall|i: int| 0 <= i < tail.len() ==> is_space(#[trigger] tail[i]),
    ensures
        trim(lead + s + tail) == s,
        trim_end(s + tail) == s,
{
    let whole = lead + s + tail;
    let n = lead.len() as int;
    let body = s + tail;
    assert forall|i: int| s.len() <= i < body.len() implies is_space(#[trigger] body[i]) by {
        assert(body[i] == tail[i - s.len()]);
    }
    if s.len() > 0 {
        lemma_trim_end(body, s.len() as int);
        assert(body.take(s.len() as int) =~= s);
        assert forall|i: int| 0 <= i < n implies is_space(#[trigger] whole[i]) by {
            assert(whole[i] == lead[i]);
        }
        assert(whole[n] == s[0]);
        lemma_trim_start(whole, n);
        assert(whole.skip(n) =~= body);
    } else {
        lemma_trim_end(body, 0);
        assert(body.take(0) =~= s);
        let all = whole.len() as int;
        assert forall|i: int| 0 <= i < all implies is_space(#[trigger] whole[i]) by {
            if i < n {
                assert(whole[i] == lead[i]);
            } else {
                assert(whole[i] == tail[i - n]);
            }
        }
        lemma_trim_start(whole, all);
        assert(whole.skip(all) =~= s);
    }
}

/// Of the characters up to `~`, white space is the space and the five
/// controls from tab to carriage return; letters, digits and marks are not. Of
/// those beyond, it is what Unicode has as white space.
pub proof fn what_white_space_is(c: char)
    ensures
        c <= '~' ==> (is_space(c) <==> c == ' ' || c == '\t' || c == '\n' || c == '\r' || c as u32
            == 0x0b || c as u32 == 0x0c),
        is_digit(c) ==> !is_space(c),
        c > '~' ==> (is_space(c) <==> {
            ||| c as u32 == 0x85
            ||| c as u32 == 0xa0
            ||| c as u32 == 0x1680
            ||| 0x2000 <= c as u32 <= 0x200a
            ||| c as u32 == 0x2028
            ||| c as u32 == 0x2029
            ||| c as u32 == 0x202f
            ||| c as u32 == 0x205f
            ||| c as u32 == 0x3000
        }),
{
}

/// A number written in decimal reads back as itself, with as many zeros or a
/// `+` in front as may be, and nothing else is read as a number.
pub proof fn a_written_number_is_read(n: nat, zeros: nat, max: nat)
    ensures
        ({
            let s = repeated('0', zeros as int) + decimal(n);
            &&& n <= max ==> unsigned(s, max) == Some(n)
            &&& n <= max ==> unsigned(seq!['+'] + s, max) == Some(n)
            &&& n > max ==> unsigned(s, max) is None
            &&& n > max ==> unsigned(seq!['+'] + s, max) is None
        }),
{
    let s = repeated('0', zeros as int) + decimal(n);
    lemma_decimal(n);
    lemma_leading_zeros(decimal(n), zeros);
    lemma_unsigned_digits(s, max);
    let signed = seq!['+'] + s;
    assert(signed.drop_first() =~= s);
}

/// Zeros in front of digits change nothing of the number that they write.
pub proof fn lemma_leading_zeros(s: Seq<char>, zeros: nat)
    requires
        all_digits(s),
    ensures
        all_digits(repeated('0', zeros as int) + s),
        digits_value(repeated('0', zeros as int) + s) == digits_value(s),
    decreases s.len(),
{
    let whole = repeated('0', zeros as int) + s;
    assert forall|i: int| 0 <= i < whole.len() implies is_digit(#[trigger] whole[i]) by {
        if i >= zeros {
            assert(is_digit(s[i - zeros]));
        }
    }
    let front = s.drop_last();
    assert(whole.drop_last() =~= repeated('0', zeros as int) + front);
    assert(whole.last() == s.last());
    if s.len() == 1 {
        assert(whole.drop_last() =~= repeated('0', zeros as int));
        lemma_zeros(zeros);
        assert(front =~= Seq::<char>::empty());
        assert(digits_value(front) == 0);
    } else {
        assert forall|i: int| 0 <= i < front.len() implies is_digit(#[trigger] front[i]) by {
            assert(is_digit(s[i]));
        }
        lemma_leading_zeros(front, zeros);
    }
}

proof fn lemma_zeros(n: nat)
    ensures
        digits_value(repeated('0', n as int)) == 0,
    decreases n,
{
    if n > 0 {
        assert(repeated('0', n as int).drop_last() =~= repeated('0', n - 1));
        lemma_zeros((n - 1) as nat);
    }
}

/// What is read as a number is written in digits alone, which one `+` may
/// precede.
pub proof fn only_digits_are_a_number(s: Seq<char>, max: nat)
    ensures
        unsigned(s, max) matches Some(n) ==> {
            &&& n <= max
            &&& s.len() > 0
            &&& forall|i: int| 0 < i < s.len() ==> '0' <= #[trigger] s[i] <= '9'
            &&& '0' <= s[0] <= '9' || (s[0] == '+' && s.len() > 1)
        },
{
    if unsigned(s, max) is Some {
        if s[0] == '+' {
            assert forall|i: int| 0 < i < s.len() implies '0' <= #[trigger] s[i] <= '9' by {
                assert(is_digit(s.drop_first()[i - 1]));
            }
        } else {
            assert forall|i: int| 0 <= i < s.len() implies '0' <= #[trigger] s[i] <= '9' by {
                assert(is_digit(s[i]));
            }
        }
    }
}

} // verus!
