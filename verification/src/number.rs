//! Decimal numbers as instruments write them, kept as their characters: the
//! hub hands them on and never computes with them.

use crate::text;
use vstd::prelude::*;
use vstd::string::*;

verus! {

/// A finite number as it was written: `022.4`, `-32.2`, `1e3`.
#[derive(Debug, PartialEq)]
pub struct Number {
    pub text: String,
}

impl View for Number {
    type V = Seq<char>;

    open spec fn view(&self) -> Seq<char> {
        self.text@
    }
}

/// The characters of a number that may be absent.
pub open spec fn written(n: Option<Number>) -> Option<Seq<char>> {
    match n {
        Some(v) => Some(v@),
        None => None,
    }
}

impl Clone for Number {
    fn clone(&self) -> (copied: Number)
        ensures
            copied == *self,
    {
        Number { text: self.text.clone() }
    }
}

/// A copy of a number that may be absent.
pub fn copy(n: &Option<Number>) -> (copied: Option<Number>)
    ensures
        copied == *n,
{
    match n {
        Some(v) => Some(v.clone()),
        None => None,
    }
}

/// The digit at `i` of a decimal fraction, which zeros continue without end.
pub open spec fn digit_at(s: Seq<char>, i: int) -> char {
    if i < s.len() {
        s[i]
    } else {
        '0'
    }
}

/// Of two decimal fractions, `0.a` and `0.b`, the first is the smaller: they
/// agree up to some digit, and there `a` has the smaller one.
pub open spec fn fraction_less(a: Seq<char>, b: Seq<char>) -> bool {
    exists|i: int| #[trigger] differs_below(a, b, i)
}

pub open spec fn differs_below(a: Seq<char>, b: Seq<char>, i: int) -> bool {
    &&& 0 <= i
    &&& digit_at(a, i) < digit_at(b, i)
    &&& forall|j: int| 0 <= j < i ==> digit_at(a, j) == digit_at(b, j)
}

/// A fraction's first `n` digits, zeros among them.
pub open spec fn first_digits(s: Seq<char>, n: nat) -> Seq<char> {
    Seq::new(n, |i: int| digit_at(s, i))
}

/// Fractions order as the numbers they stand for: as whole numbers do, once
/// both have as many digits.
pub proof fn fractions_order_as_numbers(a: Seq<char>, b: Seq<char>, n: nat)
    requires
        only_digits(a),
        only_digits(b),
        a.len() <= n,
        b.len() <= n,
    ensures
        fraction_less(a, b) <==> text::digits_value(first_digits(a, n)) < text::digits_value(
            first_digits(b, n),
        ),
{
    if fraction_less(a, b) {
        let i: int = choose|i: int| #[trigger] differs_below(a, b, i);
        lemma_less(a, b, n, i);
    } else if fraction_less(b, a) {
        let i: int = choose|i: int| #[trigger] differs_below(b, a, i);
        lemma_less(b, a, n, i);
    } else {
        assert forall|i: int| 0 <= i < n implies digit_at(a, i) == digit_at(b, i) by {
            lemma_no_difference(a, b, i);
        }
        assert(first_digits(a, n) =~= first_digits(b, n));
    }
}

proof fn lemma_no_difference(a: Seq<char>, b: Seq<char>, i: int)
    requires
        0 <= i,
        !fraction_less(a, b),
        !fraction_less(b, a),
    ensures
        forall|j: int| 0 <= j <= i ==> digit_at(a, j) == digit_at(b, j),
    decreases i,
{
    if i > 0 {
        lemma_no_difference(a, b, i - 1);
    }
    assert(!differs_below(a, b, i));
    assert(!differs_below(b, a, i));
}

proof fn lemma_is_digit(s: Seq<char>, i: int)
    requires
        only_digits(s),
        0 <= i,
    ensures
        text::is_digit(digit_at(s, i)),
{
    if i < s.len() {
        assert(text::is_digit(s[i]));
    }
}

/// From the digit on where two fractions differ, the smaller stays behind.
proof fn lemma_less(a: Seq<char>, b: Seq<char>, n: nat, i: int)
    requires
        only_digits(a),
        only_digits(b),
        a.len() <= n,
        b.len() <= n,
        differs_below(a, b, i),
    ensures
        text::digits_value(first_digits(a, n)) < text::digits_value(first_digits(b, n)),
{
    assert(i < n) by {
        if i >= n {
            assert(digit_at(a, i) == '0' && digit_at(b, i) == '0');
        }
    }
    lemma_less_up_to(a, b, n, i);
}

proof fn lemma_less_up_to(a: Seq<char>, b: Seq<char>, n: nat, i: int)
    requires
        only_digits(a),
        only_digits(b),
        differs_below(a, b, i),
        i < n,
    ensures
        text::digits_value(first_digits(a, n)) < text::digits_value(first_digits(b, n)),
    decreases n,
{
    let m = (n - 1) as nat;
    assert(first_digits(a, n).drop_last() =~= first_digits(a, m));
    assert(first_digits(b, n).drop_last() =~= first_digits(b, m));
    lemma_is_digit(a, m as int);
    lemma_is_digit(b, m as int);
    if i == m {
        assert forall|j: int| 0 <= j < m implies digit_at(a, j) == digit_at(b, j) by {}
        assert(first_digits(a, m) =~= first_digits(b, m));
    } else {
        lemma_less_up_to(a, b, m, i);
    }
}

pub fn fraction_below(a: &str, b: &str) -> (less: bool)
    ensures
        less == fraction_less(a@, b@),
{
    let x = text::chars(a);
    let y = text::chars(b);
    let mut i: usize = 0;
    while i < x.len() || i < y.len()
        invariant
            x@ == a@,
            y@ == b@,
            i <= x.len() || i <= y.len(),
            forall|j: int| 0 <= j < i ==> digit_at(a@, j) == digit_at(b@, j),
        decreases (if x.len() > y.len() { x.len() } else { y.len() }) - i,
    {
        let p = if i < x.len() { x[i] } else { '0' };
        let q = if i < y.len() { y[i] } else { '0' };
        if p < q {
            assert(differs_below(a@, b@, i as int));
            return true;
        }
        if p > q {
            assert forall|k: int| !(#[trigger] differs_below(a@, b@, k)) by {
                if differs_below(a@, b@, k) {
                    assert(k <= i ==> digit_at(a@, k) >= digit_at(b@, k));
                    assert(digit_at(a@, i as int) == digit_at(b@, i as int));
                }
            }
            return false;
        }
        i = i + 1;
    }
    assert forall|k: int| !(#[trigger] differs_below(a@, b@, k)) by {
        if 0 <= k < i {
            assert(digit_at(a@, k) == digit_at(b@, k));
        }
    }
    false
}

pub open spec fn is_sign(c: char) -> bool {
    c == '+' || c == '-'
}

/// What follows a sign, where there is one.
pub open spec fn after_sign(s: Seq<char>) -> Seq<char> {
    if s.len() > 0 && is_sign(s[0]) {
        s.drop_first()
    } else {
        s
    }
}

/// Where an `e` or `E` first occurs, or the end.
pub open spec fn exponent_at(s: Seq<char>) -> int
    decreases s.len(),
{
    if s.len() == 0 || s[0] == 'e' || s[0] == 'E' {
        0
    } else {
        1 + exponent_at(s.drop_first())
    }
}

/// The digits and point before an exponent, without the sign.
pub open spec fn mantissa(s: Seq<char>) -> Seq<char> {
    after_sign(s).take(exponent_at(after_sign(s)))
}

/// What follows the `e` of an exponent; nothing where there is none.
pub open spec fn exponent_text(s: Seq<char>) -> Seq<char> {
    let u = after_sign(s);
    if exponent_at(u) < u.len() {
        u.skip(exponent_at(u) + 1)
    } else {
        Seq::empty()
    }
}

/// The mantissa's digits before its point.
pub open spec fn whole_digits(s: Seq<char>) -> Seq<char> {
    match text::split_once(mantissa(s), '.') {
        Some((whole, _)) => whole,
        None => mantissa(s),
    }
}

/// The mantissa's digits after its point.
pub open spec fn decimal_digits(s: Seq<char>) -> Seq<char> {
    match text::split_once(mantissa(s), '.') {
        Some((_, decimals)) => decimals,
        None => Seq::empty(),
    }
}

pub open spec fn only_digits(s: Seq<char>) -> bool {
    s.len() == 0 || text::all_digits(s)
}

/// A decimal number: a sign, perhaps; digits with a point among them or at
/// either end, perhaps; and a power of ten behind an `e`, perhaps.
pub open spec fn is_numeral(s: Seq<char>) -> bool {
    &&& only_digits(whole_digits(s))
    &&& only_digits(decimal_digits(s))
    &&& whole_digits(s).len() + decimal_digits(s).len() > 0
    &&& exponent_at(after_sign(s)) < after_sign(s).len() ==> text::all_digits(
        after_sign(exponent_text(s)),
    )
}

/// The power of ten that a number's mantissa is multiplied by.
pub open spec fn exponent(s: Seq<char>) -> int {
    let e = exponent_text(s);
    if e.len() > 0 && e[0] == '-' {
        -(text::digits_value(after_sign(e)) as int)
    } else {
        text::digits_value(after_sign(e)) as int
    }
}

/// How many zeros lead.
pub open spec fn leading_zeros(s: Seq<char>) -> int
    decreases s.len(),
{
    if s.len() > 0 && s[0] == '0' {
        1 + leading_zeros(s.drop_first())
    } else {
        0
    }
}

/// All of the mantissa's digits.
pub open spec fn all_of(s: Seq<char>) -> Seq<char> {
    whole_digits(s) + decimal_digits(s)
}

/// The mantissa's digits from the first that isn't zero.
pub open spec fn significant(s: Seq<char>) -> Seq<char> {
    all_of(s).skip(leading_zeros(all_of(s)))
}

/// The `m` with which a number is `0.significant` times ten to the `m`.
pub open spec fn magnitude(s: Seq<char>) -> int {
    whole_digits(s).len() - leading_zeros(all_of(s)) + exponent(s)
}

/// The digits of 2^1024 - 2^970, from which on a double rounds to infinity.
pub open spec fn infinity_digits() -> Seq<char> {
    "179769313486231580793728971405303415079934132710037826936173778980444968292764750946649017977587207096330286416692887910946555547851940402630657488671505820681908902000708383676273854845817711531764475730270069855571366959622842914819860834936475292719074168444365510704342711559699508093042880177904174497792"@
}

/// A number smaller than every one that a double rounds to infinity.
pub open spec fn is_finite(s: Seq<char>) -> bool {
    ||| significant(s).len() == 0
    ||| magnitude(s) < 309
    ||| magnitude(s) == 309 && fraction_less(significant(s), infinity_digits())
}

/// The number a field holds; none where it isn't a finite one.
pub open spec fn number_of(field: Seq<char>) -> Option<Seq<char>> {
    if is_numeral(field) && is_finite(field) {
        Some(field)
    } else {
        None
    }
}

/// An exponent this large outweighs any number of digits.
const BEYOND: i128 = 100_000_000_000_000_000_000;

fn digits_or_nothing(s: &str) -> (yes: bool)
    ensures
        yes == only_digits(s@),
{
    s.unicode_len() == 0 || text::digits(s)
}

fn unsigned_part<'a>(s: &'a str) -> (rest: &'a str)
    ensures
        rest@ == after_sign(s@),
{
    let count: usize = s.unicode_len();
    if count > 0 && (s.get_char(0) == '+' || s.get_char(0) == '-') {
        let rest = s.substring_char(1, count);
        assert(rest@ == s@.drop_first());
        rest
    } else {
        s
    }
}

fn find_exponent(s: &str) -> (at: usize)
    ensures
        at == exponent_at(s@),
        at <= s@.len(),
{
    let list = text::chars(s);
    let mut i: usize = 0;
    assert(s@.skip(0) == s@);
    while i < list.len() && list[i] != 'e' && list[i] != 'E'
        invariant
            i <= list.len(),
            list@ == s@,
            exponent_at(s@) == i + exponent_at(s@.skip(i as int)),
        decreases list.len() - i,
    {
        assert(s@.skip(i as int).drop_first() == s@.skip(i + 1));
        i = i + 1;
    }
    i
}

fn count_zeros(s: &str) -> (n: usize)
    ensures
        n == leading_zeros(s@),
        n <= s@.len(),
{
    let list = text::chars(s);
    let mut i: usize = 0;
    assert(s@.skip(0) == s@);
    while i < list.len() && list[i] == '0'
        invariant
            i <= list.len(),
            list@ == s@,
            leading_zeros(s@) == i + leading_zeros(s@.skip(i as int)),
        decreases list.len() - i,
    {
        assert(s@.skip(i as int).drop_first() == s@.skip(i + 1));
        i = i + 1;
    }
    i
}

/// The number that digits write, or some number from `BEYOND` on where
/// theirs is.
fn capped_value(s: &str) -> (value: i128)
    requires
        text::all_digits(s@),
    ensures
        value == text::digits_value(s@) || (value >= BEYOND && text::digits_value(s@) >= BEYOND),
        0 <= value <= 10 * BEYOND + 10,
{
    let list = text::chars(s);
    let mut value: i128 = 0;
    let mut i: usize = 0;
    assert(s@.take(0) == Seq::<char>::empty());
    while i < list.len()
        invariant
            i <= list.len(),
            list@ == s@,
            text::all_digits(s@),
            0 <= value <= 10 * BEYOND + 10,
            value == text::digits_value(s@.take(i as int)) || (value >= BEYOND
                && text::digits_value(s@.take(i as int)) >= BEYOND),
        decreases list.len() - i,
    {
        assert(text::is_digit(s@[i as int]));
        assert(s@.take(i + 1).drop_last() == s@.take(i as int));
        let d: i128 = list[i] as i128 - '0' as i128;
        if value < BEYOND {
            value = value * 10 + d;
        }
        i = i + 1;
    }
    assert(s@.take(i as int) == s@);
    value
}

/// The number in a field; `None` where it holds none, or one too large to be
/// told from infinity.
pub fn number(field: &str) -> (n: Option<Number>)
    ensures
        written(n) == number_of(field@),
{
    let body = unsigned_part(field);
    let length: usize = body.unicode_len();
    let at: usize = find_exponent(body);
    let front = body.substring_char(0, at);
    assert(front@ == mantissa(field@));
    let (whole, decimals) = match text::parted(front, '.') {
        Some((whole, decimals)) => (whole, decimals),
        None => {
            let nothing = front.substring_char(0, 0);
            assert(nothing@ == Seq::<char>::empty());
            (front, nothing)
        },
    };
    if !digits_or_nothing(whole) || !digits_or_nothing(decimals) {
        return None;
    }
    let whole_count: usize = whole.unicode_len();
    if whole_count == 0 && decimals.unicode_len() == 0 {
        return None;
    }
    let mut power: i128 = 0;
    if at < length {
        let e = body.substring_char(at + 1, length);
        assert(e@ == exponent_text(field@));
        let scale = unsigned_part(e);
        if !text::digits(scale) {
            return None;
        }
        power = capped_value(scale);
        if e.get_char(0) == '-' {
            power = -power;
        }
    }
    proof {
        if !(at < length) {
            assert(after_sign(exponent_text(field@)) == Seq::<char>::empty());
        }
    }
    let mut all = whole.to_owned();
    all.append(decimals);
    assert(all@ == all_of(field@));
    let zeros: usize = count_zeros(all.as_str());
    let total: usize = all.as_str().unicode_len();
    let leading = all.as_str().substring_char(zeros, total);
    assert(leading@ == significant(field@));
    if zeros < total {
        let scale: i128 = whole_count as i128 - zeros as i128 + power;
        if scale > 309 || (scale == 309 && !fraction_below(
            leading,
            "179769313486231580793728971405303415079934132710037826936173778980444968292764750946649017977587207096330286416692887910946555547851940402630657488671505820681908902000708383676273854845817711531764475730270069855571366959622842914819860834936475292719074168444365510704342711559699508093042880177904174497792",
        )) {
            return None;
        }
    }
    Some(Number { text: field.to_owned() })
}

/// A sign as it may stand in front of a number: none, or a plus or a minus.
pub open spec fn is_sign_text(s: Seq<char>) -> bool {
    s.len() == 0 || s == seq!['+'] || s == seq!['-']
}

/// A number as it may be written: a sign, digits, a point and digits behind
/// it, and a power of ten.
pub open spec fn numeral(
    sign: Seq<char>,
    whole: Seq<char>,
    point: bool,
    decimals: Seq<char>,
    power: Seq<char>,
) -> Seq<char> {
    sign + (whole + (if point {
        seq!['.'] + decimals
    } else {
        Seq::empty()
    }) + power)
}

/// A power of ten as it may be written: an `e`, capital or not, a sign and
/// digits.
pub open spec fn power(capital: bool, sign: Seq<char>, digits: Seq<char>) -> Seq<char> {
    seq![if capital { 'E' } else { 'e' }] + sign + digits
}

proof fn lemma_exponent_at(front: Seq<char>, rest: Seq<char>)
    requires
        !front.contains('e'),
        !front.contains('E'),
        rest.len() > 0 ==> rest[0] == 'e' || rest[0] == 'E',
    ensures
        exponent_at(front + rest) == front.len(),
    decreases front.len(),
{
    let s = front + rest;
    if front.len() == 0 {
        assert(s =~= rest);
    } else {
        assert(front.contains(front[0]));
        let less = front.drop_first();
        assert(s.drop_first() =~= less + rest);
        assert forall|c: char| less.contains(c) implies front.contains(c) by {
            let i: int = choose|i: int| 0 <= i < less.len() && less[i] == c;
            assert(front[i + 1] == c);
        }
        lemma_exponent_at(less, rest);
    }
}

proof fn lemma_digits_hold_no(s: Seq<char>, c: char)
    requires
        only_digits(s),
        !text::is_digit(c),
    ensures
        !s.contains(c),
{
    if s.contains(c) {
        let i: int = choose|i: int| 0 <= i < s.len() && s[i] == c;
        assert(text::is_digit(s[i]));
    }
}

/// The parts that a numeral is written from are the parts that it is read as.
proof fn lemma_numeral(
    sign: Seq<char>,
    whole: Seq<char>,
    point: bool,
    decimals: Seq<char>,
    power: Seq<char>,
)
    requires
        is_sign_text(sign),
        only_digits(whole),
        only_digits(decimals),
        !point ==> decimals.len() == 0,
        power.len() > 0 ==> power[0] == 'e' || power[0] == 'E',
    ensures
        ({
            let s = numeral(sign, whole, point, decimals, power);
            &&& whole_digits(s) == whole
            &&& decimal_digits(s) == decimals
            &&& exponent_at(after_sign(s)) < after_sign(s).len() <==> power.len() > 0
            &&& exponent_text(s) == (if power.len() > 0 {
                power.drop_first()
            } else {
                power
            })
        }),
{
    let s = numeral(sign, whole, point, decimals, power);
    let front = whole + (if point {
        seq!['.'] + decimals
    } else {
        Seq::empty()
    });
    let u = front + power;
    lemma_digits_hold_no(whole, '.');
    lemma_digits_hold_no(whole, 'e');
    lemma_digits_hold_no(whole, 'E');
    lemma_digits_hold_no(decimals, 'e');
    lemma_digits_hold_no(decimals, 'E');
    assert forall|c: char| front.contains(c) implies whole.contains(c) || decimals.contains(c) || c
        == '.' by {
        let i: int = choose|i: int| 0 <= i < front.len() && front[i] == c;
        if i < whole.len() {
            assert(whole[i] == c);
        } else if i > whole.len() {
            assert(decimals[i - whole.len() - 1] == c);
        }
    }
    if sign.len() > 0 {
        assert(s.drop_first() =~= u);
    } else {
        assert(s =~= u);
        if s.len() > 0 {
            if whole.len() > 0 {
                assert(text::is_digit(whole[0]));
                assert(s[0] == whole[0]);
            }
        }
    }
    assert(after_sign(s) == u);
    lemma_exponent_at(front, power);
    assert(mantissa(s) =~= front);
    if point {
        text::text_parts_at_the_first(whole, decimals, '.');
        assert(front =~= whole + seq!['.'] + decimals);
    } else {
        text::text_parts_at_the_first(whole, decimals, '.');
        assert(front =~= whole);
        assert(decimals =~= Seq::<char>::empty());
    }
    if power.len() > 0 {
        assert(u.skip(front.len() as int + 1) =~= power.drop_first());
    } else {
        assert(power =~= Seq::<char>::empty());
    }
}

proof fn lemma_zeros_lead(s: Seq<char>)
    ensures
        0 <= leading_zeros(s) <= s.len(),
    decreases s.len(),
{
    if s.len() > 0 && s[0] == '0' {
        lemma_zeros_lead(s.drop_first());
    }
}

/// Digits with a point among them, in front of them or behind them, or
/// without one, are a number, and so they are behind a sign. It is kept as it
/// was written.
pub proof fn a_written_number_is_kept(
    sign: Seq<char>,
    whole: Seq<char>,
    point: bool,
    decimals: Seq<char>,
)
    requires
        is_sign_text(sign),
        only_digits(whole),
        only_digits(decimals),
        !point ==> decimals.len() == 0,
        0 < whole.len() + decimals.len(),
        whole.len() <= 308,
    ensures
        ({
            let s = numeral(sign, whole, point, decimals, Seq::empty());
            number_of(s) == Some(s)
        }),
{
    let none = Seq::<char>::empty();
    let s = numeral(sign, whole, point, decimals, none);
    lemma_numeral(sign, whole, point, decimals, none);
    lemma_zeros_lead(all_of(s));
    assert(after_sign(exponent_text(s)) =~= none);
    assert(text::digits_value(none) == 0);
}

/// A power of ten may follow, and needs digits of its own. What it makes is a
/// number where it is below 10^308, and none where it is 10^309 or more.
pub proof fn a_number_may_have_a_power(
    sign: Seq<char>,
    whole: Seq<char>,
    point: bool,
    decimals: Seq<char>,
    capital: bool,
    power_sign: Seq<char>,
    digits: Seq<char>,
)
    requires
        is_sign_text(sign),
        only_digits(whole),
        only_digits(decimals),
        !point ==> decimals.len() == 0,
        0 < whole.len() + decimals.len(),
        is_sign_text(power_sign),
    ensures
        ({
            let s = numeral(sign, whole, point, decimals, power(capital, power_sign, digits));
            let e = if power_sign == seq!['-'] {
                -(text::digits_value(digits) as int)
            } else {
                text::digits_value(digits) as int
            };
            &&& !text::all_digits(digits) && !(power_sign.len() == 0 && digits.len() > 0
                && is_sign(digits[0])) ==> number_of(s) is None
            &&& text::all_digits(digits) && whole.len() + e <= 308 ==> number_of(s) == Some(s)
            &&& text::all_digits(digits) && whole.len() + e > 309 && whole.len() > 0 && whole[0]
                != '0' ==> number_of(s) is None
        }),
{
    let p = power(capital, power_sign, digits);
    let s = numeral(sign, whole, point, decimals, p);
    lemma_numeral(sign, whole, point, decimals, p);
    lemma_zeros_lead(all_of(s));
    let behind = p.drop_first();
    assert(behind =~= power_sign + digits);
    if power_sign.len() > 0 {
        assert(behind.drop_first() =~= digits);
        assert(after_sign(behind) == digits);
    } else {
        assert(behind =~= digits);
        if text::all_digits(digits) {
            assert(text::is_digit(digits[0]));
        }
    }
    if whole.len() > 0 && whole[0] != '0' {
        assert(all_of(s)[0] == whole[0]);
        assert(leading_zeros(all_of(s)) == 0);
    }
}

/// A sign, a point, or nothing at all is no number.
pub proof fn a_number_has_digits(sign: Seq<char>, point: bool)
    requires
        is_sign_text(sign),
    ensures
        number_of(numeral(sign, Seq::empty(), point, Seq::empty(), Seq::empty())) is None,
{
    let none = Seq::<char>::empty();
    lemma_numeral(sign, none, point, none, none);
}

/// What is read as a number is what the field holds, and all of it is digits,
/// signs, points and an `e`.
pub proof fn a_number_is_kept_as_written(s: Seq<char>, i: int)
    requires
        number_of(s) is Some,
        0 <= i < s.len(),
    ensures
        number_of(s) == Some(s),
        '0' <= s[i] <= '9' || s[i] == '+' || s[i] == '-' || s[i] == '.' || s[i] == 'e' || s[i]
            == 'E',
{
    let u = after_sign(s);
    let k: int = if u.len() < s.len() { i - 1 } else { i };
    if k >= 0 {
        assert(u[k] == s[i]);
        let e = exponent_at(u);
        lemma_exponent_found(u);
        if k < e {
            let m = mantissa(s);
            assert(m[k] == s[i]);
            if m.contains('.') {
                lemma_parts(m, '.');
                let whole = whole_digits(s);
                let decimals = decimal_digits(s);
                assert(m == whole + seq!['.'] + decimals);
                if k < whole.len() {
                    assert(text::is_digit(whole[k]));
                } else if k > whole.len() {
                    assert(text::is_digit(decimals[k - whole.len() - 1]));
                }
            } else {
                assert(text::is_digit(m[k]));
            }
        } else if k > e {
            let x = exponent_text(s);
            assert(x[k - e - 1] == s[i]);
            let d = after_sign(x);
            if d.len() == x.len() {
                assert(text::is_digit(d[k - e - 1]));
            } else if k - e - 1 > 0 {
                assert(text::is_digit(d[k - e - 2]));
            }
        }
    }
}

proof fn lemma_exponent_found(s: Seq<char>)
    ensures
        0 <= exponent_at(s) <= s.len(),
        exponent_at(s) < s.len() ==> s[exponent_at(s)] == 'e' || s[exponent_at(s)] == 'E',
    decreases s.len(),
{
    if s.len() > 0 && s[0] != 'e' && s[0] != 'E' {
        lemma_exponent_found(s.drop_first());
    }
}

proof fn lemma_parts(s: Seq<char>, sep: char)
    requires
        s.contains(sep),
    ensures
        text::split_once(s, sep) matches Some((before, after)) && s == before + seq![sep] + after,
{
    let i = lemma_first(s, sep);
    text::lemma_is_first(s, sep, i);
    assert(s =~= s.take(i) + seq![sep] + s.skip(i + 1));
}

proof fn lemma_first(s: Seq<char>, sep: char) -> (i: int)
    requires
        s.contains(sep),
    ensures
        text::is_first(s, sep, i),
    decreases s.len(),
{
    if s[0] == sep {
        0
    } else {
        let k: int = choose|k: int| 0 <= k < s.len() && s[k] == sep;
        assert(s.drop_first()[k - 1] == sep);
        let i = lemma_first(s.drop_first(), sep);
        assert forall|j: int| 0 <= j < i + 1 implies s[j] != sep by {
            if j > 0 {
                assert(s.drop_first()[j - 1] == s[j]);
            }
        }
        i + 1
    }
}

/// Of numbers with 309 digits before the point, those below 1.7 times 10^308
/// are numbers, and those of 2 times 10^308 and more are none.
pub proof fn a_number_may_be_as_large_as_a_double(
    sign: Seq<char>,
    whole: Seq<char>,
    point: bool,
    decimals: Seq<char>,
)
    requires
        is_sign_text(sign),
        text::all_digits(whole),
        only_digits(decimals),
        !point ==> decimals.len() == 0,
        whole.len() == 309,
    ensures
        ({
            let s = numeral(sign, whole, point, decimals, Seq::empty());
            &&& whole[0] == '1' && whole[1] <= '6' ==> number_of(s) == Some(s)
            &&& whole[0] >= '2' ==> number_of(s) is None
        }),
{
    let none = Seq::<char>::empty();
    let s = numeral(sign, whole, point, decimals, none);
    lemma_numeral(sign, whole, point, decimals, none);
    assert(after_sign(exponent_text(s)) =~= none);
    assert(text::digits_value(none) == 0);
    let all = all_of(s);
    let limit = infinity_digits();
    reveal_strlit(
        "179769313486231580793728971405303415079934132710037826936173778980444968292764750946649017977587207096330286416692887910946555547851940402630657488671505820681908902000708383676273854845817711531764475730270069855571366959622842914819860834936475292719074168444365510704342711559699508093042880177904174497792",
    );
    assert(limit[0] == '1' && limit[1] == '7');
    assert(all[0] == whole[0] && all[1] == whole[1]);
    if whole[0] >= '1' {
        assert(leading_zeros(all) == 0);
        assert(significant(s) =~= all);
        if whole[0] == '1' && whole[1] <= '6' {
            assert(differs_below(all, limit, 1));
        }
        if whole[0] >= '2' {
            assert forall|i: int| !(#[trigger] differs_below(all, limit, i)) by {
                if differs_below(all, limit, i) {
                    assert(i == 0 || digit_at(all, 0) == digit_at(limit, 0));
                }
            }
        }
    }
}

} // verus!
