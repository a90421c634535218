//! Decimal numbers with eighteen digits after the point, and the notation
//! they are read from.
//!
//! Frequencies and pot percentages are held as such numbers, so that every
//! comparison and every rounding is exact. The notation is that of decimal
//! numbers: an optional sign, digits with an optional point among them, and an
//! optional exponent of ten; `inf` and `infinity` stand for the capacity.
//! Reading drops what is finer than a unit, but reads no number other than
//! zero as zero, and a number beyond the capacity counts as the capacity.

use vstd::prelude::*;
use vstd::slice::slice_subrange;
use crate::text::{find_char, first_index, lemma_first_index_bounds, str_chars};

verus! {

/// How many units make up the number one.
pub const SCALE: i128 = 1_000_000_000_000_000_000;

/// A decimal number, held as a whole count of units of `1 / SCALE`.
#[derive(Clone, Copy, Debug, PartialEq, Eq, Structural)]
pub struct Decimal {
    pub units: i128,
}

/// Whether `c` is one of the digits `0` to `9`.
pub open spec fn is_digit(c: char) -> bool {
    0x30 <= c as u32 <= 0x39
}

/// The value of the digit `c`, and 0 for any other character.
pub open spec fn digit_value(c: char) -> int {
    if is_digit(c) {
        c as u32 - 0x30
    } else {
        0
    }
}

/// Whether `s` holds digits only.
pub open spec fn all_digits(s: Seq<char>) -> bool {
    forall|i: int| 0 <= i < s.len() ==> is_digit(#[trigger] s[i])
}

/// Whether `s` holds no digit but `0`.
pub open spec fn all_zero(s: Seq<char>) -> bool {
    forall|i: int| 0 <= i < s.len() ==> digit_value(#[trigger] s[i]) == 0
}

/// What a 1 at place `k` is worth: ten to the power `k`, and nothing at a
/// place below 0. Counted in units, place 18 is that of the ones.
pub open spec fn place_units(k: int) -> int
    decreases k,
{
    if k < 0 {
        0
    } else if k == 0 {
        1
    } else {
        10 * place_units(k - 1)
    }
}

/// What the digits `s` are worth, the first of them at place `top` and each
/// further one a place lower.
pub open spec fn digits_units(s: Seq<char>, top: int) -> int
    decreases s.len(),
{
    if s.len() == 0 {
        0
    } else {
        digits_units(s.drop_last(), top) + digit_value(s.last()) * place_units(top - (s.len() - 1))
    }
}

/// The number that the digits `s` write.
pub open spec fn digits_value(s: Seq<char>) -> int {
    digits_units(s, s.len() - 1)
}

/// Whether `c` is a sign.
pub open spec fn is_sign(c: char) -> bool {
    c == '+' || c == '-'
}

/// What follows the sign of `s`, or all of `s` where it has none.
pub open spec fn unsigned_part(s: Seq<char>) -> Seq<char> {
    if s.len() > 0 && is_sign(s[0]) {
        s.skip(1)
    } else {
        s
    }
}

/// The smaller of two numbers.
pub open spec fn smaller(a: int, b: int) -> int {
    if a <= b {
        a
    } else {
        b
    }
}

/// The position of the exponent mark of `body`, an `e` in either case, or
/// the length of `body` where it has none.
pub open spec fn mark_index(body: Seq<char>) -> int {
    smaller(first_index(body, 'e'), first_index(body, 'E'))
}

/// What stands before the exponent mark of `body`.
pub open spec fn mantissa(body: Seq<char>) -> Seq<char> {
    body.take(mark_index(body))
}

/// The digits of `body` before the point.
pub open spec fn whole_part(body: Seq<char>) -> Seq<char> {
    mantissa(body).take(first_index(mantissa(body), '.'))
}

/// The digits of `body` after the point, if it has one.
pub open spec fn fraction_part(body: Seq<char>) -> Seq<char> {
    let point = first_index(mantissa(body), '.');
    if point < mantissa(body).len() {
        mantissa(body).skip(point + 1)
    } else {
        Seq::empty()
    }
}

/// The power of ten that `text` writes: an optional sign and at least one
/// digit.
pub open spec fn exponent_of(text: Seq<char>) -> Option<int> {
    let digits = unsigned_part(text);
    if digits.len() > 0 && all_digits(digits) {
        if text[0] == '-' {
            Some(-digits_value(digits))
        } else {
            Some(digits_value(digits))
        }
    } else {
        None
    }
}

/// The power of ten that follows the exponent mark of `body`, and 0 where
/// `body` has no mark.
pub open spec fn exponent(body: Seq<char>) -> Option<int> {
    if mark_index(body) < body.len() {
        exponent_of(body.skip(mark_index(body) + 1))
    } else {
        Some(0)
    }
}

/// Whether `body` is an unsigned decimal number: digits with at most one
/// point among them, at least one digit, and after an exponent mark a power
/// of ten.
pub open spec fn is_number(body: Seq<char>) -> bool {
    &&& all_digits(whole_part(body))
    &&& all_digits(fraction_part(body))
    &&& whole_part(body).len() + fraction_part(body).len() > 0
    &&& exponent(body) is Some
}

/// Whether `body` is `inf` or `infinity`, in either case.
pub open spec fn is_infinity(body: Seq<char>) -> bool {
    &&& body.len() == 3 || body.len() == 8
    &&& body[0] == 'i' || body[0] == 'I'
    &&& body[1] == 'n' || body[1] == 'N'
    &&& body[2] == 'f' || body[2] == 'F'
    &&& body.len() == 8 ==> {
        &&& body[3] == 'i' || body[3] == 'I'
        &&& body[4] == 'n' || body[4] == 'N'
        &&& body[5] == 'i' || body[5] == 'I'
        &&& body[6] == 't' || body[6] == 'T'
        &&& body[7] == 'y' || body[7] == 'Y'
    }
}

/// The exact worth in units of the unsigned number `body`, without what is
/// finer than a unit.
pub open spec fn magnitude(body: Seq<char>) -> int {
    digits_units(
        whole_part(body) + fraction_part(body),
        17 + whole_part(body).len() + exponent(body).unwrap(),
    )
}

/// The largest count of units that a `Decimal` holds.
pub open spec fn capacity() -> int {
    i128::MAX as int
}

/// The units that the unsigned number `body` is read as: its worth, but the
/// capacity where it is beyond it, and one unit where it is not zero and
/// less than a unit.
pub open spec fn held_units(body: Seq<char>) -> int {
    if is_infinity(body) || magnitude(body) > capacity() {
        capacity()
    } else if magnitude(body) == 0 && !all_zero(whole_part(body) + fraction_part(body)) {
        1
    } else {
        magnitude(body)
    }
}

/// The number that `s` writes: an optional sign, then a decimal number or
/// `inf`. `None` where `s` is neither.
pub open spec fn decimal_of(s: Seq<char>) -> Option<Decimal> {
    let body = unsigned_part(s);
    if is_infinity(body) || is_number(body) {
        if s[0] == '-' {
            Some(Decimal { units: (-held_units(body)) as i128 })
        } else {
            Some(Decimal { units: held_units(body) as i128 })
        }
    } else {
        None
    }
}

/// A place is worth nothing negative.
pub proof fn lemma_place_units_nonnegative(k: int)
    ensures
        0 <= place_units(k),
    decreases k,
{
    if k > 0 {
        lemma_place_units_nonnegative(k - 1);
    }
}

/// A higher place is worth no less.
pub proof fn lemma_place_units_monotone(a: int, b: int)
    requires
        a <= b,
    ensures
        0 <= place_units(a) <= place_units(b),
    decreases b - a,
{
    lemma_place_units_nonnegative(a);
    if a < b {
        lemma_place_units_monotone(a, b - 1);
    }
}

/// The worth of the places up to 39, of which the last is beyond the capacity.
pub proof fn lemma_place_units_table()
    ensures
        place_units(18) == SCALE,
        place_units(38) == 100000000000000000000000000000000000000,
        place_units(38) <= capacity(),
        place_units(39) > capacity(),
{
    assert(place_units(0) == 1);
    assert(place_units(1) == 10);
    assert(place_units(2) == 100);
    assert(place_units(3) == 1000);
    assert(place_units(4) == 10000);
    assert(place_units(5) == 100000);
    assert(place_units(6) == 1000000);
    assert(place_units(7) == 10000000);
    assert(place_units(8) == 100000000);
    assert(place_units(9) == 1000000000);
    assert(place_units(10) == 10000000000);
    assert(place_units(11) == 100000000000);
    assert(place_units(12) == 1000000000000);
    assert(place_units(13) == 10000000000000);
    assert(place_units(14) == 100000000000000);
    assert(place_units(15) == 1000000000000000);
    assert(place_units(16) == 10000000000000000);
    assert(place_units(17) == 100000000000000000);
    assert(place_units(18) == 1000000000000000000);
    assert(place_units(19) == 10000000000000000000);
    assert(place_units(20) == 100000000000000000000);
    assert(place_units(21) == 1000000000000000000000);
    assert(place_units(22) == 10000000000000000000000);
    assert(place_units(23) == 100000000000000000000000);
    assert(place_units(24) == 1000000000000000000000000);
    assert(place_units(25) == 10000000000000000000000000);
    assert(place_units(26) == 100000000000000000000000000);
    assert(place_units(27) == 1000000000000000000000000000);
    assert(place_units(28) == 10000000000000000000000000000);
    assert(place_units(29) == 100000000000000000000000000000);
    assert(place_units(30) == 1000000000000000000000000000000);
    assert(place_units(31) == 10000000000000000000000000000000);
    assert(place_units(32) == 100000000000000000000000000000000);
    assert(place_units(33) == 1000000000000000000000000000000000);
    assert(place_units(34) == 10000000000000000000000000000000000);
    assert(place_units(35) == 100000000000000000000000000000000000);
    assert(place_units(36) == 1000000000000000000000000000000000000);
    assert(place_units(37) == 10000000000000000000000000000000000000);
    assert(place_units(38) == 100000000000000000000000000000000000000);
    assert(place_units(39) == 1000000000000000000000000000000000000000);
}

/// Digits are worth nothing negative.
pub proof fn lemma_digits_units_nonnegative(s: Seq<char>, top: int)
    ensures
        0 <= digits_units(s, top),
    decreases s.len(),
{
    if s.len() > 0 {
        lemma_digits_units_nonnegative(s.drop_last(), top);
        let d = digit_value(s.last());
        let w = place_units(top - (s.len() - 1));
        lemma_place_units_nonnegative(top - (s.len() - 1));
        assert(0 <= d * w) by (nonlinear_arith)
            requires
                0 <= d,
                0 <= w,
        ;
    }
}

/// Digits written one after the other are worth the sum of both runs, the
/// second starting at the place below the last of the first.
pub proof fn lemma_digits_units_split(a: Seq<char>, b: Seq<char>, top: int)
    ensures
        digits_units(a + b, top) == digits_units(a, top) + digits_units(b, top - a.len()),
    decreases b.len(),
{
    if b.len() == 0 {
        assert(a + b =~= a);
    } else {
        lemma_digits_units_split(a, b.drop_last(), top);
        assert((a + b).drop_last() =~= a + b.drop_last());
        assert((a + b).last() == b.last());
    }
}

/// Where `s` holds no digit but `0`, neither does it without its last, and
/// the other way round where the last is a `0`.
pub proof fn lemma_all_zero_step(s: Seq<char>)
    requires
        s.len() > 0,
    ensures
        all_zero(s) <==> all_zero(s.drop_last()) && digit_value(s.last()) == 0,
{
    let t = s.drop_last();
    if all_zero(s) {
        assert forall|i: int| 0 <= i < t.len() implies digit_value(#[trigger] t[i]) == 0 by {
            assert(t[i] == s[i]);
        }
        assert(s.last() == s[s.len() - 1]);
    }
    if all_zero(t) && digit_value(s.last()) == 0 {
        assert forall|i: int| 0 <= i < s.len() implies digit_value(#[trigger] s[i]) == 0 by {
            if i < t.len() {
                assert(s[i] == t[i]);
            }
        }
    }
}

/// Digits that all stand below place 0 are worth nothing.
pub proof fn lemma_digits_units_low(s: Seq<char>, top: int)
    requires
        top < 0,
    ensures
        digits_units(s, top) == 0,
    decreases s.len(),
{
    if s.len() > 0 {
        lemma_digits_units_low(s.drop_last(), top);
    }
}

/// Digits that all stand at place 39 or above are worth nothing where they
/// are all `0`, and more than the capacity otherwise.
pub proof fn lemma_digits_units_high(s: Seq<char>, top: int)
    requires
        top - s.len() + 1 >= 39,
    ensures
        all_zero(s) ==> digits_units(s, top) == 0,
        !all_zero(s) ==> digits_units(s, top) > capacity(),
    decreases s.len(),
{
    if s.len() > 0 {
        let t = s.drop_last();
        lemma_digits_units_high(t, top);
        lemma_all_zero_step(s);
        lemma_digits_units_nonnegative(t, top);
        let d = digit_value(s.last());
        let w = place_units(top - (s.len() - 1));
        lemma_place_units_monotone(39, top - (s.len() - 1));
        lemma_place_units_table();
        assert(d != 0 ==> d * w >= w) by (nonlinear_arith)
            requires
                0 <= d,
                0 <= w,
        ;
        assert(0 <= d * w) by (nonlinear_arith)
            requires
                0 <= d,
                0 <= w,
        ;
    }
}

/// Digits that are all `0` are worth nothing.
pub proof fn lemma_digits_units_zero(s: Seq<char>, top: int)
    requires
        all_zero(s),
    ensures
        digits_units(s, top) == 0,
    decreases s.len(),
{
    if s.len() > 0 {
        lemma_all_zero_step(s);
        lemma_digits_units_zero(s.drop_last(), top);
    }
}

/// Reading keeps the sign of a number: only a number whose digits are all
/// `0` is read as zero, every other one as below zero where it is written
/// with `-` and as above zero where it is not.
pub proof fn lemma_sign_kept(s: Seq<char>)
    ensures
        decimal_of(s) matches Some(d) ==> {
            let body = unsigned_part(s);
            let zero = !is_infinity(body) && all_zero(whole_part(body) + fraction_part(body));
            &&& zero ==> d.units == 0
            &&& !zero && s[0] == '-' ==> d.units < 0
            &&& !zero && s[0] != '-' ==> d.units > 0
        },
{
    let body = unsigned_part(s);
    let digits = whole_part(body) + fraction_part(body);
    if is_number(body) {
        let top = 17 + whole_part(body).len() + exponent(body).unwrap();
        lemma_digits_units_nonnegative(digits, top);
        if all_zero(digits) {
            lemma_digits_units_zero(digits, top);
        }
    }
}

/// Ten to the power `k`.
fn pow10(k: u32) -> (r: i128)
    requires
        k <= 38,
    ensures
        r == place_units(k as int),
        1 <= r,
{
    let mut r: i128 = 1;
    let mut j: u32 = 0;
    while j < k
        invariant
            j <= k <= 38,
            r == place_units(j as int),
            1 <= r,
        decreases k - j,
    {
        proof {
            lemma_place_units_monotone(j + 1, 38);
            lemma_place_units_table();
        }
        r = r * 10;
        j += 1;
    }
    r
}

/// Whether the slice holds digits only.
fn only_digits(digits: &[char]) -> (b: bool)
    ensures
        b == all_digits(digits@),
{
    let mut i: usize = 0;
    while i < digits.len()
        invariant
            i <= digits.len(),
            forall|k: int| 0 <= k < i ==> is_digit(#[trigger] digits@[k]),
        decreases digits.len() - i,
    {
        let code: u32 = digits[i] as u32;
        if code < 0x30 || code > 0x39 {
            proof {
                assert(!is_digit(digits@[i as int]));
            }
            return false;
        }
        i += 1;
    }
    true
}

/// Whether the slice holds no digit but `0`.
fn only_zeros(digits: &[char]) -> (b: bool)
    ensures
        b == all_zero(digits@),
{
    let mut i: usize = 0;
    while i < digits.len()
        invariant
            i <= digits.len(),
            forall|k: int| 0 <= k < i ==> digit_value(#[trigger] digits@[k]) == 0,
        decreases digits.len() - i,
    {
        let code: u32 = digits[i] as u32;
        if 0x31 <= code && code <= 0x39 {
            proof {
                assert(digit_value(digits@[i as int]) != 0);
            }
            return false;
        }
        i += 1;
    }
    true
}

/// What the digits are worth, the first at place `top`, or the capacity
/// where they are worth more.
fn read_units(digits: &[char], top: i128) -> (r: i128)
    requires
        all_digits(digits@),
        -0x1_0000_0000_0000_0000_0000 <= top <= 0x1_0000_0000_0000_0000_0000,
    ensures
        r == smaller(digits_units(digits@, top as int), capacity()),
        0 <= r,
{
    let mut sum: i128 = 0;
    let mut i: usize = 0;
    proof {
        assert(digits@.take(0) =~= Seq::<char>::empty());
    }
    while i < digits.len()
        invariant
            i <= digits.len(),
            all_digits(digits@),
            -0x1_0000_0000_0000_0000_0000 <= top <= 0x1_0000_0000_0000_0000_0000,
            sum == smaller(digits_units(digits@.take(i as int), top as int), capacity()),
            0 <= digits_units(digits@.take(i as int), top as int),
        decreases digits.len() - i,
    {
        let code: u32 = digits[i] as u32;
        proof {
            assert(is_digit(digits@[i as int]));
        }
        let digit: i128 = (code - 0x30) as i128;
        let place: i128 = top - i as i128;
        proof {
            let before = digits@.take(i as int);
            let after = digits@.take(i + 1);
            assert(after.drop_last() =~= before);
            assert(after.last() == digits@[i as int]);
            assert(digits_units(after, top as int) == digits_units(before, top as int) + digit * place_units(
                place as int,
            ));
            lemma_place_units_nonnegative(place as int);
            assert(0 <= digit * place_units(place as int)) by (nonlinear_arith)
                requires
                    0 <= digit,
                    0 <= place_units(place as int),
            ;
            assert(digit == 0 ==> digit * place_units(place as int) == 0) by (nonlinear_arith);
            if place > 38 {
                lemma_place_units_monotone(39, place as int);
                lemma_place_units_table();
                assert(digit != 0 ==> digit * place_units(place as int) >= place_units(
                    place as int,
                )) by (nonlinear_arith)
                    requires
                        0 <= digit,
                        0 <= place_units(place as int),
                ;
            }
        }
        if digit != 0 && place >= 0 {
            if place > 38 {
                sum = i128::MAX;
            } else {
                let weight = pow10(place as u32);
                sum = match digit.checked_mul(weight) {
                    None => i128::MAX,
                    Some(worth) => match sum.checked_add(worth) {
                        None => i128::MAX,
                        Some(next) => next,
                    },
                };
            }
        }
        i += 1;
    }
    proof {
        assert(digits@.take(digits@.len() as int) =~= digits@);
    }
    sum
}

/// Tests the unsigned part of a number for `inf` and `infinity`.
fn is_infinity_word(body: &[char]) -> (b: bool)
    ensures
        b == is_infinity(body@),
{
    if body.len() != 3 && body.len() != 8 {
        return false;
    }
    let short = (body[0] == 'i' || body[0] == 'I') && (body[1] == 'n' || body[1] == 'N') && (body[2]
        == 'f' || body[2] == 'F');
    if body.len() == 3 {
        short
    } else {
        short && (body[3] == 'i' || body[3] == 'I') && (body[4] == 'n' || body[4] == 'N') && (
        body[5] == 'i' || body[5] == 'I') && (body[6] == 't' || body[6] == 'T') && (body[7] == 'y'
            || body[7] == 'Y')
    }
}

/// The power of ten that the text after an exponent mark writes, held
/// within `-LIMIT..=LIMIT` for a `LIMIT` beyond every length; `None` where
/// the text is no power of ten.
fn read_exponent(text: &[char]) -> (r: Option<i128>)
    ensures
        r is Some <==> exponent_of(text@) is Some,
        r matches Some(e) ==> {
            let written = exponent_of(text@).unwrap();
            &&& -0x1000_0000_0000_0000_0000 <= e <= 0x1000_0000_0000_0000_0000
            &&& -0x1000_0000_0000_0000_0000 < written < 0x1000_0000_0000_0000_0000 ==> e == written
            &&& written >= 0x1000_0000_0000_0000_0000 ==> e == 0x1000_0000_0000_0000_0000
            &&& written <= -0x1000_0000_0000_0000_0000 ==> e == -0x1000_0000_0000_0000_0000
        },
{
    let signed = text.len() > 0 && (text[0] == '+' || text[0] == '-');
    let negative = signed && text[0] == '-';
    let digits = if signed {
        slice_subrange(text, 1, text.len())
    } else {
        text
    };
    proof {
        assert(digits@ =~= unsigned_part(text@));
    }
    if digits.len() == 0 || !only_digits(digits) {
        return None;
    }
    let size = read_units(digits, (digits.len() - 1) as i128);
    let bounded: i128 = if size > 0x1000_0000_0000_0000_0000 {
        0x1000_0000_0000_0000_0000
    } else {
        size
    };
    if negative {
        Some(-bounded)
    } else {
        Some(bounded)
    }
}

/// The units that an unsigned decimal number is read as; `None` where the
/// characters are no such number.
fn read_number(body: &[char]) -> (r: Option<i128>)
    ensures
        r is Some <==> is_number(body@),
        r matches Some(units) ==> units == held_units(body@) && 0 <= units,
        !is_infinity(body@) || r is None,
{
    proof {
        lemma_first_index_bounds(body@, 'e');
        lemma_first_index_bounds(body@, 'E');
    }
    let lower_mark = find_char(body, 'e');
    let upper_mark = find_char(body, 'E');
    let mark = if lower_mark <= upper_mark {
        lower_mark
    } else {
        upper_mark
    };
    let head = slice_subrange(body, 0, mark);
    proof {
        assert(head@ =~= mantissa(body@));
        lemma_first_index_bounds(head@, '.');
    }
    let point = find_char(head, '.');
    let whole = slice_subrange(head, 0, point);
    let fraction = if point < head.len() {
        slice_subrange(head, point + 1, head.len())
    } else {
        slice_subrange(head, 0, 0)
    };
    proof {
        assert(whole@ =~= whole_part(body@));
        assert(fraction@ =~= fraction_part(body@));
        if is_infinity(body@) {
            assert(!is_digit(body@[0]));
            if whole@.len() > 0 {
                assert(whole@[0] == body@[0]);
            } else if fraction@.len() > 0 {
                assert(head@[0] == body@[0]);
            }
        }
    }
    if whole.len() == 0 && fraction.len() == 0 {
        return None;
    }
    if !only_digits(whole) || !only_digits(fraction) {
        return None;
    }
    let power: i128 = if mark < body.len() {
        let text = slice_subrange(body, mark + 1, body.len());
        proof {
            assert(text@ =~= body@.skip(mark + 1));
        }
        match read_exponent(text) {
            None => {
                return None;
            },
            Some(power) => power,
        }
    } else {
        0
    };
    let ghost written = exponent(body@).unwrap();
    let ghost digits = whole@ + fraction@;
    let ghost top = 17 + whole@.len() + written;
    let zero = only_zeros(whole) && only_zeros(fraction);
    proof {
        assert(zero == all_zero(digits)) by {
            if all_zero(digits) {
                assert forall|i: int| 0 <= i < whole@.len() implies digit_value(
                    #[trigger] whole@[i],
                ) == 0 by {
                    assert(digits[i] == whole@[i]);
                }
                assert forall|i: int| 0 <= i < fraction@.len() implies digit_value(
                    #[trigger] fraction@[i],
                ) == 0 by {
                    assert(digits[whole@.len() + i] == fraction@[i]);
                }
            }
            if all_zero(whole@) && all_zero(fraction@) {
                assert forall|i: int| 0 <= i < digits.len() implies digit_value(
                    #[trigger] digits[i],
                ) == 0 by {
                    if i < whole@.len() {
                        assert(digits[i] == whole@[i]);
                    } else {
                        assert(digits[i] == fraction@[i - whole@.len()]);
                    }
                }
            }
        }
        lemma_digits_units_nonnegative(digits, top);
    }
    if power >= 0x1000_0000_0000_0000_0000 {
        proof {
            lemma_digits_units_high(digits, top);
        }
        return Some(
            if zero {
                0
            } else {
                i128::MAX
            },
        );
    }
    if power <= -0x1000_0000_0000_0000_0000 {
        proof {
            lemma_digits_units_low(digits, top);
        }
        return Some(
            if zero {
                0
            } else {
                1
            },
        );
    }
    let first: i128 = 17 + whole.len() as i128 + power;
    let high = read_units(whole, first);
    let low = read_units(fraction, first - whole.len() as i128);
    proof {
        lemma_digits_units_split(whole@, fraction@, top);
        lemma_digits_units_nonnegative(whole@, top);
        lemma_digits_units_nonnegative(fraction@, top - whole@.len());
    }
    let sum = match high.checked_add(low) {
        None => i128::MAX,
        Some(sum) => sum,
    };
    if sum == 0 && !zero {
        Some(1)
    } else {
        Some(sum)
    }
}

impl Decimal {
    /// The number zero.
    pub fn zero() -> (d: Decimal)
        ensures
            d.units == 0,
    {
        Decimal { units: 0 }
    }

    /// The number one.
    pub fn one() -> (d: Decimal)
        ensures
            d.units == SCALE,
    {
        Decimal { units: SCALE }
    }

    /// The whole number `n`.
    pub fn from_integer(n: u64) -> (d: Decimal)
        ensures
            d.units == n * SCALE,
    {
        Decimal { units: (n as i128) * SCALE }
    }

    /// The number of `units / SCALE`.
    pub fn from_units(units: i128) -> (d: Decimal)
        ensures
            d.units == units,
    {
        Decimal { units }
    }

    /// The count of units of `1 / SCALE` that make up the number.
    pub fn units(self) -> (units: i128)
        ensures
            units == self.units,
    {
        self.units
    }

    /// Whether the number is above zero.
    pub open spec fn spec_is_positive(self) -> bool {
        self.units > 0
    }

    /// Whether the number lies between zero and one, both included.
    pub open spec fn spec_is_fraction(self) -> bool {
        0 <= self.units <= SCALE
    }

    /// The given percentage of `base`, rounded to the nearest whole number,
    /// a half rounded up; 0 for a percentage that is not above zero.
    pub open spec fn percent_of(self, base: int) -> int {
        if self.units <= 0 {
            0
        } else {
            (2 * (base * self.units) + 100 * SCALE) / (2 * (100 * SCALE))
        }
    }

    /// Whether the number is above zero.
    #[verifier::when_used_as_spec(spec_is_positive)]
    pub fn is_positive(self) -> (b: bool)
        ensures
            b == self.spec_is_positive(),
    {
        self.units > 0
    }

    /// Whether the number lies between zero and one, both included.
    #[verifier::when_used_as_spec(spec_is_fraction)]
    pub fn is_fraction(self) -> (b: bool)
        ensures
            b == self.spec_is_fraction(),
    {
        0 <= self.units && self.units <= SCALE
    }

    /// This percentage of `base`, rounded, where it fits 32 bits; `None`
    /// where it is larger.
    pub fn percent_of_base(self, base: u64) -> (r: Option<u32>)
        ensures
            self.percent_of(base as int) <= u32::MAX ==> r == Some(self.percent_of(base as int) as u32),
            self.percent_of(base as int) > u32::MAX ==> r is None,
            0 <= self.percent_of(base as int),
    {
        if self.units <= 0 {
            return Some(0);
        }
        let ghost product = base as int * self.units as int;
        assert(product >= 0) by (nonlinear_arith)
            requires
                product == base as int * self.units as int,
                base >= 0,
                self.units > 0,
        ;
        let hundred: i128 = 100 * SCALE;
        match (base as i128).checked_mul(self.units) {
            None => None,
            Some(p) => match p.checked_mul(2) {
                None => None,
                Some(twice) => match twice.checked_add(hundred) {
                    None => None,
                    Some(sum) => {
                        let q: i128 = sum / (2 * hundred);
                        if q > u32::MAX as i128 {
                            None
                        } else {
                            Some(q as u32)
                        }
                    },
                },
            },
        }
    }

    /// Reads a number from the characters of its notation.
    pub fn parse_chars(chars: &[char]) -> (d: Option<Decimal>)
        ensures
            d == decimal_of(chars@),
    {
        let signed = chars.len() > 0 && (chars[0] == '+' || chars[0] == '-');
        let negative = signed && chars[0] == '-';
        let body = if signed {
            slice_subrange(chars, 1, chars.len())
        } else {
            chars
        };
        proof {
            assert(body@ =~= unsigned_part(chars@));
        }
        let units = if is_infinity_word(body) {
            i128::MAX
        } else {
            match read_number(body) {
                None => {
                    return None;
                },
                Some(units) => units,
            }
        };
        if negative {
            Some(Decimal { units: -units })
        } else {
            Some(Decimal { units })
        }
    }

    /// Reads a number such as `0.5`, `33`, `-1.25`, `.75` or `5e-1`: an
    /// optional sign, then digits with an optional point among them and an
    /// optional exponent, or `inf`.
    pub fn parse(s: &str) -> (d: Option<Decimal>)
        ensures
            d == decimal_of(s@),
    {
        let chars = str_chars(s);
        Decimal::parse_chars(chars.as_slice())
    }
}

} // verus!
