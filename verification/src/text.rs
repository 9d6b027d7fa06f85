//! The written form of samples: lines of text, each a decimal number.

use vstd::prelude::*;
use crate::decimal::Decimal;
use crate::decimal::MANTISSA_LIMIT;
use crate::decimal::MAX_SCALE;
use crate::decimal::lemma_pow10_eighteen;
use crate::decimal::lemma_pow10_monotonic;
use crate::decimal::pow10;
use crate::decimal::power_of_ten;

verus! {

/// The byte of `+`.
pub const PLUS: u8 = 43;

/// The byte of `-`.
pub const MINUS: u8 = 45;

/// The byte of `.`.
pub const DOT: u8 = 46;

/// The byte of the digit `0`.
pub const ZERO: u8 = 48;

/// The byte of the digit `9`.
pub const NINE: u8 = 57;

/// The byte of `E`.
pub const UPPER_E: u8 = 69;

/// The byte of `e`.
pub const LOWER_E: u8 = 101;

/// The byte that ends a line.
pub const LINE_FEED: u8 = 10;

/// The byte that may stand before a line feed as part of the line ending.
pub const CARRIAGE_RETURN: u8 = 13;

/// Index of the first occurrence of `b` in `s`, or the length of `s` if there is none.
pub open spec fn find_byte(s: Seq<u8>, b: u8) -> int
    decreases s.len(),
{
    if s.len() == 0 || s[0] == b {
        0
    } else {
        1 + find_byte(s.drop_first(), b)
    }
}

/// `find_byte` stops at the first occurrence and nowhere before it.
pub proof fn lemma_find_byte(s: Seq<u8>, b: u8)
    ensures
        0 <= find_byte(s, b) <= s.len(),
        forall|i: int| 0 <= i < find_byte(s, b) ==> s[i] != b,
        find_byte(s, b) < s.len() ==> s[find_byte(s, b)] == b,
    decreases s.len(),
{
    if s.len() == 0 || s[0] == b {
    } else {
        let rest = s.drop_first();
        lemma_find_byte(rest, b);
        assert forall|i: int| 0 <= i < find_byte(s, b) implies s[i] != b by {
            if i > 0 {
                assert(s[i] == rest[i - 1]);
            }
        }
        if find_byte(s, b) < s.len() {
            assert(s[find_byte(s, b)] == rest[find_byte(rest, b)]);
        }
    }
}

/// A position that no occurrence of `b` precedes, and that holds `b` or is
/// the end, is the one that `find_byte` gives.
pub proof fn lemma_find_byte_is(s: Seq<u8>, b: u8, at: int)
    requires
        0 <= at <= s.len(),
        forall|i: int| 0 <= i < at ==> s[i] != b,
        at < s.len() ==> s[at] == b,
    ensures
        find_byte(s, b) == at,
{
    lemma_find_byte(s, b);
    let found = find_byte(s, b);
    if found < at {
        assert(s[found] == b);
    } else if found > at {
        assert(s[at] != b);
    }
}

/// An ASCII decimal digit.
pub open spec fn is_digit(b: u8) -> bool {
    ZERO <= b <= NINE
}

/// Every byte of `s` is a decimal digit.
pub open spec fn all_digits(s: Seq<u8>) -> bool {
    forall|i: int| 0 <= i < s.len() ==> is_digit(#[trigger] s[i])
}

/// The number that the digits of `s` write, most significant first.
pub open spec fn digits_value(s: Seq<u8>) -> nat
    decreases s.len(),
{
    if s.len() == 0 {
        0
    } else {
        digits_value(s.drop_last()) * 10 + (s.last() - ZERO) as nat
    }
}

/// Digits written after a number never make it smaller.
pub proof fn lemma_digits_value_prefix(p: Seq<u8>, q: Seq<u8>)
    requires
        all_digits(q),
    ensures
        digits_value(p) <= digits_value(p + q),
    decreases q.len(),
{
    if q.len() == 0 {
        assert(p + q =~= p);
    } else {
        assert((p + q).drop_last() =~= p + q.drop_last());
        assert((p + q).last() == q.last());
        assert(is_digit(q[q.len() - 1]));
        lemma_digits_value_prefix(p, q.drop_last());
    }
}

/// Number of bytes that the sign takes: one for a leading `+` or `-`, else none.
pub open spec fn sign_len(s: Seq<u8>) -> int {
    if s.len() > 0 && (s[0] == PLUS || s[0] == MINUS) {
        1
    } else {
        0
    }
}

/// The text starts with a minus sign.
pub open spec fn is_negative(s: Seq<u8>) -> bool {
    s.len() > 0 && s[0] == MINUS
}

/// The text without its sign.
pub open spec fn unsigned_part(s: Seq<u8>) -> Seq<u8> {
    s.skip(sign_len(s))
}

/// The letter that opens an exponent, in either case.
pub open spec fn is_marker(b: u8) -> bool {
    b == LOWER_E || b == UPPER_E
}

/// Index of the first exponent marker in `s`, or the length of `s` if there is none.
pub open spec fn find_marker(s: Seq<u8>) -> int
    decreases s.len(),
{
    if s.len() == 0 || is_marker(s[0]) {
        0
    } else {
        1 + find_marker(s.drop_first())
    }
}

/// `find_marker` stops at the first marker and nowhere before it.
pub proof fn lemma_find_marker(s: Seq<u8>)
    ensures
        0 <= find_marker(s) <= s.len(),
        forall|i: int| 0 <= i < find_marker(s) ==> !is_marker(s[i]),
        find_marker(s) < s.len() ==> is_marker(s[find_marker(s)]),
    decreases s.len(),
{
    if s.len() == 0 || is_marker(s[0]) {
    } else {
        let rest = s.drop_first();
        lemma_find_marker(rest);
        assert forall|i: int| 0 <= i < find_marker(s) implies !is_marker(s[i]) by {
            if i > 0 {
                assert(s[i] == rest[i - 1]);
            }
        }
        if find_marker(s) < s.len() {
            assert(s[find_marker(s)] == rest[find_marker(rest)]);
        }
    }
}

/// A position that no marker precedes, and that holds one or is the end, is
/// the one that `find_marker` gives.
pub proof fn lemma_find_marker_is(s: Seq<u8>, at: int)
    requires
        0 <= at <= s.len(),
        forall|i: int| 0 <= i < at ==> !is_marker(s[i]),
        at < s.len() ==> is_marker(s[at]),
    ensures
        find_marker(s) == at,
{
    lemma_find_marker(s);
    let found = find_marker(s);
    if found < at {
        assert(is_marker(s[found]));
    } else if found > at {
        assert(!is_marker(s[at]));
    }
}

/// The significand of the text: what stands between the sign and the exponent marker.
pub open spec fn significand(s: Seq<u8>) -> Seq<u8> {
    unsigned_part(s).take(find_marker(unsigned_part(s)))
}

/// The exponent of the text: what follows the exponent marker, if there is one.
pub open spec fn exponent_text(s: Seq<u8>) -> Option<Seq<u8>> {
    let body = unsigned_part(s);
    let mark = find_marker(body);
    if mark < body.len() {
        Some(body.skip(mark + 1))
    } else {
        None
    }
}

/// What stands before the first dot of a significand.
pub open spec fn integer_part(t: Seq<u8>) -> Seq<u8> {
    t.take(find_byte(t, DOT))
}

/// What stands after the first dot of a significand; empty without a dot.
pub open spec fn fraction_part(t: Seq<u8>) -> Seq<u8> {
    let dot = find_byte(t, DOT);
    if dot < t.len() {
        t.skip(dot + 1)
    } else {
        Seq::empty()
    }
}

/// All digits of a significand, the dot left out.
pub open spec fn written_digits(t: Seq<u8>) -> Seq<u8> {
    integer_part(t) + fraction_part(t)
}

/// A significand: digits with at most one dot among them, and at least one digit.
pub open spec fn is_significand(t: Seq<u8>) -> bool {
    written_digits(t).len() > 0 && all_digits(written_digits(t))
}

/// An exponent: an optional sign and at least one digit.
pub open spec fn is_exponent(x: Seq<u8>) -> bool {
    unsigned_part(x).len() > 0 && all_digits(unsigned_part(x))
}

/// The power of ten that the text asks its significand to be taken by; zero without an exponent.
pub open spec fn written_exponent(s: Seq<u8>) -> int {
    match exponent_text(s) {
        Some(x) => if is_negative(x) {
            -(digits_value(unsigned_part(x)) as int)
        } else {
            digits_value(unsigned_part(x)) as int
        },
        None => 0,
    }
}

/// The text writes a number: an optional sign, a significand, and
/// optionally an exponent marker with an exponent.
pub open spec fn is_number_text(s: Seq<u8>) -> bool {
    &&& is_significand(significand(s))
    &&& match exponent_text(s) {
        Some(x) => is_exponent(x),
        None => true,
    }
}

/// The power of ten by which the digits of the significand, read as a
/// whole number, give the magnitude of the number.
pub open spec fn digits_power(s: Seq<u8>) -> int {
    written_exponent(s) - fraction_part(significand(s)).len()
}

/// The magnitude of the mantissa and the scale that hold the number, if a
/// [`Decimal`] can hold it: a mantissa below ten to the power eighteen, and
/// a scale of at most eighteen.
pub open spec fn magnitude_and_scale(digits: nat, power: int) -> Option<(nat, nat)> {
    if power >= 0 {
        if digits * pow10(power as nat) < MANTISSA_LIMIT {
            Some((digits * pow10(power as nat), 0nat))
        } else {
            None
        }
    } else {
        if digits < MANTISSA_LIMIT && -power <= MAX_SCALE {
            Some((digits, (-power) as nat))
        } else {
            None
        }
    }
}

/// The text is a decimal number within the limits of [`Decimal`].
pub open spec fn is_decimal_text(s: Seq<u8>) -> bool {
    &&& is_number_text(s)
    &&& magnitude_and_scale(
        digits_value(written_digits(significand(s))),
        digits_power(s),
    ) is Some
}

/// The number that a text writes, if it is one.
pub open spec fn decimal_of_text(s: Seq<u8>) -> Option<Decimal> {
    if is_decimal_text(s) {
        let (magnitude, scale) = magnitude_and_scale(
            digits_value(written_digits(significand(s))),
            digits_power(s),
        ).unwrap();
        Some(
            Decimal {
                mantissa: (if is_negative(s) {
                    -(magnitude as int)
                } else {
                    magnitude as int
                }) as i64,
                scale: scale as u8,
            },
        )
    } else {
        None
    }
}

/// A significand with a digit string of ten to the power eighteen or more
/// among its leading digits is no significand, or writes at least as much.
proof fn lemma_too_large(t: Seq<u8>, prefix: Seq<u8>, rest: Seq<u8>)
    requires
        written_digits(t) == prefix + rest,
        digits_value(prefix) >= MANTISSA_LIMIT,
    ensures
        !is_significand(t) || digits_value(written_digits(t)) >= MANTISSA_LIMIT,
{
    if all_digits(written_digits(t)) {
        assert forall|i: int| 0 <= i < rest.len() implies is_digit(#[trigger] rest[i]) by {
            assert(rest[i] == written_digits(t)[prefix.len() + i]);
        }
        lemma_digits_value_prefix(prefix, rest);
    }
}

/// Reads the significand that the bytes from `from` up to `to` write: the
/// value of its digits, and how many of them stand after the dot.
fn scan_significand(bytes: &[u8], from: usize, to: usize) -> (r: Option<(u64, usize)>)
    requires
        from <= to <= bytes.len(),
    ensures
        match r {
            Some((value, places)) => {
                &&& is_significand(bytes@.subrange(from as int, to as int))
                &&& value == digits_value(written_digits(bytes@.subrange(from as int, to as int)))
                &&& value < MANTISSA_LIMIT
                &&& places == fraction_part(bytes@.subrange(from as int, to as int)).len()
            },
            None => {
                ||| !is_significand(bytes@.subrange(from as int, to as int))
                ||| digits_value(written_digits(bytes@.subrange(from as int, to as int)))
                    >= MANTISSA_LIMIT
            },
        },
{
    let ghost body = bytes@.subrange(from as int, to as int);
    let ghost dot = find_byte(body, DOT);
    let start = from;
    let mut i: usize = from;
    proof {
        lemma_find_byte(body, DOT);
    }
    let mut acc: u64 = 0;
    while i < to && ZERO <= bytes[i] && bytes[i] <= NINE
        invariant
            from <= to,
            start == from,
            body == bytes@.subrange(from as int, to as int),
            start <= i <= to <= bytes.len(),
            dot == find_byte(body, DOT),
            all_digits(body.take(i - start)),
            acc == digits_value(body.take(i - start)),
            0 <= acc < MANTISSA_LIMIT,
        decreases to - i,
    {
        let ghost before = body.take(i - start);
        let ghost now = body.take(i + 1 - start);
        proof {
            lemma_find_byte(body, DOT);
            assert(now.drop_last() =~= before);
            assert(now.last() == bytes[i as int]);
            assert forall|j: int| 0 <= j < now.len() implies is_digit(#[trigger] now[j]) by {
                if j < before.len() {
                    assert(now[j] == before[j]);
                }
            }
            // no dot stands among the digits read so far
            assert(dot > i - start) by {
                if dot <= i - start {
                    assert(body[dot] == DOT);
                    assert(now[dot] == body[dot]);
                }
            }
        }
        if acc >= (MANTISSA_LIMIT as u64) / 10 {
            proof {
                assert(written_digits(body) =~= now + (body.subrange(i + 1 - start, dot)
                    + fraction_part(body)));
                lemma_too_large(body, now, body.subrange(i + 1 - start, dot) + fraction_part(body));
            }
            return None;
        }
        acc = acc * 10 + (bytes[i] - ZERO) as u64;
        i = i + 1;
    }
    let ghost whole = body.take(i - start);
    proof {
        lemma_find_byte(body, DOT);
    }
    if i == to {
        proof {
            assert(whole =~= body);
            assert(dot == body.len()) by {
                if dot < body.len() {
                    assert(body[dot] == DOT);
                    assert(whole[dot] == body[dot]);
                }
            }
            assert(written_digits(body) =~= body);
        }
        if i == start {
            return None;
        }
        return Some((acc, 0));
    }
    proof {
        assert(dot >= i - start) by {
            if dot < i - start {
                assert(body[dot] == DOT);
                assert(whole[dot] == body[dot]);
            }
        }
    }
    if bytes[i] != DOT {
        proof {
            assert(dot > i - start);
            assert(integer_part(body)[i - start] == bytes[i as int]);
            assert(written_digits(body)[i - start] == bytes[i as int]);
            assert(!is_digit(written_digits(body)[i - start]));
        }
        return None;
    }
    proof {
        lemma_find_byte_is(body, DOT, i - start);
        assert(integer_part(body) =~= whole);
        assert(fraction_part(body) =~= body.skip(dot + 1));
    }
    let ghost fraction = fraction_part(body);
    let fraction_start = i + 1;
    let mut places: usize = 0;
    i = i + 1;
    while i < to
        invariant
            from <= to,
            start == from,
            body == bytes@.subrange(from as int, to as int),
            dot == find_byte(body, DOT),
            fraction_start <= i <= to <= bytes.len(),
            fraction_start == start + dot + 1,
            0 <= dot < body.len(),
            whole == integer_part(body),
            fraction == fraction_part(body),
            fraction == body.skip(dot + 1),
            places == i - fraction_start,
            all_digits(whole + fraction.take(places as int)),
            acc == digits_value(whole + fraction.take(places as int)),
            0 <= acc < MANTISSA_LIMIT,
        decreases to - i,
    {
        let ghost before = whole + fraction.take(places as int);
        let ghost now = whole + fraction.take(places + 1);
        let c = bytes[i];
        proof {
            lemma_find_byte(body, DOT);
            assert(fraction[places as int] == c);
            assert(now.drop_last() =~= before);
            assert(now.last() == c);
            assert(written_digits(body) =~= now + fraction.skip(places + 1));
            assert(written_digits(body)[whole.len() + places] == c);
        }
        if !(ZERO <= c && c <= NINE) {
            return None;
        }
        proof {
            assert forall|j: int| 0 <= j < now.len() implies is_digit(#[trigger] now[j]) by {
                if j < before.len() {
                    assert(now[j] == before[j]);
                }
            }
        }
        if acc >= (MANTISSA_LIMIT as u64) / 10 {
            proof {
                lemma_too_large(body, now, fraction.skip(places + 1));
            }
            return None;
        }
        acc = acc * 10 + (c - ZERO) as u64;
        places = places + 1;
        i = i + 1;
    }
    proof {
        assert(fraction.take(places as int) =~= fraction);
    }
    if i - 1 == start {
        // a dot alone, with no digit on either side
        return None;
    }
    Some((acc, places))
}

/// Bound at which the reading of an exponent stops counting: no exponent
/// that large leaves a number within the limits, unless the number is zero.
pub const EXPONENT_CAP: u128 = 1_000_000_000_000_000_000_000_000_000_000;

/// Reads the exponent that the bytes from `from` up to `to` write: whether
/// it is negative, and its magnitude, counted up to [`EXPONENT_CAP`].
fn scan_exponent(bytes: &[u8], from: usize, to: usize) -> (r: Option<(bool, u128)>)
    requires
        from <= to <= bytes.len(),
    ensures
        match r {
            Some((negative, magnitude)) => {
                let x = bytes@.subrange(from as int, to as int);
                &&& is_exponent(x)
                &&& negative == is_negative(x)
                &&& magnitude == (if digits_value(unsigned_part(x)) < EXPONENT_CAP {
                    digits_value(unsigned_part(x))
                } else {
                    EXPONENT_CAP as nat
                })
            },
            None => !is_exponent(bytes@.subrange(from as int, to as int)),
        },
{
    let ghost x = bytes@.subrange(from as int, to as int);
    let mut negative = false;
    let mut i: usize = from;
    if from < to && (bytes[from] == PLUS || bytes[from] == MINUS) {
        negative = bytes[from] == MINUS;
        i = from + 1;
    }
    let start = i;
    let ghost digits = unsigned_part(x);
    proof {
        assert(x.len() == 0 || x[0] == bytes[from as int]);
        assert(digits =~= bytes@.subrange(start as int, to as int));
    }
    if start == to {
        return None;
    }
    let mut acc: u128 = 0;
    while i < to
        invariant
            from <= to,
            x == bytes@.subrange(from as int, to as int),
            digits == unsigned_part(x),
            start <= i <= to <= bytes.len(),
            digits == bytes@.subrange(start as int, to as int),
            all_digits(digits.take(i - start)),
            acc <= EXPONENT_CAP,
            acc == (if digits_value(digits.take(i - start)) < EXPONENT_CAP {
                digits_value(digits.take(i - start))
            } else {
                EXPONENT_CAP as nat
            }),
        decreases to - i,
    {
        let c = bytes[i];
        let ghost before = digits.take(i - start);
        let ghost now = digits.take(i + 1 - start);
        proof {
            assert(now.drop_last() =~= before);
            assert(now.last() == c);
            assert(digits[i - start] == c);
        }
        if !(ZERO <= c && c <= NINE) {
            return None;
        }
        proof {
            assert forall|j: int| 0 <= j < now.len() implies is_digit(#[trigger] now[j]) by {
                if j < before.len() {
                    assert(now[j] == before[j]);
                }
            }
        }
        acc = acc * 10 + (c - ZERO) as u128;
        if acc > EXPONENT_CAP {
            acc = EXPONENT_CAP;
        }
        i = i + 1;
    }
    proof {
        assert(digits.take(to - start) =~= digits);
    }
    Some((negative, acc))
}

/// A digit string that is not zero, taken by a power of ten of eighteen or
/// more, is beyond the mantissa limit.
proof fn lemma_shift_too_large(digits: nat, power: nat)
    requires
        digits >= 1,
        power >= 18,
    ensures
        digits * pow10(power) >= MANTISSA_LIMIT,
{
    lemma_pow10_monotonic(18, power);
    lemma_pow10_eighteen();
    assert(digits * pow10(power) >= pow10(power)) by (nonlinear_arith)
        requires
            digits >= 1,
    ;
}

/// Reads the decimal number that the bytes from `from` up to `to` write.
pub fn parse_decimal(bytes: &[u8], from: usize, to: usize) -> (r: Option<Decimal>)
    requires
        from <= to <= bytes.len(),
    ensures
        r == decimal_of_text(bytes@.subrange(from as int, to as int)),
        r is Some ==> r.unwrap().wf(),
{
    let ghost line = bytes@.subrange(from as int, to as int);
    let mut negative = false;
    let mut start: usize = from;
    if from < to && (bytes[from] == PLUS || bytes[from] == MINUS) {
        negative = bytes[from] == MINUS;
        start = from + 1;
    }
    let ghost body = unsigned_part(line);
    proof {
        assert(line.len() == 0 || line[0] == bytes[from as int]);
        assert(body =~= bytes@.subrange(start as int, to as int));
    }
    let mut mark: usize = start;
    while mark < to && bytes[mark] != LOWER_E && bytes[mark] != UPPER_E
        invariant
            start <= mark <= to <= bytes.len(),
            body == bytes@.subrange(start as int, to as int),
            forall|j: int| 0 <= j < mark - start ==> !is_marker(body[j]),
        decreases to - mark,
    {
        mark = mark + 1;
    }
    proof {
        lemma_find_marker_is(body, mark - start);
        assert(significand(line) =~= bytes@.subrange(start as int, mark as int));
        if mark < to {
            assert(exponent_text(line).unwrap() =~= bytes@.subrange(mark + 1, to as int));
        }
    }
    let (digits, places) = match scan_significand(bytes, start, mark) {
        Some(read) => read,
        None => {
            proof {
                let value = digits_value(written_digits(significand(line)));
                if is_significand(significand(line)) {
                    // too many digits for any power of ten to mend
                    if digits_power(line) >= 0 {
                        lemma_pow10_monotonic(0, digits_power(line) as nat);
                        assert(value * pow10(digits_power(line) as nat) >= value)
                            by (nonlinear_arith)
                            requires
                                pow10(digits_power(line) as nat) >= 1,
                        ;
                    }
                }
            }
            return None;
        },
    };
    let (down, exponent) = if mark < to {
        match scan_exponent(bytes, mark + 1, to) {
            Some(read) => read,
            None => {
                return None;
            },
        }
    } else {
        (false, 0)
    };
    let ghost power = digits_power(line);
    let signed: i64 = if negative {
        -(digits as i64)
    } else {
        digits as i64
    };
    if down || exponent <= places as u128 {
        // the power is not positive: the digits stay, and the scale takes it
        let scale: u128 = if down {
            places as u128 + exponent
        } else {
            places as u128 - exponent
        };
        if scale > MAX_SCALE as u128 {
            return None;
        }
        assert(power == -scale);
        proof {
            if power == 0 {
                assert(digits * pow10(0) == digits) by (nonlinear_arith)
                    requires
                        pow10(0) == 1,
                ;
            }
        }
        return Some(Decimal { mantissa: signed, scale: scale as u8 });
    }
    if digits == 0 {
        proof {
            assert(0 * pow10(power as nat) == 0) by (nonlinear_arith);
        }
        return Some(Decimal { mantissa: 0, scale: 0 });
    }
    let shift: u128 = exponent - places as u128;
    if shift >= MAX_SCALE as u128 {
        proof {
            lemma_shift_too_large(digits as nat, power as nat);
        }
        return None;
    }
    assert(power == shift);
    let factor = power_of_ten(shift as u8);
    assert(digits * factor < 1_000_000_000_000_000_000 * 1_000_000_000_000_000_000)
        by (nonlinear_arith)
        requires
            digits < 1_000_000_000_000_000_000,
            factor <= 1_000_000_000_000_000_000,
    ;
    let magnitude: u128 = (digits as u128) * factor;
    if magnitude >= MANTISSA_LIMIT as u128 {
        return None;
    }
    Some(
        Decimal {
            mantissa: if negative {
                -(magnitude as i64)
            } else {
                magnitude as i64
            },
            scale: 0,
        },
    )
}

/// A line as it stands before a line feed: a carriage return directly
/// before the feed belongs to the line ending.
pub open spec fn without_carriage_return(s: Seq<u8>) -> Seq<u8> {
    if s.len() > 0 && s.last() == CARRIAGE_RETURN {
        s.drop_last()
    } else {
        s
    }
}

/// The lines of a text. A line ends at a line feed, or at the end of the
/// text; nothing follows the last line feed as a line of its own.
pub open spec fn lines_of(text: Seq<u8>) -> Seq<Seq<u8>>
    decreases text.len(),
{
    if text.len() == 0 {
        Seq::empty()
    } else {
        let end = find_byte(text, LINE_FEED);
        if 0 <= end < text.len() {
            seq![without_carriage_return(text.take(end))] + lines_of(text.skip(end + 1))
        } else {
            seq![text]
        }
    }
}

/// Every line writes a decimal number.
pub open spec fn all_decimal(lines: Seq<Seq<u8>>) -> bool {
    forall|i: int| 0 <= i < lines.len() ==> decimal_of_text(#[trigger] lines[i]) is Some
}

/// The numbers that the lines write, line by line.
pub open spec fn decimals_of(lines: Seq<Seq<u8>>) -> Seq<Decimal> {
    lines.map_values(|line: Seq<u8>| decimal_of_text(line).unwrap())
}

/// Every decimal of the sequence is within the limits of the type.
pub open spec fn all_wf(samples: Seq<Decimal>) -> bool {
    forall|i: int| 0 <= i < samples.len() ==> (#[trigger] samples[i]).wf()
}

/// Reads one decimal number from each line of the text.
///
/// Fails at the first line that writes none, with the index of that line.
pub fn read_samples(bytes: &[u8]) -> (r: Result<Vec<Decimal>, usize>)
    ensures
        match r {
            Ok(samples) => {
                &&& all_decimal(lines_of(bytes@))
                &&& samples@ == decimals_of(lines_of(bytes@))
                &&& all_wf(samples@)
            },
            Err(at) => {
                &&& at < lines_of(bytes@).len()
                &&& decimal_of_text(lines_of(bytes@)[at as int]) is None
                &&& all_decimal(lines_of(bytes@).take(at as int))
            },
        },
{
    let n = bytes.len();
    let mut samples: Vec<Decimal> = Vec::new();
    let mut pos: usize = 0;
    let ghost mut done: Seq<Seq<u8>> = Seq::empty();
    proof {
        assert(bytes@.skip(0) =~= bytes@);
        assert(done + lines_of(bytes@) =~= lines_of(bytes@));
    }
    while pos < n
        invariant
            n == bytes.len(),
            pos <= n,
            lines_of(bytes@) == done + lines_of(bytes@.skip(pos as int)),
            samples@.len() == done.len(),
            all_decimal(done),
            samples@ == decimals_of(done),
            all_wf(samples@),
        decreases n - pos,
    {
        let ghost rest = bytes@.skip(pos as int);
        let mut end: usize = pos;
        while end < n && bytes[end] != LINE_FEED
            invariant
                pos <= end <= n,
                n == bytes.len(),
                rest == bytes@.skip(pos as int),
                forall|j: int| 0 <= j < end - pos ==> rest[j] != LINE_FEED,
            decreases n - end,
        {
            end = end + 1;
        }
        proof {
            lemma_find_byte_is(rest, LINE_FEED, end - pos);
        }
        let ended = end < n;
        let line_end = if ended && end > pos && bytes[end - 1] == CARRIAGE_RETURN {
            end - 1
        } else {
            end
        };
        let ghost line = bytes@.subrange(pos as int, line_end as int);
        proof {
            assert(rest.take(end - pos) =~= bytes@.subrange(pos as int, end as int));
            if ended {
                assert(line =~= without_carriage_return(rest.take(end - pos)));
                assert(rest.skip(end - pos + 1) =~= bytes@.skip(end + 1));
                assert(lines_of(rest) == seq![line] + lines_of(bytes@.skip(end + 1)));
            } else {
                assert(line =~= rest);
                assert(bytes@.skip(n as int).len() == 0);
                assert(lines_of(rest) =~= seq![line] + lines_of(bytes@.skip(n as int)));
            }
            assert(lines_of(bytes@) =~= done.push(line) + lines_of(
                bytes@.skip(if ended {
                    end + 1
                } else {
                    n as int
                }),
            ));
            assert(lines_of(bytes@)[done.len() as int] == line);
        }
        match parse_decimal(bytes, pos, line_end) {
            None => {
                proof {
                    assert(lines_of(bytes@).take(done.len() as int) =~= done);
                }
                return Err(samples.len());
            },
            Some(sample) => {
                samples.push(sample);
                proof {
                    assert(decimals_of(done.push(line)) =~= decimals_of(done).push(sample));
                    done = done.push(line);
                }
            },
        }
        pos = if ended {
            end + 1
        } else {
            n
        };
    }
    proof {
        assert(bytes@.skip(n as int).len() == 0);
        assert(lines_of(bytes@) =~= done);
    }
    Ok(samples)
}

} // verus!
