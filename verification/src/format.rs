//! Writing numbers as text.

use vstd::prelude::*;
use vstd::arithmetic::div_mod::lemma_fundamental_div_mod_converse;
use vstd::arithmetic::div_mod::lemma_fundamental_div_mod;
use vstd::arithmetic::div_mod::lemma_mod_multiples_vanish;
use crate::decimal::lemma_pow10_monotonic;
use crate::decimal::pow10;
use crate::decimal::power_of_ten;
use crate::decimal::MAX_SCALE;

verus! {

/// Largest number of decimal places that a number is written with.
pub const MAX_PLACES: u8 = 16;

/// The character of a decimal digit.
pub open spec fn digit_char(d: int) -> char {
    if d == 0 {
        '0'
    } else if d == 1 {
        '1'
    } else if d == 2 {
        '2'
    } else if d == 3 {
        '3'
    } else if d == 4 {
        '4'
    } else if d == 5 {
        '5'
    } else if d == 6 {
        '6'
    } else if d == 7 {
        '7'
    } else if d == 8 {
        '8'
    } else {
        '9'
    }
}

/// The decimal digits of `n`, without leading zeros.
pub open spec fn digits_of(n: nat) -> Seq<char>
    decreases n,
{
    if n < 10 {
        seq![digit_char(n as int)]
    } else {
        digits_of(n / 10).push(digit_char((n % 10) as int))
    }
}

/// The last `places` decimal digits of `n`, with leading zeros.
pub open spec fn padded_digits(n: nat, places: nat) -> Seq<char>
    decreases places,
{
    if places == 0 {
        Seq::empty()
    } else {
        padded_digits(n / 10, (places - 1) as nat).push(digit_char((n % 10) as int))
    }
}

/// `n` times the character `c`.
pub open spec fn repeated(c: char, n: nat) -> Seq<char> {
    Seq::new(n, |i: int| c)
}

/// The integer nearest to `numerator / denominator`; of two equally near, the even one.
pub open spec fn rounded(numerator: nat, denominator: nat) -> nat {
    let quotient = numerator / denominator;
    let remainder = numerator % denominator;
    if 2 * remainder > denominator || (2 * remainder == denominator && quotient % 2 == 1) {
        quotient + 1
    } else {
        quotient
    }
}

/// The magnitude of `value / unit`, as a whole number of steps of `10^-places`.
pub open spec fn scaled_magnitude(value: int, unit: nat, places: nat) -> nat {
    rounded(
        (if value < 0 {
            -value
        } else {
            value
        }) as nat * pow10(places),
        unit,
    )
}

/// The number `value / unit` written with `places` decimal places: a minus
/// sign for a negative value, the whole part, and, if there are places, a
/// dot and that many digits.
pub open spec fn fixed_text(value: int, unit: nat, places: nat) -> Seq<char> {
    let scaled = scaled_magnitude(value, unit, places);
    let sign = if value < 0 {
        seq!['-']
    } else {
        Seq::empty()
    };
    let whole = digits_of(scaled / pow10(places));
    if places == 0 {
        sign + whole
    } else {
        sign + whole + seq!['.'] + padded_digits(scaled % pow10(places), places)
    }
}

/// Appends one decimal digit.
pub fn push_digit(out: &mut String, d: u8)
    requires
        d < 10,
    ensures
        final(out)@ == old(out)@.push(digit_char(d as int)),
{
    proof {
        reveal_strlit("0");
        reveal_strlit("1");
        reveal_strlit("2");
        reveal_strlit("3");
        reveal_strlit("4");
        reveal_strlit("5");
        reveal_strlit("6");
        reveal_strlit("7");
        reveal_strlit("8");
        reveal_strlit("9");
    }
    let ghost before = out@;
    let text = if d == 0 {
        "0"
    } else if d == 1 {
        "1"
    } else if d == 2 {
        "2"
    } else if d == 3 {
        "3"
    } else if d == 4 {
        "4"
    } else if d == 5 {
        "5"
    } else if d == 6 {
        "6"
    } else if d == 7 {
        "7"
    } else if d == 8 {
        "8"
    } else {
        "9"
    };
    out.append(text);
    assert(out@ =~= before.push(digit_char(d as int)));
}

/// Appends the decimal digits of `n`.
pub fn push_digits(out: &mut String, n: u128)
    ensures
        final(out)@ == old(out)@ + digits_of(n as nat),
    decreases n,
{
    let ghost before = out@;
    if n >= 10 {
        push_digits(out, n / 10);
    }
    push_digit(out, (n % 10) as u8);
    assert(out@ =~= before + digits_of(n as nat));
}

/// Appends the last `places` decimal digits of `n`, with leading zeros.
pub fn push_padded_digits(out: &mut String, n: u128, places: u8)
    ensures
        final(out)@ == old(out)@ + padded_digits(n as nat, places as nat),
    decreases places,
{
    let ghost before = out@;
    if places > 0 {
        push_padded_digits(out, n / 10, places - 1);
        push_digit(out, (n % 10) as u8);
    }
    assert(out@ =~= before + padded_digits(n as nat, places as nat));
}

/// Appends `n` times a character, given as a text of that one character.
pub fn push_repeated(out: &mut String, piece: &str, n: usize)
    requires
        piece@.len() == 1,
    ensures
        final(out)@ == old(out)@ + repeated(piece@[0], n as nat),
{
    let ghost before = out@;
    let mut i: usize = 0;
    while i < n
        invariant
            i <= n,
            piece@.len() == 1,
            out@ == before + repeated(piece@[0], i as nat),
        decreases n - i,
    {
        out.append(piece);
        assert(out@ =~= before + repeated(piece@[0], (i + 1) as nat));
        i = i + 1;
    }
}

/// Number of ticks in a unit at the given scale.
pub open spec fn unit_ticks(scale: nat) -> nat {
    60 * pow10(scale)
}

/// Rounding a scaled magnitude from the quotients and remainders of two
/// divisions by the unit: first of the magnitude, then of its remainder
/// taken `power` times.
proof fn lemma_rounded_parts(magnitude: nat, unit: nat, power: nat, places: nat)
    requires
        unit > 0,
        unit % 2 == 0,
        power == pow10(places),
    ensures
        ({
            let q = magnitude / unit;
            let r = magnitude % unit;
            let fq = (r * power) / unit;
            let fr = (r * power) % unit;
            let odd = if places == 0 {
                q % 2 == 1
            } else {
                fq % 2 == 1
            };
            let up: nat = if 2 * fr > unit || (2 * fr == unit && odd) {
                1
            } else {
                0
            };
            &&& fq < power
            &&& rounded(magnitude * power, unit) == q * power + fq + up
        }),
{
    let q = magnitude / unit;
    let r = magnitude % unit;
    let t = r * power;
    let fq = t / unit;
    let fr = t % unit;
    lemma_fundamental_div_mod(magnitude as int, unit as int);
    lemma_fundamental_div_mod(t as int, unit as int);
    assert(magnitude * power == (q * power + fq) * unit + fr) by (nonlinear_arith)
        requires
            magnitude == unit * q + r,
            r * power == unit * fq + fr,
    ;
    assert(q * power + fq >= 0) by (nonlinear_arith)
        requires
            q >= 0,
            power >= 0,
            fq >= 0,
    ;
    lemma_fundamental_div_mod_converse(
        (magnitude * power) as int,
        unit as int,
        (q * power + fq) as int,
        fr as int,
    );
    lemma_pow10_monotonic(0, places);
    assert(r * power < unit * power) by (nonlinear_arith)
        requires
            0 <= r < unit,
            power > 0,
    ;
    assert(fq < power) by (nonlinear_arith)
        requires
            unit * fq < unit * power,
            unit > 0,
    ;
    if places == 0 {
        assert(power == 1);
        assert(q * 1 + 0 == q);
    } else {
        let half = 5 * pow10((places - 1) as nat);
        assert(power == 2 * half);
        assert(q * power == 2 * (q * half)) by (nonlinear_arith)
            requires
                power == 2 * half,
        ;
        lemma_mod_multiples_vanish((q * half) as int, fq as int, 2);
    }
}

/// Splitting a number at a power of ten gives back its two parts.
proof fn lemma_split(whole: nat, part: nat, power: nat)
    requires
        part < power,
    ensures
        (whole * power + part) / power == whole,
        (whole * power + part) % power == part,
{
    assert(whole * power + part == power * whole + part) by (nonlinear_arith);
    lemma_fundamental_div_mod_converse(
        (whole * power + part) as int,
        power as int,
        whole as int,
        part as int,
    );
}

/// Appends the number `value / (60 * 10^scale)`, rounded to `places` decimal places.
pub fn push_fixed(out: &mut String, value: i128, scale: u8, places: u8)
    requires
        scale <= MAX_SCALE,
        places <= MAX_PLACES,
    ensures
        final(out)@ == old(out)@ + fixed_text(
            value as int,
            unit_ticks(scale as nat),
            places as nat,
        ),
{
    let ghost before = out@;
    let unit: u128 = 60 * power_of_ten(scale);
    let power: u128 = power_of_ten(places);
    proof {
        lemma_pow10_monotonic(places as nat, 16);
        lemma_pow10_monotonic(16, 18);
        assert(pow10(16) == 10_000_000_000_000_000) by {
            reveal_with_fuel(pow10, 17);
        }
    }
    let magnitude: u128 = if value < 0 {
        ((-(value + 1)) as u128) + 1
    } else {
        value as u128
    };
    let q = magnitude / unit;
    let r = magnitude % unit;
    assert(r * power <= 60_000_000_000_000_000_000 * 10_000_000_000_000_000) by (nonlinear_arith)
        requires
            r <= 60_000_000_000_000_000_000,
            power <= 10_000_000_000_000_000,
    ;
    let t = r * power;
    let fq = t / unit;
    let fr = t % unit;
    let odd = if places == 0 {
        q % 2 == 1
    } else {
        fq % 2 == 1
    };
    let up = 2 * fr > unit || (2 * fr == unit && odd);
    let mut whole = q;
    let mut part = fq;
    proof {
        lemma_rounded_parts(magnitude as nat, unit as nat, power as nat, places as nat);
    }
    if up {
        part = part + 1;
        if part == power {
            part = 0;
            whole = whole + 1;
        }
    }
    proof {
        let scaled = scaled_magnitude(value as int, unit_ticks(scale as nat), places as nat);
        assert(scaled == whole * power + part) by (nonlinear_arith)
            requires
                scaled == q * power + fq + (if up {
                    1nat
                } else {
                    0nat
                }),
                up ==> (if fq + 1 == power {
                    part == 0 && whole == q + 1
                } else {
                    part == fq + 1 && whole == q
                }),
                !up ==> part == fq && whole == q,
        ;
        lemma_split(whole as nat, part as nat, power as nat);
    }
    if value < 0 {
        proof {
            reveal_strlit("-");
        }
        out.append("-");
    }
    push_digits(out, whole);
    if places > 0 {
        proof {
            reveal_strlit(".");
        }
        out.append(".");
        push_padded_digits(out, part, places);
    }
    assert(out@ =~= before + fixed_text(
        value as int,
        unit_ticks(scale as nat),
        places as nat,
    ));
}

} // verus!
