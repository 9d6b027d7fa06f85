//! Exact decimal numbers and their written form.

use vstd::prelude::*;

verus! {

/// Largest number of fraction digits that a [`Decimal`] keeps.
pub const MAX_SCALE: u8 = 18;

/// Exclusive bound on the magnitude of a mantissa: ten to the power [`MAX_SCALE`].
pub const MANTISSA_LIMIT: i64 = 1_000_000_000_000_000_000;

/// Ticks per unit at scale zero; at scale `f` a unit has `60 * 10^f` ticks.
///
/// Sixty makes a thirtieth of a difference of samples, and half of that, whole numbers.
pub const TICKS_PER_STEP: i128 = 60;

/// Ten to the power `n`.
pub open spec fn pow10(n: nat) -> nat
    decreases n,
{
    if n == 0 {
        1
    } else {
        10 * pow10((n - 1) as nat)
    }
}

/// Powers of ten grow with the exponent and are never zero.
pub proof fn lemma_pow10_monotonic(a: nat, b: nat)
    requires
        a <= b,
    ensures
        1 <= pow10(a) <= pow10(b),
    decreases b,
{
    if b == 0 {
    } else if a == b {
        lemma_pow10_monotonic(0, (b - 1) as nat);
    } else {
        lemma_pow10_monotonic(a, (b - 1) as nat);
    }
}

/// The value of ten to the power eighteen.
pub proof fn lemma_pow10_eighteen()
    ensures
        pow10(18) == 1_000_000_000_000_000_000,
{
    reveal_with_fuel(pow10, 19);
}

/// Ten to the power `n`, for an exponent that a scale can take.
pub fn power_of_ten(n: u8) -> (p: u128)
    requires
        n <= MAX_SCALE,
    ensures
        p == pow10(n as nat),
        1 <= p <= 1_000_000_000_000_000_000,
{
    let mut p: u128 = 1;
    let mut i: u8 = 0;
    while i < n
        invariant
            i <= n <= MAX_SCALE,
            p == pow10(i as nat),
        decreases n - i,
    {
        proof {
            lemma_pow10_monotonic((i + 1) as nat, 18);
            lemma_pow10_eighteen();
        }
        p = p * 10;
        i = i + 1;
    }
    proof {
        lemma_pow10_monotonic(n as nat, 18);
        lemma_pow10_eighteen();
    }
    p
}

/// A decimal number: `mantissa / 10^scale`.
#[derive(Clone, Copy, Debug, PartialEq, Eq, Structural)]
pub struct Decimal {
    pub mantissa: i64,
    pub scale: u8,
}

impl Decimal {
    /// The mantissa and the scale are within the limits of the type.
    pub open spec fn wf(&self) -> bool {
        &&& -MANTISSA_LIMIT < self.mantissa < MANTISSA_LIMIT
        &&& self.scale <= MAX_SCALE
    }

    /// The number as a count of ticks of `1 / (60 * 10^scale)`.
    pub open spec fn ticks_at(&self, scale: nat) -> int {
        TICKS_PER_STEP * self.mantissa * pow10((scale - self.scale) as nat)
    }

    /// Makes the decimal `mantissa / 10^scale`, if it is within the limits.
    pub fn new(mantissa: i64, scale: u8) -> (r: Option<Decimal>)
        ensures
            r == (if (Decimal { mantissa, scale }).wf() {
                Some(Decimal { mantissa, scale })
            } else {
                None
            }),
    {
        if -MANTISSA_LIMIT < mantissa && mantissa < MANTISSA_LIMIT && scale <= MAX_SCALE {
            Some(Decimal { mantissa, scale })
        } else {
            None
        }
    }

    /// Whether the limits of the type hold.
    pub fn is_valid(&self) -> (ok: bool)
        ensures
            ok == self.wf(),
    {
        -MANTISSA_LIMIT < self.mantissa && self.mantissa < MANTISSA_LIMIT && self.scale
            <= MAX_SCALE
    }

    /// Converts to ticks at a scale that is at least the number's own.
    pub fn ticks(&self, scale: u8) -> (t: i128)
        requires
            self.wf(),
            self.scale <= scale <= MAX_SCALE,
        ensures
            t == self.ticks_at(scale as nat),
            -crate::bins::TICK_LIMIT < t < crate::bins::TICK_LIMIT,
    {
        let p = power_of_ten(scale - self.scale);
        let m: i128 = self.mantissa as i128;
        let q: i128 = p as i128;
        assert(-1_000_000_000_000_000_000_000_000_000_000_000_000 < m * q
            < 1_000_000_000_000_000_000_000_000_000_000_000_000) by (nonlinear_arith)
            requires
                -1_000_000_000_000_000_000 < m < 1_000_000_000_000_000_000,
                1 <= q <= 1_000_000_000_000_000_000,
        ;
        let scaled: i128 = m * q;
        assert(60 * (m * q) == 60 * m * q) by (nonlinear_arith);
        60 * scaled
    }
}

} // verus!
