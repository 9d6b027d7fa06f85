//! The histogram of a set of samples.

use vstd::prelude::*;
use vstd::relations::sorted_by;
use vstd::relations::total_ordering;
use vstd::seq_lib::lemma_sorted_unique;
use vstd::seq_lib::to_multiset_contains;
use vstd::seq_lib::to_multiset_len;
use crate::bins::ascending;
use crate::bins::bars_of;
use crate::bins::models;
use crate::bins::sweep;
use crate::bins::sweepable;
use crate::bins::Bar;
use crate::bins::BarModel;
use crate::bins::TICK_LIMIT;
use crate::decimal::Decimal;
use crate::decimal::MAX_SCALE;
use crate::decimal::pow10;
use crate::counts::lemma_sample_in_its_bin;
use crate::outside::sort_ascending;
use crate::text::all_decimal;
use crate::text::all_wf;
use crate::text::decimal_of_text;
use crate::text::decimals_of;
use crate::text::lines_of;
use crate::text::read_samples;

verus! {

/// The mathematical content of a [`Histgram`].
pub struct HistgramModel {
    /// Number of decimal places of the tick: a unit has `60 * 10^scale` ticks.
    pub scale: nat,
    /// Width of a bin in ticks; none for the histogram of no samples.
    pub bin: Option<int>,
    /// The bars, in ascending order of their ranges.
    pub bars: Seq<BarModel>,
}

/// An ordered sequence of bars and the bin width that produced them.
#[derive(Debug)]
pub struct Histgram {
    pub(crate) scale: u8,
    pub(crate) bin: Option<i128>,
    pub(crate) bars: Vec<Bar>,
}

impl View for Histgram {
    type V = HistgramModel;

    open(crate) spec fn view(&self) -> HistgramModel {
        HistgramModel {
            scale: self.scale as nat,
            bin: match self.bin {
                Some(width) => Some(width as int),
                None => None,
            },
            bars: models(self.bars@),
        }
    }
}

impl Histgram {
    #[verifier::type_invariant]
    pub(crate) open spec fn inv(&self) -> bool {
        &&& self.scale <= MAX_SCALE
        &&& self.bin is None <==> self.bars@.len() == 0
        &&& self.bin is Some ==> self.bin.unwrap() >= 0
        &&& self.bars@.len() > 0 ==> self.bars@.last().frequency > 0
    }

    /// The bars, in ascending order of their ranges.
    pub fn bars(&self) -> (bars: &Vec<Bar>)
        ensures
            models(bars@) == self@.bars,
    {
        &self.bars
    }

    /// The bin width in ticks; none for the histogram of no samples.
    pub fn bin(&self) -> (bin: Option<i128>)
        ensures
            match bin {
                Some(width) => self@.bin == Some(width as int),
                None => self@.bin is None,
            },
    {
        self.bin
    }

    /// Number of decimal places of the tick: a unit has `60 * 10^scale` ticks.
    pub fn scale(&self) -> (scale: u8)
        ensures
            scale == self@.scale,
            scale <= MAX_SCALE,
    {
        proof {
            use_type_invariant(self);
        }
        self.scale
    }
}

/// Why no histogram could be built.
#[derive(Clone, Copy, Debug, PartialEq, Eq, Structural)]
pub enum BuildError {
    /// The sample with this index, counted from zero, is no decimal number
    /// within the limits of [`Decimal`].
    InvalidNumber { line: usize },
    /// The bin width that was given is not positive, or not within the limits.
    InvalidBinWidth,
}

/// Number of bins that the range of the samples is divided into when no
/// bin width is given.
pub const DEFAULT_OUTPUT_LINES: i128 = 30;

/// The order that samples are sorted by.
pub open spec fn at_most() -> spec_fn(i128, i128) -> bool {
    |a: i128, b: i128| a <= b
}

/// A bin width that a histogram can be built with: none, or a positive decimal.
pub open spec fn bin_accepted(bin: Option<Decimal>) -> bool {
    match bin {
        Some(width) => width.wf() && width.mantissa > 0,
        None => true,
    }
}

/// Largest scale among the samples.
pub open spec fn max_scale(samples: Seq<Decimal>) -> nat
    decreases samples.len(),
{
    if samples.len() == 0 {
        0
    } else {
        let rest = max_scale(samples.drop_last());
        if samples.last().scale > rest {
            samples.last().scale as nat
        } else {
            rest
        }
    }
}

/// The scale at which the samples and the given bin width are all whole
/// numbers of ticks: the largest of their scales.
pub open spec fn common_scale(samples: Seq<Decimal>, bin: Option<Decimal>) -> nat {
    match bin {
        Some(width) if width.scale > max_scale(samples) => width.scale as nat,
        _ => max_scale(samples),
    }
}

/// The samples in ticks, in their given order.
pub open spec fn ticks_of(samples: Seq<Decimal>, scale: nat) -> Seq<i128> {
    samples.map_values(|sample: Decimal| sample.ticks_at(scale) as i128)
}

/// The samples in ticks, in ascending order.
pub open spec fn sorted_ticks(samples: Seq<Decimal>, scale: nat) -> Seq<i128> {
    ticks_of(samples, scale).sort_by(at_most())
}

/// The bin width in ticks: the given one, or else a thirtieth of the
/// difference between the largest and the smallest sample.
pub open spec fn width_in_ticks(sorted: Seq<i128>, bin: Option<Decimal>, scale: nat) -> int {
    match bin {
        Some(width) => width.ticks_at(scale),
        None => (sorted.last() - sorted.first()) / (DEFAULT_OUTPUT_LINES as int),
    }
}

/// The histogram of a set of samples.
pub open spec fn histogram_of(samples: Seq<Decimal>, bin: Option<Decimal>) -> HistgramModel {
    if samples.len() == 0 {
        HistgramModel { scale: 0, bin: None, bars: Seq::empty() }
    } else {
        let scale = common_scale(samples, bin);
        let sorted = sorted_ticks(samples, scale);
        let width = width_in_ticks(sorted, bin, scale);
        HistgramModel { scale, bin: Some(width), bars: bars_of(sorted, width) }
    }
}

/// The bytes of a text.
pub open spec fn bytes_of(text: Seq<char>) -> Seq<u8> {
    vstd::utf8::encode_utf8(text)
}

/// A sequence in ascending order that holds the same items as another is
/// the other one sorted.
pub proof fn lemma_ascending_is_sorted(before: Seq<i128>, after: Seq<i128>)
    requires
        ascending(after),
        after.to_multiset() == before.to_multiset(),
    ensures
        after == before.sort_by(at_most()),
{
    let leq = at_most();
    assert(total_ordering(leq));
    assert(sorted_by(after, leq));
    before.lemma_sort_by_ensures(leq);
    lemma_sorted_unique(after, before.sort_by(leq), leq);
}

/// The samples in ticks, sorted, are as many as the samples, each a
/// multiple of sixty within the tick limit, and in ascending order.
pub proof fn lemma_sorted_ticks(samples: Seq<Decimal>, scale: nat)
    requires
        all_wf(samples),
        max_scale(samples) <= scale <= MAX_SCALE,
    ensures
        sorted_ticks(samples, scale).len() == samples.len(),
        ascending(sorted_ticks(samples, scale)),
        forall|i: int|
            0 <= i < samples.len() ==> {
                &&& -TICK_LIMIT < #[trigger] sorted_ticks(samples, scale)[i] < TICK_LIMIT
                &&& sorted_ticks(samples, scale)[i] % 60 == 0
            },
{
    let ticks = ticks_of(samples, scale);
    let sorted = sorted_ticks(samples, scale);
    let leq = at_most();
    assert(total_ordering(leq));
    ticks.lemma_sort_by_ensures(leq);
    to_multiset_len(ticks);
    to_multiset_len(sorted);
    assert forall|i: int, j: int| 0 <= i <= j < sorted.len() implies sorted[i] <= sorted[j] by {
        if i < j {
            assert(leq(sorted[i], sorted[j]));
        }
    }
    assert forall|i: int| 0 <= i < samples.len() implies {
        &&& -TICK_LIMIT < #[trigger] sorted[i] < TICK_LIMIT
        &&& sorted[i] % 60 == 0
    } by {
        let x = sorted[i];
        assert(sorted.contains(x));
        to_multiset_contains(sorted, x);
        to_multiset_contains(ticks, x);
        let j = choose|j: int| 0 <= j < ticks.len() && ticks[j] == x;
        lemma_max_scale_bounds(samples, j);
        lemma_ticks_bounds(samples[j], scale);
    }
}

/// No sample has a scale above the largest.
pub proof fn lemma_max_scale_bounds(samples: Seq<Decimal>, i: int)
    requires
        0 <= i < samples.len(),
    ensures
        samples[i].scale <= max_scale(samples),
    decreases samples.len(),
{
    if i < samples.len() - 1 {
        lemma_max_scale_bounds(samples.drop_last(), i);
    }
}

/// A decimal in ticks is a multiple of sixty within the tick limit, and has
/// the sign of the decimal.
pub proof fn lemma_ticks_bounds(sample: Decimal, scale: nat)
    requires
        sample.wf(),
        sample.scale <= scale <= MAX_SCALE,
    ensures
        -TICK_LIMIT < sample.ticks_at(scale) < TICK_LIMIT,
        sample.ticks_at(scale) % 60 == 0,
        sample.mantissa > 0 ==> sample.ticks_at(scale) > 0,
{
    let m = sample.mantissa as int;
    let p = pow10((scale - sample.scale) as nat) as int;
    crate::decimal::lemma_pow10_monotonic((scale - sample.scale) as nat, 18);
    crate::decimal::lemma_pow10_eighteen();
    assert(-1_000_000_000_000_000_000_000_000_000_000_000_000 < m * p
        < 1_000_000_000_000_000_000_000_000_000_000_000_000) by (nonlinear_arith)
        requires
            -1_000_000_000_000_000_000 < m < 1_000_000_000_000_000_000,
            1 <= p <= 1_000_000_000_000_000_000,
    ;
    assert(60 * m * p == 60 * (m * p)) by (nonlinear_arith);
    assert((60 * (m * p)) % 60 == 0) by (nonlinear_arith);
    assert(m > 0 ==> m * p > 0) by (nonlinear_arith)
        requires
            p >= 1,
    ;
}

impl Histgram {
    /// The histogram of no samples: no bars, and no bin width.
    pub fn empty() -> (h: Histgram)
        ensures
            h@ == histogram_of(Seq::empty(), None),
    {
        let bars: Vec<Bar> = Vec::new();
        assert(models(bars@) =~= Seq::empty());
        Histgram { scale: 0, bin: None, bars }
    }

    /// Builds the histogram of the numbers that the lines of a text write.
    ///
    /// Every line must write a decimal number: the first one that does not
    /// fails the whole build. What follows is as in [`Histgram::from_samples`].
    pub fn build(input: String, bin: Option<Decimal>) -> (r: Result<Histgram, BuildError>)
        ensures
            match r {
                Ok(h) => {
                    &&& all_decimal(lines_of(bytes_of(input@)))
                    &&& lines_of(bytes_of(input@)).len() == 0 || bin_accepted(bin)
                    &&& h@ == histogram_of(decimals_of(lines_of(bytes_of(input@))), bin)
                },
                Err(BuildError::InvalidNumber { line }) => {
                    &&& line < lines_of(bytes_of(input@)).len()
                    &&& decimal_of_text(lines_of(bytes_of(input@))[line as int]) is None
                    &&& all_decimal(lines_of(bytes_of(input@)).take(line as int))
                },
                Err(BuildError::InvalidBinWidth) => {
                    &&& all_decimal(lines_of(bytes_of(input@)))
                    &&& lines_of(bytes_of(input@)).len() > 0
                    &&& !bin_accepted(bin)
                },
            },
    {
        let bytes = input.as_str().as_bytes();
        match read_samples(bytes) {
            Ok(samples) => Histgram::from_samples(&samples, bin),
            Err(line) => Err(BuildError::InvalidNumber { line }),
        }
    }

    /// Builds the histogram of the samples.
    ///
    /// The samples are sorted, and one sweep over them fills bins of the
    /// given width, or of a thirtieth of their range, starting at the
    /// smallest sample. No samples give the empty histogram. A sample
    /// outside the limits of [`Decimal`] is refused, and so is a bin width
    /// that is not positive once there are samples to count.
    pub fn from_samples(samples: &Vec<Decimal>, bin: Option<Decimal>) -> (r: Result<
        Histgram,
        BuildError,
    >)
        ensures
            match r {
                Ok(h) => {
                    &&& all_wf(samples@)
                    &&& samples@.len() == 0 || bin_accepted(bin)
                    &&& h@ == histogram_of(samples@, bin)
                },
                Err(BuildError::InvalidNumber { line }) => {
                    &&& line < samples@.len()
                    &&& !samples@[line as int].wf()
                    &&& all_wf(samples@.take(line as int))
                },
                Err(BuildError::InvalidBinWidth) => {
                    &&& all_wf(samples@)
                    &&& samples@.len() > 0
                    &&& !bin_accepted(bin)
                },
            },
    {
        let own_scale = match largest_scale(samples) {
            Ok(scale) => scale,
            Err(line) => {
                return Err(BuildError::InvalidNumber { line });
            },
        };
        if samples.len() == 0 {
            return Ok(Histgram::empty());
        }
        let scale = match bin {
            Some(width) => {
                if !width.is_valid() || width.mantissa <= 0 {
                    return Err(BuildError::InvalidBinWidth);
                }
                if width.scale > own_scale {
                    width.scale
                } else {
                    own_scale
                }
            },
            None => own_scale,
        };
        proof {
            lemma_sorted_ticks(samples@, scale as nat);
        }
        let ticks = sorted_in_ticks(samples, scale);
        let width = bin_width(&ticks, bin, scale);
        proof {
            lemma_sample_in_its_bin(ticks@, width as int, ticks@.len() - 1);
        }
        let bars = sweep(&ticks, width);
        proof {
            assert(bars@.len() == models(bars@).len());
            assert(models(bars@)[bars@.len() - 1] == bars@[bars@.len() - 1]@);
        }
        Ok(Histgram { scale, bin: Some(width), bars })
    }
}

/// Checks every sample against the limits of [`Decimal`] and finds the
/// largest scale among them; fails with the index of the first sample
/// outside the limits.
fn largest_scale(samples: &Vec<Decimal>) -> (r: Result<u8, usize>)
    ensures
        match r {
            Ok(scale) => all_wf(samples@) && scale == max_scale(samples@) && scale <= MAX_SCALE,
            Err(line) => {
                &&& line < samples@.len()
                &&& !samples@[line as int].wf()
                &&& all_wf(samples@.take(line as int))
            },
        },
{
    let n = samples.len();
    let mut scale: u8 = 0;
    let mut i: usize = 0;
    while i < n
        invariant
            n == samples@.len(),
            i <= n,
            all_wf(samples@.take(i as int)),
            scale == max_scale(samples@.take(i as int)),
            scale <= MAX_SCALE,
        decreases n - i,
    {
        if !samples[i].is_valid() {
            return Err(i);
        }
        proof {
            assert(samples@.take(i + 1).drop_last() =~= samples@.take(i as int));
            assert(samples@.take(i + 1).last() == samples@[i as int]);
            assert forall|j: int| 0 <= j < i + 1 implies (#[trigger] samples@.take(i + 1)[j]).wf() by {
                if j < i {
                    assert(samples@.take(i as int)[j].wf());
                }
            }
        }
        if samples[i].scale > scale {
            scale = samples[i].scale;
        }
        i = i + 1;
    }
    proof {
        assert(samples@.take(n as int) =~= samples@);
    }
    Ok(scale)
}

/// Converts the samples to ticks at the given scale and sorts them.
fn sorted_in_ticks(samples: &Vec<Decimal>, scale: u8) -> (ticks: Vec<i128>)
    requires
        all_wf(samples@),
        max_scale(samples@) <= scale <= MAX_SCALE,
    ensures
        ticks@ == sorted_ticks(samples@, scale as nat),
{
    let n = samples.len();
    let mut ticks: Vec<i128> = Vec::new();
    let mut i: usize = 0;
    while i < n
        invariant
            n == samples@.len(),
            i <= n,
            all_wf(samples@),
            max_scale(samples@) <= scale <= MAX_SCALE,
            ticks@ == ticks_of(samples@.take(i as int), scale as nat),
        decreases n - i,
    {
        proof {
            lemma_max_scale_bounds(samples@, i as int);
        }
        let t = samples[i].ticks(scale);
        ticks.push(t);
        proof {
            assert(ticks@ =~= ticks_of(samples@.take(i + 1), scale as nat));
        }
        i = i + 1;
    }
    proof {
        assert(samples@.take(n as int) =~= samples@);
    }
    let ghost unsorted = ticks@;
    sort_ascending(&mut ticks);
    proof {
        lemma_ascending_is_sorted(unsorted, ticks@);
    }
    ticks
}

/// A thirtieth of a non-negative multiple of sixty is even, and zero only
/// for zero.
proof fn lemma_thirtieth(d: int)
    requires
        d >= 0,
        d % 60 == 0,
    ensures
        (d / 30) % 2 == 0,
        d / 30 == 0 ==> d == 0,
        0 <= d / 30 <= d,
{
}

/// The bin width in ticks for sorted samples that are not empty.
fn bin_width(ticks: &Vec<i128>, bin: Option<Decimal>, scale: u8) -> (width: i128)
    requires
        ticks@.len() > 0,
        ascending(ticks@),
        forall|i: int|
            0 <= i < ticks@.len() ==> {
                &&& -TICK_LIMIT < #[trigger] ticks@[i] < TICK_LIMIT
                &&& ticks@[i] % 60 == 0
            },
        scale <= MAX_SCALE,
        bin matches Some(given) ==> given.wf() && given.mantissa > 0 && given.scale <= scale,
    ensures
        width == width_in_ticks(ticks@, bin, scale as nat),
        sweepable(ticks@, width as int),
{
    let low = ticks[0];
    let high = ticks[ticks.len() - 1];
    assert(low <= high);
    match bin {
        Some(given) => {
            proof {
                lemma_ticks_bounds(given, scale as nat);
            }
            given.ticks(scale)
        },
        None => {
            proof {
                lemma_thirtieth(high - low);
            }
            (high - low) / DEFAULT_OUTPUT_LINES
        },
    }
}

} // verus!
