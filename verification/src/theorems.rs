//! Theorems on every histogram and on every rendering.

use vstd::prelude::*;
use vstd::seq_lib::to_multiset_contains;
use crate::bins::bin_high;
use crate::bins::bin_index;
use crate::bins::bin_low;
use crate::bins::sweepable;
use crate::decimal::pow10;
use crate::decimal::Decimal;
use crate::decimal::MAX_SCALE;
use crate::format::MAX_PLACES;
use crate::histogram::at_most;
use crate::histogram::bin_accepted;
use crate::histogram::common_scale;
use crate::histogram::histogram_of;
use crate::histogram::lemma_sorted_ticks;
use crate::histogram::lemma_ticks_bounds;
use crate::histogram::max_scale;
use crate::histogram::sorted_ticks;
use crate::histogram::ticks_of;
use crate::histogram::width_in_ticks;
use crate::histogram::HistgramModel;
use crate::counts::lemma_frequencies_total;
use crate::counts::lemma_representatives_ascend;
use crate::counts::lemma_sample_in_its_bin;
use crate::counts::total_frequency;
use crate::render::precision;
use crate::render::rendered;
use crate::render::steps_up;
use crate::text::all_wf;

verus! {

/// Samples that a histogram with bars is built of: at least one, each within
/// the limits, and a bin width that is accepted.
pub open spec fn countable(samples: Seq<Decimal>, bin: Option<Decimal>) -> bool {
    &&& samples.len() > 0
    &&& all_wf(samples)
    &&& bin_accepted(bin)
}

/// The largest scale of samples within the limits is itself within them.
proof fn lemma_max_scale_limit(samples: Seq<Decimal>)
    requires
        all_wf(samples),
    ensures
        max_scale(samples) <= MAX_SCALE,
    decreases samples.len(),
{
    if samples.len() > 0 {
        assert forall|i: int| 0 <= i < samples.len() - 1 implies (#[trigger] samples.drop_last()[i]).wf() by {
            assert(samples[i].wf());
        }
        lemma_max_scale_limit(samples.drop_last());
        assert(samples[samples.len() - 1].wf());
    }
}

/// The sorted samples and the bin width of a histogram are such as the sweep takes.
pub proof fn lemma_histogram_sweepable(samples: Seq<Decimal>, bin: Option<Decimal>)
    requires
        countable(samples, bin),
    ensures
        ({
            let scale = common_scale(samples, bin);
            let sorted = sorted_ticks(samples, scale);
            &&& max_scale(samples) <= scale <= MAX_SCALE
            &&& sorted.len() == samples.len()
            &&& sweepable(sorted, width_in_ticks(sorted, bin, scale))
        }),
{
    let scale = common_scale(samples, bin);
    let sorted = sorted_ticks(samples, scale);
    lemma_max_scale_limit(samples);
    lemma_sorted_ticks(samples, scale);
    assert(sorted[0] % 60 == 0 && sorted[sorted.len() - 1] % 60 == 0);
    assert(sorted[0] <= sorted[sorted.len() - 1]);
    match bin {
        Some(width) => {
            lemma_ticks_bounds(width, scale);
        },
        None => {},
    }
}

/// The frequencies of the bars add up to the number of samples.
pub proof fn lemma_frequencies_add_up(samples: Seq<Decimal>, bin: Option<Decimal>)
    requires
        countable(samples, bin),
    ensures
        total_frequency(histogram_of(samples, bin).bars) == samples.len(),
{
    let scale = common_scale(samples, bin);
    let sorted = sorted_ticks(samples, scale);
    lemma_histogram_sweepable(samples, bin);
    lemma_frequencies_total(sorted, width_in_ticks(sorted, bin, scale));
}

/// The bars stand in strictly ascending order of their representatives.
pub proof fn lemma_bars_ascend(samples: Seq<Decimal>, bin: Option<Decimal>, i: int, j: int)
    requires
        countable(samples, bin),
        0 <= i < j < histogram_of(samples, bin).bars.len(),
    ensures
        histogram_of(samples, bin).bars[i].representative < histogram_of(
            samples,
            bin,
        ).bars[j].representative,
{
    let scale = common_scale(samples, bin);
    let sorted = sorted_ticks(samples, scale);
    lemma_histogram_sweepable(samples, bin);
    lemma_representatives_ascend(sorted, width_in_ticks(sorted, bin, scale), i, j);
}

/// Every sample is counted by a bar of the histogram whose range holds it:
/// the sample lies above the lower edge of the bin, or is the smallest
/// sample, at the lower edge of the first bin, and does not lie above the
/// upper edge.
pub proof fn lemma_samples_within_bins(samples: Seq<Decimal>, bin: Option<Decimal>, i: int)
    requires
        countable(samples, bin),
        0 <= i < samples.len(),
    ensures
        ({
            let h = histogram_of(samples, bin);
            let low = sorted_ticks(samples, h.scale).first() as int;
            let width = h.bin.unwrap();
            let sample = samples[i].ticks_at(h.scale);
            let k = bin_index(sample, low, width);
            &&& 0 <= k < h.bars.len()
            &&& h.bars[k].frequency >= 1
            &&& sample <= bin_high(k, low, width)
            &&& bin_low(k, low, width) < sample || (k == 0 && sample == low)
        }),
{
    let scale = common_scale(samples, bin);
    let ticks = ticks_of(samples, scale);
    let sorted = sorted_ticks(samples, scale);
    let width = width_in_ticks(sorted, bin, scale);
    lemma_histogram_sweepable(samples, bin);
    crate::histogram::lemma_max_scale_bounds(samples, i);
    lemma_ticks_bounds(samples[i], scale);
    let t = ticks[i];
    assert(t == samples[i].ticks_at(scale));
    assert(ticks.contains(t));
    ticks.lemma_sort_by_ensures(at_most());
    to_multiset_contains(ticks, t);
    to_multiset_contains(sorted, t);
    let j = choose|j: int| 0 <= j < sorted.len() && sorted[j] == t;
    lemma_sample_in_its_bin(sorted, width, j);
}

/// What the count of steps towards the unit says in powers of ten.
proof fn lemma_steps_up(width: nat, unit: nat, limit: nat)
    ensures
        ({
            let k = steps_up(width, unit, limit);
            &&& k <= limit
            &&& k < limit ==> width * pow10(k) >= unit
            &&& k > 0 ==> width * pow10((k - 1) as nat) < unit
        }),
    decreases limit,
{
    if limit == 0 || width >= unit {
        assert(width * 1 == width);
    } else {
        let rest = steps_up(width * 10, unit, (limit - 1) as nat);
        lemma_steps_up(width * 10, unit, (limit - 1) as nat);
        assert(width * 10 * pow10(rest) == width * pow10(rest + 1)) by (nonlinear_arith)
            requires
                pow10(rest + 1) == 10 * pow10(rest),
        ;
        if rest > 0 {
            assert(width * 10 * pow10((rest - 1) as nat) == width * pow10(rest)) by (nonlinear_arith)
                requires
                    pow10(rest) == 10 * pow10((rest - 1) as nat),
            ;
        } else {
            assert(width * 1 == width);
        }
    }
}

/// The precision is the number of places `p` for which the bin width,
/// taken `10^(p - 1)` times, lies between one unit and ten: one more than
/// the negated decimal logarithm of the width in units, rounded up. Where
/// that number is below zero or above sixteen, the precision is zero or sixteen.
pub proof fn lemma_precision_brackets(width: nat, unit: nat)
    requires
        width > 0,
        unit > 0,
    ensures
        ({
            let p = precision(width, unit);
            &&& p <= MAX_PLACES
            &&& p == 0 <==> width >= 10 * unit
            &&& 0 < p < MAX_PLACES ==> unit <= width * pow10((p - 1) as nat) < 10 * unit
            &&& p == MAX_PLACES ==> width * pow10(15) < 10 * unit
        }),
{
    if width >= unit {
        assert(width * 1 == width);
    } else {
        let k = steps_up(width, unit, 16);
        lemma_steps_up(width, unit, 16);
        assert(k >= 1);
        assert(width * pow10(k) == 10 * (width * pow10((k - 1) as nat))) by (nonlinear_arith)
            requires
                pow10(k) == 10 * pow10((k - 1) as nat),
        ;
        if k == 16 {
            assert(pow10(15) == 10 * pow10(14));
            assert(width * pow10(15) == 10 * (width * pow10(14))) by (nonlinear_arith)
                requires
                    pow10(15) == 10 * pow10(14),
            ;
        }
    }
}

/// Rendering depends on nothing but the histogram and the largest bar
/// length: two texts rendered of the same histogram, with the same length,
/// are the same text.
pub proof fn lemma_rendering_repeats(
    histogram: HistgramModel,
    max_bar_length: nat,
    first: Seq<char>,
    second: Seq<char>,
)
    requires
        first == rendered(histogram, max_bar_length),
        second == rendered(histogram, max_bar_length),
    ensures
        first == second,
{
}

} // verus!
