//! What the bins of a sample sequence count, one by one and together.

use vstd::prelude::*;
use vstd::arithmetic::div_mod::lemma_div_is_ordered;
use crate::bins::bars_of;
use crate::bins::bin_count;
use crate::bins::bin_high;
use crate::bins::bin_index;
use crate::bins::bin_low;
use crate::bins::bin_mid;
use crate::bins::count_in_bin;
use crate::bins::lemma_bin_index_bounds;
use crate::bins::sweepable;
use crate::bins::BarModel;

verus! {

/// Sum of the frequencies of a sequence of bars.
pub open spec fn total_frequency(bars: Seq<BarModel>) -> nat
    decreases bars.len(),
{
    if bars.len() == 0 {
        0
    } else {
        total_frequency(bars.drop_last()) + bars.last().frequency
    }
}

/// Number of samples that the first `bins` bins count together.
pub open spec fn count_below(s: Seq<i128>, low: int, width: int, bins: nat) -> nat
    decreases bins,
{
    if bins == 0 {
        0
    } else {
        count_below(s, low, width, (bins - 1) as nat) + count_in_bin(s, low, width, bins - 1)
    }
}

/// A larger sample is never counted by an earlier bin.
pub proof fn lemma_bin_index_monotonic(u: int, v: int, low: int, width: int)
    requires
        u <= v,
    ensures
        0 <= bin_index(u, low, width) <= bin_index(v, low, width),
{
    if width > 0 {
        if u > low {
            lemma_div_is_ordered(u - low - 1, v - low - 1, width);
            lemma_div_is_ordered(0, u - low - 1, width);
        } else if v > low {
            lemma_div_is_ordered(0, v - low - 1, width);
        }
    }
}

/// One more sample raises the count of the first `bins` bins by one exactly
/// when one of them counts it.
proof fn lemma_count_below_step(s: Seq<i128>, low: int, width: int, bins: nat)
    requires
        s.len() > 0,
    ensures
        count_below(s, low, width, bins) == count_below(s.drop_last(), low, width, bins) + (if 0
            <= bin_index(s.last() as int, low, width) < bins {
            1nat
        } else {
            0nat
        }),
    decreases bins,
{
    if bins > 0 {
        lemma_count_below_step(s, low, width, (bins - 1) as nat);
    }
}

/// Bins that count every sample count as many as there are samples.
proof fn lemma_count_below_all(s: Seq<i128>, low: int, width: int, bins: nat)
    requires
        forall|i: int| 0 <= i < s.len() ==> 0 <= bin_index(#[trigger] s[i] as int, low, width) < bins,
    ensures
        count_below(s, low, width, bins) == s.len(),
    decreases s.len(),
{
    if s.len() == 0 {
        lemma_count_below_none(s, low, width, bins);
    } else {
        let rest = s.drop_last();
        assert forall|i: int| 0 <= i < rest.len() implies 0 <= bin_index(
            #[trigger] rest[i] as int,
            low,
            width,
        ) < bins by {
            assert(rest[i] == s[i]);
        }
        lemma_count_below_all(rest, low, width, bins);
        lemma_count_below_step(s, low, width, bins);
        assert(s.last() == s[s.len() - 1]);
    }
}

/// No bin counts anything of an empty sample set.
proof fn lemma_count_below_none(s: Seq<i128>, low: int, width: int, bins: nat)
    requires
        s.len() == 0,
    ensures
        count_below(s, low, width, bins) == 0,
    decreases bins,
{
    if bins > 0 {
        lemma_count_below_none(s, low, width, (bins - 1) as nat);
    }
}

/// The frequencies of the first `bins` bars add up to what their bins count.
proof fn lemma_total_is_count_below(s: Seq<i128>, width: int, bins: nat)
    requires
        bins <= bars_of(s, width).len(),
    ensures
        total_frequency(bars_of(s, width).take(bins as int)) == count_below(
            s,
            s.first() as int,
            width,
            bins,
        ),
    decreases bins,
{
    let bars = bars_of(s, width);
    if bins > 0 {
        lemma_total_is_count_below(s, width, (bins - 1) as nat);
        assert(bars.take(bins as int).drop_last() =~= bars.take(bins - 1));
        assert(bars.take(bins as int).last() == bars[bins - 1]);
    }
}

/// The bin of each sample is one of the bins of `bars_of`, and its edges
/// enclose the sample: the sample lies above the lower edge, or is the
/// smallest sample in the first bin, and does not lie above the upper edge.
pub proof fn lemma_sample_in_its_bin(sorted: Seq<i128>, width: int, i: int)
    requires
        sweepable(sorted, width),
        0 <= i < sorted.len(),
    ensures
        ({
            let low = sorted.first() as int;
            let k = bin_index(sorted[i] as int, low, width);
            &&& 0 <= k < bars_of(sorted, width).len()
            &&& sorted[i] <= bin_high(k, low, width)
            &&& bin_low(k, low, width) < sorted[i] || (k == 0 && sorted[i] == low)
            &&& bars_of(sorted, width)[k].frequency >= 1
        }),
{
    let low = sorted.first() as int;
    let v = sorted[i] as int;
    let k = bin_index(v, low, width);
    assert(sorted[0] <= sorted[i] <= sorted[sorted.len() - 1]);
    lemma_bin_index_monotonic(v, sorted.last() as int, low, width);
    if width > 0 {
        lemma_bin_index_bounds(v, low, width);
    } else {
        assert((0 + 1) * width == width) by (nonlinear_arith);
    }
    lemma_counted(sorted, low, width, i);
}

/// The bin of a sample counts at least that sample.
proof fn lemma_counted(s: Seq<i128>, low: int, width: int, i: int)
    requires
        0 <= i < s.len(),
    ensures
        count_in_bin(s, low, width, bin_index(s[i] as int, low, width)) >= 1,
    decreases s.len(),
{
    if i < s.len() - 1 {
        assert(s.drop_last()[i] == s[i]);
        lemma_counted(s.drop_last(), low, width, i);
    }
}

/// The frequencies of all bars add up to the number of samples.
pub proof fn lemma_frequencies_total(sorted: Seq<i128>, width: int)
    requires
        sweepable(sorted, width),
    ensures
        total_frequency(bars_of(sorted, width)) == sorted.len(),
{
    let low = sorted.first() as int;
    let bars = bars_of(sorted, width);
    assert forall|i: int| 0 <= i < sorted.len() implies 0 <= bin_index(
        #[trigger] sorted[i] as int,
        low,
        width,
    ) < bars.len() by {
        lemma_sample_in_its_bin(sorted, width, i);
    }
    lemma_count_below_all(sorted, low, width, bars.len());
    lemma_total_is_count_below(sorted, width, bars.len());
    assert(bars.take(bars.len() as int) =~= bars);
}

/// The representatives of the bars ascend strictly from each bar to the next.
pub proof fn lemma_representatives_ascend(sorted: Seq<i128>, width: int, i: int, j: int)
    requires
        sweepable(sorted, width),
        0 <= i < j < bars_of(sorted, width).len(),
    ensures
        bars_of(sorted, width)[i].representative < bars_of(sorted, width)[j].representative,
{
    let low = sorted.first() as int;
    // more than one bar: the width is not zero
    assert(bin_count(sorted, width) >= 2);
    assert(width > 0);
    assert(i * width < j * width) by (nonlinear_arith)
        requires
            i < j,
            width > 0,
    ;
    assert(bin_mid(i, low, width) < bin_mid(j, low, width));
}

} // verus!
