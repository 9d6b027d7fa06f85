//! Bucket assignment: which bin counts a sample, and the sweep that fills the bins.

use vstd::prelude::*;
use vstd::arithmetic::div_mod::lemma_fundamental_div_mod_converse;
use vstd::arithmetic::div_mod::lemma_fundamental_div_mod;
use vstd::arithmetic::div_mod::lemma_mod_bound;

verus! {

/// Largest magnitude, in ticks, of a sample or of a bin width.
pub const TICK_LIMIT: i128 = 60_000_000_000_000_000_000_000_000_000_000_000_000;

/// One bucket: the midpoint of its range, in ticks, and how many samples it counted.
#[derive(Clone, Copy, Debug, PartialEq, Eq, Structural)]
pub struct Bar {
    pub representative: i128,
    pub frequency: u64,
}

/// The mathematical content of a [`Bar`].
pub struct BarModel {
    pub representative: int,
    pub frequency: nat,
}

impl View for Bar {
    type V = BarModel;

    open spec fn view(&self) -> BarModel {
        BarModel { representative: self.representative as int, frequency: self.frequency as nat }
    }
}

/// Index of the bin that counts `v`, for bins of `width` ticks starting at `low`.
///
/// Bin `k` covers `low + k * width < v <= low + (k + 1) * width`; the first bin
/// also takes `low` itself. With a zero width there is a single bin.
pub open spec fn bin_index(v: int, low: int, width: int) -> int {
    if v <= low || width <= 0 {
        0
    } else {
        (v - low - 1) / width
    }
}

/// Lower edge of bin `k`.
pub open spec fn bin_low(k: int, low: int, width: int) -> int {
    low + k * width
}

/// Upper edge of bin `k`.
pub open spec fn bin_high(k: int, low: int, width: int) -> int {
    low + (k + 1) * width
}

/// Midpoint of bin `k`, exact when `width` is even.
pub open spec fn bin_mid(k: int, low: int, width: int) -> int {
    low + k * width + width / 2
}

/// Number of samples of `s` that bin `k` counts.
pub open spec fn count_in_bin(s: Seq<i128>, low: int, width: int, k: int) -> nat
    decreases s.len(),
{
    if s.len() == 0 {
        0
    } else {
        let rest = count_in_bin(s.drop_last(), low, width, k);
        if bin_index(s.last() as int, low, width) == k {
            rest + 1
        } else {
            rest
        }
    }
}

/// `s` is in ascending order (ties allowed).
pub open spec fn ascending(s: Seq<i128>) -> bool {
    forall|i: int, j: int| 0 <= i <= j < s.len() ==> s[i] <= s[j]
}

/// Number of bins that a non-empty ascending sample sequence needs.
pub open spec fn bin_count(s: Seq<i128>, width: int) -> int {
    bin_index(s.last() as int, s.first() as int, width) + 1
}

/// The bars of a non-empty ascending sample sequence: one per bin from the
/// bin of the smallest sample to the bin of the largest, gaps included.
pub open spec fn bars_of(s: Seq<i128>, width: int) -> Seq<BarModel> {
    Seq::new(
        bin_count(s, width) as nat,
        |k: int|
            BarModel {
                representative: bin_mid(k, s.first() as int, width),
                frequency: count_in_bin(s, s.first() as int, width, k),
            },
    )
}

/// The models of a vector of bars.
pub open spec fn models(bars: Seq<Bar>) -> Seq<BarModel> {
    bars.map_values(|b: Bar| b@)
}

/// A sample strictly inside the edges of bin `k` (or on its upper edge) belongs to bin `k`.
pub proof fn lemma_bin_index_unique(v: int, low: int, width: int, k: int)
    requires
        width > 0,
        k >= 0,
        bin_low(k, low, width) < v <= bin_high(k, low, width),
    ensures
        bin_index(v, low, width) == k,
{
    assert(k * width >= 0) by (nonlinear_arith)
        requires
            k >= 0,
            width > 0,
    ;
    let x = v - low - 1;
    assert(x == k * width + (x - k * width));
    assert((k + 1) * width == k * width + width) by (nonlinear_arith);
    lemma_fundamental_div_mod_converse(x, width, k, x - k * width);
}

/// The sample that a bin counts lies above the bin's lower edge and not
/// above its upper edge; the first bin also counts the lower bound itself.
pub proof fn lemma_bin_index_bounds(v: int, low: int, width: int)
    requires
        width > 0,
        low <= v,
    ensures
        bin_index(v, low, width) >= 0,
        v <= bin_high(bin_index(v, low, width), low, width),
        v > low ==> bin_low(bin_index(v, low, width), low, width) < v,
        v == low ==> bin_index(v, low, width) == 0,
{
    if v > low {
        let x = v - low - 1;
        let k = x / width;
        lemma_fundamental_div_mod(x, width);
        lemma_mod_bound(x, width);
        assert(x == width * k + x % width);
        assert(width * k == k * width) by (nonlinear_arith);
        assert((k + 1) * width == k * width + width) by (nonlinear_arith);
        assert(k >= 0) by (nonlinear_arith)
            requires
                width > 0,
                x >= 0,
                x == width * k + x % width,
                x % width < width,
        ;
    } else {
        assert((0 + 1) * width == width) by (nonlinear_arith);
    }
}

/// Counting over one more sample adds one to the bin of that sample and nothing elsewhere.
pub proof fn lemma_count_step(s: Seq<i128>, n: int, low: int, width: int, k: int)
    requires
        0 <= n < s.len(),
    ensures
        count_in_bin(s.take(n + 1), low, width, k) == count_in_bin(s.take(n), low, width, k) + (
        if bin_index(s[n] as int, low, width) == k {
            1nat
        } else {
            0nat
        }),
{
    assert(s.take(n + 1).drop_last() =~= s.take(n));
    assert(s.take(n + 1).last() == s[n]);
}

/// No bin counts more samples than there are.
pub proof fn lemma_count_le_len(s: Seq<i128>, low: int, width: int, k: int)
    ensures
        count_in_bin(s, low, width, k) <= s.len(),
    decreases s.len(),
{
    if s.len() > 0 {
        lemma_count_le_len(s.drop_last(), low, width, k);
    }
}

/// Whether a sweep over `sorted` with bins of `width` ticks stays within the
/// machine's integers and comes to an end.
pub open spec fn sweepable(sorted: Seq<i128>, width: int) -> bool {
    &&& sorted.len() > 0
    &&& ascending(sorted)
    &&& -TICK_LIMIT <= sorted.first()
    &&& sorted.last() <= TICK_LIMIT
    &&& 0 <= width <= TICK_LIMIT
    &&& width % 2 == 0
    &&& width == 0 ==> sorted.last() == sorted.first()
}

/// Sweeps once over the ascending samples and fills the bins.
///
/// The current bin is closed, and the next one opened, for as long as the
/// sample at hand lies strictly above the bin's upper edge; a sample on the
/// edge stays in the lower bin.
pub fn sweep(sorted: &Vec<i128>, width: i128) -> (bars: Vec<Bar>)
    requires
        sweepable(sorted@, width as int),
    ensures
        models(bars@) == bars_of(sorted@, width as int),
{
    let n = sorted.len();
    let low = sorted[0];
    let ghost s = sorted@;
    let ghost lo = low as int;
    let ghost w = width as int;
    let mut bars: Vec<Bar> = Vec::new();
    let mut range_min: i128 = low;
    let mut range_max: i128 = low + width;
    let mut frequency: u64 = 0;
    let ghost mut k: int = 0;
    let mut i: usize = 0;
    while i < n
        invariant
            s == sorted@,
            n == s.len(),
            lo == low as int,
            lo == s.first() as int,
            w == width as int,
            sweepable(s, w),
            0 <= i <= n,
            0 <= k,
            bars@.len() == k,
            range_min == bin_low(k, lo, w),
            range_max == bin_high(k, lo, w),
            frequency == count_in_bin(s.take(i as int), lo, w, k),
            k > 0 ==> i > 0 && bin_low(k, lo, w) < s[i - 1],
            i > 0 ==> bin_index(s[i - 1] as int, lo, w) == k,
            forall|j: int|
                0 <= j < k ==> (#[trigger] bars@[j])@ == (BarModel {
                    representative: bin_mid(j, lo, w),
                    frequency: count_in_bin(s.take(i as int), lo, w, j),
                }),
            forall|j: int| j > k ==> count_in_bin(s.take(i as int), lo, w, j) == 0,
        decreases n - i,
    {
        let v = sorted[i];
        assert(s[0] <= v <= s.last());
        while v > range_max
            invariant
                s == sorted@,
                n == s.len(),
                lo == low as int,
                lo == s.first() as int,
                w == width as int,
                sweepable(s, w),
                0 <= i < n,
                v == s[i as int],
                0 <= k,
                bars@.len() == k,
                range_min == bin_low(k, lo, w),
                range_max == bin_high(k, lo, w),
                frequency == count_in_bin(s.take(i as int), lo, w, k),
                k > 0 ==> bin_low(k, lo, w) < v,
                forall|j: int|
                    0 <= j < k ==> (#[trigger] bars@[j])@ == (BarModel {
                        representative: bin_mid(j, lo, w),
                        frequency: count_in_bin(s.take(i as int), lo, w, j),
                    }),
                forall|j: int| j > k ==> count_in_bin(s.take(i as int), lo, w, j) == 0,
            decreases
                    (if v > range_max {
                        v - range_max
                    } else {
                        0
                    }),
        {
            proof {
                assert(w > 0) by {
                    if w == 0 {
                        assert((k + 1) * 0 == 0) by (nonlinear_arith);
                    }
                }
                assert(bin_high(k + 1, lo, w) == bin_high(k, lo, w) + w) by (nonlinear_arith);
                assert(bin_low(k + 1, lo, w) == bin_high(k, lo, w)) by (nonlinear_arith);
                assert(bin_mid(k, lo, w) == range_min + w / 2);
            }
            bars.push(Bar { representative: range_min + width / 2, frequency });
            range_min = range_max;
            range_max = range_max + width;
            frequency = 0;
            proof {
                k = k + 1;
            }
        }
        proof {
            lemma_count_le_len(s.take(i as int), lo, w, k);
            if k > 0 {
                assert(w > 0) by {
                    if w == 0 {
                        assert(k * 0 == 0) by (nonlinear_arith);
                    }
                }
                lemma_bin_index_unique(v as int, lo, w, k);
            } else {
                assert((0 + 1) * w == w) by (nonlinear_arith);
                assert(0 * w == 0) by (nonlinear_arith);
                if v > lo && w > 0 {
                    lemma_bin_index_unique(v as int, lo, w, 0);
                }
            }
            assert(bin_index(v as int, lo, w) == k);
            assert forall|j: int| true implies count_in_bin(s.take(i + 1), lo, w, j)
                == count_in_bin(s.take(i as int), lo, w, j) + (if j == k {
                1nat
            } else {
                0nat
            }) by {
                lemma_count_step(s, i as int, lo, w, j);
            }
        }
        frequency = frequency + 1;
        i = i + 1;
        assert forall|j: int| j > k implies count_in_bin(s.take(i as int), lo, w, j) == 0 by {
            assert(count_in_bin(s.take(i as int), lo, w, j) == count_in_bin(
                s.take(i - 1),
                lo,
                w,
                j,
            ));
        }
    }
    proof {
        assert(s.take(n as int) =~= s);
        assert(bin_mid(k, lo, w) == range_min + w / 2);
        if k > 0 {
            assert(w > 0) by {
                if w == 0 {
                    assert(k * 0 == 0) by (nonlinear_arith);
                }
            }
        }
    }
    bars.push(Bar { representative: range_min + width / 2, frequency });
    proof {
        assert(models(bars@) =~= bars_of(s, w));
    }
    bars
}

} // verus!
