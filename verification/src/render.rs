//! Rendering a histogram as text: one line per bar, and a legend of two lines.

use vstd::prelude::*;
use crate::bins::models;
use crate::bins::Bar;
use crate::bins::BarModel;
use crate::decimal::power_of_ten;
use crate::decimal::MAX_SCALE;
use crate::format::digits_of;
use crate::format::fixed_text;
use crate::format::push_digits;
use crate::format::push_fixed;
use crate::format::push_repeated;
use crate::format::repeated;
use crate::format::unit_ticks;
use crate::format::MAX_PLACES;
use crate::histogram::Histgram;
use crate::histogram::HistgramModel;
use crate::outside::clamp_between;

verus! {

/// How often a tenth can be taken of `width` without falling below `unit`.
pub open spec fn steps_down(width: nat, unit: nat) -> nat
    decreases width,
{
    if unit > 0 && width / 10 >= unit {
        1 + steps_down(width / 10, unit)
    } else {
        0
    }
}

/// How often `width` must be taken tenfold to reach `unit`, counted up to `limit`.
pub open spec fn steps_up(width: nat, unit: nat, limit: nat) -> nat
    decreases limit,
{
    if limit == 0 || width >= unit {
        0
    } else {
        1 + steps_up(width * 10, unit, (limit - 1) as nat)
    }
}

/// The least exponent `k` for which `width * 10^k` reaches `unit`, which is
/// the negated decimal logarithm of `width / unit`, rounded up; counted up
/// to sixteen, beyond which it makes no difference to the precision.
pub open spec fn magnitude(width: nat, unit: nat) -> int {
    if width >= unit {
        -(steps_down(width, unit) as int)
    } else {
        steps_up(width, unit, MAX_PLACES as nat) as int
    }
}

/// Number of decimal places that the representatives are written with: one
/// more than the magnitude of the bin width, but at least none and at most sixteen.
pub open spec fn precision(width: nat, unit: nat) -> nat {
    let wanted = magnitude(width, unit) + 1;
    if wanted < 0 {
        0
    } else if wanted > MAX_PLACES {
        MAX_PLACES as nat
    } else {
        wanted as nat
    }
}

/// Finds the number of decimal places for a bin width in ticks at a scale.
pub fn display_precision(width: i128, scale: u8) -> (places: u8)
    requires
        0 <= width,
        scale <= MAX_SCALE,
    ensures
        places == precision(width as nat, unit_ticks(scale as nat)),
        places <= MAX_PLACES,
{
    let unit: i128 = 60 * (power_of_ten(scale) as i128);
    let mut k: i128 = 0;
    if width >= unit {
        let mut rest: i128 = width;
        while rest / 10 >= unit
            invariant
                unit > 0,
                0 <= rest <= width,
                0 <= k <= width - rest,
                steps_down(width as nat, unit as nat) == k + steps_down(rest as nat, unit as nat),
            decreases rest,
        {
            rest = rest / 10;
            k = k + 1;
        }
        k = -k;
    } else {
        let mut grown: i128 = width;
        while k < 16 && grown < unit
            invariant
                0 <= k <= 16,
                0 <= grown,
                unit <= 60_000_000_000_000_000_000,
                steps_up(width as nat, unit as nat, 16) == k + steps_up(
                    grown as nat,
                    unit as nat,
                    (16 - k) as nat,
                ),
            decreases 16 - k,
        {
            grown = grown * 10;
            k = k + 1;
        }
    }
    let places = clamp_between(k + 1, 0, 16);
    places as u8
}

/// Number of fill characters for a frequency: the share of the largest
/// frequency that it makes, taken of the largest bar length and rounded down.
pub open spec fn bar_length(frequency: nat, max_freq: nat, max_bar_length: nat) -> nat {
    frequency * max_bar_length / max_freq
}

/// Scales a frequency to the length of its bar.
pub fn calculate_bar_length(frequency: u64, max_freq: u64, max_bar_length: usize) -> (length: usize)
    requires
        0 < max_freq,
        frequency <= max_freq,
    ensures
        length == bar_length(frequency as nat, max_freq as nat, max_bar_length as nat),
        length <= max_bar_length,
{
    assert(frequency * max_bar_length <= 0xffff_ffff_ffff_ffff * 0xffff_ffff_ffff_ffff)
        by (nonlinear_arith)
        requires
            0 <= frequency <= 0xffff_ffff_ffff_ffff,
            0 <= max_bar_length <= 0xffff_ffff_ffff_ffff,
    ;
    let product: u128 = (frequency as u128) * (max_bar_length as u128);
    assert(frequency * max_bar_length <= max_freq * max_bar_length) by (nonlinear_arith)
        requires
            frequency <= max_freq,
            max_bar_length >= 0,
    ;
    assert((frequency * max_bar_length) / (max_freq as int) <= max_bar_length) by (nonlinear_arith)
        requires
            frequency * max_bar_length <= max_freq * max_bar_length,
            max_freq > 0,
    ;
    (product / (max_freq as u128)) as usize
}

/// The largest frequency among the bars.
pub open spec fn max_frequency(bars: Seq<BarModel>) -> nat
    decreases bars.len(),
{
    if bars.len() == 0 {
        0
    } else {
        let rest = max_frequency(bars.drop_last());
        if bars.last().frequency > rest {
            bars.last().frequency
        } else {
            rest
        }
    }
}

/// No bar has a frequency above the largest.
pub proof fn lemma_max_frequency_bounds(bars: Seq<BarModel>, i: int)
    requires
        0 <= i < bars.len(),
    ensures
        bars[i].frequency <= max_frequency(bars),
    decreases bars.len(),
{
    if i < bars.len() - 1 {
        lemma_max_frequency_bounds(bars.drop_last(), i);
    }
}

/// The representative of a bar as it is written.
pub open spec fn label_of(bar: BarModel, scale: nat, places: nat) -> Seq<char> {
    fixed_text(bar.representative, unit_ticks(scale), places)
}

/// Width of the column of representatives: the length of the longest label.
pub open spec fn column_width(bars: Seq<BarModel>, scale: nat, places: nat) -> nat
    decreases bars.len(),
{
    if bars.len() == 0 {
        0
    } else {
        let rest = column_width(bars.drop_last(), scale, places);
        let own = label_of(bars.last(), scale, places).len();
        if own > rest {
            own
        } else {
            rest
        }
    }
}

/// No label is longer than the column is wide.
pub proof fn lemma_column_width_bounds(bars: Seq<BarModel>, scale: nat, places: nat, i: int)
    requires
        0 <= i < bars.len(),
    ensures
        label_of(bars[i], scale, places).len() <= column_width(bars, scale, places),
    decreases bars.len(),
{
    if i < bars.len() - 1 {
        lemma_column_width_bounds(bars.drop_last(), scale, places, i);
    }
}

/// How a histogram is laid out: the column of the labels, their decimal
/// places, and the scaling of the bars.
pub struct Layout {
    pub scale: nat,
    pub places: nat,
    pub column: nat,
    pub max_freq: nat,
    pub max_bar_length: nat,
}

/// The line of one bar: its label, right-aligned in the column, a stroke,
/// and the bar of asterisks.
pub open spec fn bar_line(bar: BarModel, layout: Layout) -> Seq<char> {
    let label = label_of(bar, layout.scale, layout.places);
    repeated(' ', (layout.column - label.len()) as nat) + label + seq!['|'] + repeated(
        '*',
        bar_length(bar.frequency, layout.max_freq, layout.max_bar_length),
    )
}

/// The lines of the bars, each ended by a line feed.
pub open spec fn body_text(bars: Seq<BarModel>, layout: Layout) -> Seq<char>
    decreases bars.len(),
{
    if bars.len() == 0 {
        Seq::empty()
    } else {
        body_text(bars.drop_last(), layout) + bar_line(bars.last(), layout) + seq!['\n']
    }
}

/// A line of the legend: a ruler of `dashes` dashes under the bars, and
/// the frequency that a bar of that length stands for.
pub open spec fn legend_line(column: nat, dashes: nat, count: nat) -> Seq<char> {
    repeated(' ', column) + seq!['+'] + repeated('-', dashes) + seq!['+', ' '] + digits_of(count)
        + seq![' ', 't', 'i', 'm', 'e', 's']
}

/// The layout of a histogram that has bars.
pub open spec fn layout_of(histogram: HistgramModel, max_bar_length: nat) -> Layout {
    let places = precision(histogram.bin.unwrap() as nat, unit_ticks(histogram.scale));
    Layout {
        scale: histogram.scale,
        places,
        column: column_width(histogram.bars, histogram.scale, places),
        max_freq: max_frequency(histogram.bars),
        max_bar_length,
    }
}

/// The text of a histogram: nothing for no bars; else the lines of the
/// bars, a legend line for the largest frequency, as long as its bar, and one
/// for half of that frequency, half as long; the lines are separated by
/// line feeds, and none ends the text.
pub open spec fn rendered(histogram: HistgramModel, max_bar_length: nat) -> Seq<char> {
    if histogram.bars.len() == 0 {
        Seq::empty()
    } else {
        let layout = layout_of(histogram, max_bar_length);
        body_text(histogram.bars, layout) + legend_line(
            layout.column,
            bar_length(layout.max_freq, layout.max_freq, max_bar_length),
            layout.max_freq,
        ) + seq!['\n'] + legend_line(layout.column, max_bar_length / 2, layout.max_freq / 2)
    }
}

/// Finds the largest frequency among the bars.
fn largest_frequency(bars: &Vec<Bar>) -> (top: u64)
    ensures
        top == max_frequency(models(bars@)),
{
    let mut top: u64 = 0;
    let mut i: usize = 0;
    while i < bars.len()
        invariant
            i <= bars.len(),
            top == max_frequency(models(bars@).take(i as int)),
        decreases bars.len() - i,
    {
        proof {
            let now = models(bars@).take(i + 1);
            assert(now.drop_last() =~= models(bars@).take(i as int));
            assert(now.last() == bars@[i as int]@);
        }
        if bars[i].frequency > top {
            top = bars[i].frequency;
        }
        i = i + 1;
    }
    proof {
        assert(models(bars@).take(bars.len() as int) =~= models(bars@));
    }
    top
}

/// Writes the label of a bar.
fn label(bar: &Bar, scale: u8, places: u8) -> (text: String)
    requires
        scale <= MAX_SCALE,
        places <= MAX_PLACES,
    ensures
        text@ == label_of(bar@, scale as nat, places as nat),
{
    let mut text = String::new();
    push_fixed(&mut text, bar.representative, scale, places);
    assert(text@ =~= label_of(bar@, scale as nat, places as nat));
    text
}

/// Finds the length of the longest label.
fn widest_label(bars: &Vec<Bar>, scale: u8, places: u8) -> (column: usize)
    requires
        scale <= MAX_SCALE,
        places <= MAX_PLACES,
    ensures
        column == column_width(models(bars@), scale as nat, places as nat),
{
    let mut column: usize = 0;
    let mut i: usize = 0;
    while i < bars.len()
        invariant
            i <= bars.len(),
            scale <= MAX_SCALE,
            places <= MAX_PLACES,
            column == column_width(models(bars@).take(i as int), scale as nat, places as nat),
        decreases bars.len() - i,
    {
        proof {
            let now = models(bars@).take(i + 1);
            assert(now.drop_last() =~= models(bars@).take(i as int));
            assert(now.last() == bars@[i as int]@);
        }
        let text = label(&bars[i], scale, places);
        let own = text.as_str().unicode_len();
        if own > column {
            column = own;
        }
        i = i + 1;
    }
    proof {
        assert(models(bars@).take(bars.len() as int) =~= models(bars@));
    }
    column
}

/// Appends a line of the legend.
fn push_legend(out: &mut String, column: usize, dashes: usize, count: u64)
    ensures
        final(out)@ == old(out)@ + legend_line(column as nat, dashes as nat, count as nat),
{
    let ghost before = out@;
    proof {
        reveal_strlit(" ");
        reveal_strlit("+");
        reveal_strlit("-");
        reveal_strlit("+ ");
        reveal_strlit(" times");
    }
    push_repeated(out, " ", column);
    out.append("+");
    push_repeated(out, "-", dashes);
    out.append("+ ");
    push_digits(out, count as u128);
    out.append(" times");
    assert(out@ =~= before + legend_line(column as nat, dashes as nat, count as nat));
}

/// Renders the histogram: one line per bar, in the order of the bars, and
/// two lines of legend.
pub fn present_histogram(histogram: &Histgram, max_bar_length: usize) -> (text: String)
    ensures
        text@ == rendered(histogram@, max_bar_length as nat),
{
    let bars = histogram.bars();
    let mut out = String::new();
    if bars.len() == 0 {
        return out;
    }
    proof {
        use_type_invariant(histogram);
        lemma_max_frequency_bounds(models(bars@), bars@.len() - 1);
    }
    let scale = histogram.scale();
    let width = match histogram.bin() {
        Some(width) => width,
        None => 0,
    };
    let places = display_precision(width, scale);
    let top = largest_frequency(bars);
    let column = widest_label(bars, scale, places);
    let ghost layout = layout_of(histogram@, max_bar_length as nat);
    let mut i: usize = 0;
    while i < bars.len()
        invariant
            i <= bars.len(),
            scale <= MAX_SCALE,
            places <= MAX_PLACES,
            top > 0,
            models(bars@) == histogram@.bars,
            layout == (Layout {
                scale: scale as nat,
                places: places as nat,
                column: column as nat,
                max_freq: top as nat,
                max_bar_length: max_bar_length as nat,
            }),
            layout.column == column_width(models(bars@), scale as nat, places as nat),
            layout.max_freq == max_frequency(models(bars@)),
            out@ == body_text(models(bars@).take(i as int), layout),
        decreases bars.len() - i,
    {
        let ghost before = out@;
        proof {
            let now = models(bars@).take(i + 1);
            assert(now.drop_last() =~= models(bars@).take(i as int));
            assert(now.last() == bars@[i as int]@);
            lemma_column_width_bounds(models(bars@), scale as nat, places as nat, i as int);
            lemma_max_frequency_bounds(models(bars@), i as int);
            reveal_strlit(" ");
            reveal_strlit("|");
            reveal_strlit("*");
            reveal_strlit("\n");
        }
        let text = label(&bars[i], scale, places);
        let own = text.as_str().unicode_len();
        push_repeated(&mut out, " ", column - own);
        out.append(text.as_str());
        out.append("|");
        push_repeated(&mut out, "*", calculate_bar_length(bars[i].frequency, top, max_bar_length));
        out.append("\n");
        proof {
            assert(out@ =~= before + bar_line(bars@[i as int]@, layout) + seq!['\n']);
        }
        i = i + 1;
    }
    proof {
        assert(models(bars@).take(bars.len() as int) =~= models(bars@));
        reveal_strlit("\n");
    }
    push_legend(&mut out, column, calculate_bar_length(top, top, max_bar_length), top);
    out.append("\n");
    push_legend(&mut out, column, max_bar_length / 2, top / 2);
    proof {
        assert(out@ =~= rendered(histogram@, max_bar_length as nat));
    }
    out
}

} // verus!
