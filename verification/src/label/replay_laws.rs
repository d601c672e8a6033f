//! What holds of every replay.
use super::bsp::{bsp_next, zones, BiView, BspView, Direction, ZsView};
use super::bsp_laws::{
    are_central_zones, confirms_a_high, confirms_a_low, law_buy_points_have_a_reason,
    law_confirmed_points_are_remembered, law_sell_points_have_a_reason,
    law_zones_are_the_central_zones, leaves_downward, leaves_upward, stays_above, stays_below,
};
use super::csv_reader::{all_bars, are_tagged, Layout};
use super::czsc::{bar_views, fractals, strokes, BarView, Mark};
use super::czsc_label::{extracted, labels_of, merged, no_labels, ChanLabel, TfView};
use super::outlook::FutureReturn;
use super::parquet_out::{cell, COLUMNS};
use super::replay::{
    factor_of, is_label, is_step, last_rise, memory_at, point_at, points_among, replayable,
    seen_bars, step_of, strength_at,
    stroke_forms, strokes_at, tf_label,
};
use crate::number::{absolute, Double};
use crate::single::single;
use czsc_core::objects::bar::RawBar;
use czsc_core::objects::freq::Freq;
use vstd::prelude::*;

verus! {

proof fn lemma_step_bound(k: int, i: int)
    requires
        0 <= k < 8,
        0 <= i,
    ensures
        factor_of(k) >= 1,
        0 <= step_of(k, i),
        k == 0 ==> step_of(k, i) == i,
        k > 0 ==> step_of(k, i) * factor_of(k) <= i,
        is_step(k, i) && i > 0 && k > 0 ==> step_of(k, i) == step_of(k, i - 1) + 1,
        !is_step(k, i) ==> i > 0 && step_of(k, i) == step_of(k, i - 1),
{
    let f = factor_of(k);
    assert(f == 1 || f == 5 || f == 15 || f == 30 || f == 60 || f == 240 || f == 1440 || f
        == 10080);
    if k > 0 {
        vstd::arithmetic::div_mod::lemma_fundamental_div_mod(i, f);
        vstd::arithmetic::mul::lemma_mul_is_commutative(i / f, f);
        vstd::arithmetic::div_mod::lemma_div_pos_is_pos(i, f);
        if i > 0 {
            let a = (i - 1) / f;
            let r = (i - 1) % f;
            vstd::arithmetic::div_mod::lemma_fundamental_div_mod(i - 1, f);
            vstd::arithmetic::mul::lemma_mul_is_commutative(a, f);
            if r + 1 < f {
                vstd::arithmetic::div_mod::lemma_fundamental_div_mod_converse(i, f, a, r + 1);
            } else {
                assert((a + 1) * f == a * f + f) by (nonlinear_arith);
                vstd::arithmetic::div_mod::lemma_fundamental_div_mod_converse(i, f, a + 1, 0);
            }
        }
    }
}

proof fn lemma_seen_bars_agree(a: Seq<BarView>, b: Seq<BarView>, k: int, n: int, step: int)
    requires
        0 <= k < 8,
        0 <= n < a.len(),
        0 <= n < b.len(),
        a.take(n + 1) == b.take(n + 1),
        0 <= step <= step_of(k, n),
    ensures
        seen_bars(a, k, step) == seen_bars(b, k, step),
{
    lemma_step_bound(k, n);
    let f = factor_of(k);
    if k == 0 {
        assert(a.take(step + 1) =~= a.take(n + 1).take(step + 1));
        assert(b.take(step + 1) =~= b.take(n + 1).take(step + 1));
    } else {
        assert forall|q: int| 0 <= q < step implies seen_bars(a, k, step)[q] == seen_bars(
            b,
            k,
            step,
        )[q] by {
            assert((q + 1) * f <= step_of(k, n) * f) by (nonlinear_arith)
                requires
                    q + 1 <= step_of(k, n),
                    f >= 1,
            ;
            assert(0 <= q * f <= (q + 1) * f) by (nonlinear_arith)
                requires
                    0 <= q,
                    f >= 1,
            ;
            let from = 1 + q * f;
            let to = 1 + (q + 1) * f;
            assert(a.subrange(from, to) =~= a.take(n + 1).subrange(from, to));
            assert(b.subrange(from, to) =~= b.take(n + 1).subrange(from, to));
        }
        assert(seen_bars(a, k, step) =~= seen_bars(b, k, step));
    }
}

proof fn lemma_rises_agree(a: Seq<BarView>, b: Seq<BarView>, limit: nat, k: int, n: int, step: int)
    requires
        0 <= k < 8,
        0 <= n < a.len(),
        0 <= n < b.len(),
        a.take(n + 1) == b.take(n + 1),
        0 <= step <= step_of(k, n),
    ensures
        last_rise(a, limit, k, step) == last_rise(b, limit, k, step),
        0 <= last_rise(a, limit, k, step) <= step,
    decreases step,
{
    if step > 0 {
        lemma_seen_bars_agree(a, b, k, n, step);
        lemma_seen_bars_agree(a, b, k, n, step - 1);
        lemma_rises_agree(a, b, limit, k, n, step - 1);
    }
}

proof fn lemma_memories_agree(a: Seq<BarView>, b: Seq<BarView>, limit: nat, n: int, i: int)
    requires
        0 <= n < a.len(),
        0 <= n < b.len(),
        a.take(n + 1) == b.take(n + 1),
        0 <= i <= n,
    ensures
        memory_at(a, limit, i) == memory_at(b, limit, i),
    decreases i,
{
    if i > 0 {
        lemma_seen_bars_agree(a, b, 0, n, i);
        lemma_seen_bars_agree(a, b, 0, n, i - 1);
        lemma_memories_agree(a, b, limit, n, i - 1);
    }
}

/// No label of structure looks ahead: two histories that agree up to a bar
/// give that bar the same labels, whatever comes after it.
pub proof fn law_structure_does_not_look_ahead(
    a: Seq<BarView>,
    b: Seq<BarView>,
    limit: nat,
    k: int,
    i: int,
)
    requires
        0 <= k < 8,
        1 <= i < a.len(),
        i < b.len(),
        a.take(i + 1) == b.take(i + 1),
    ensures
        tf_label(a, limit, k, i) == tf_label(b, limit, k, i),
        strength_at(a, limit, 0, i) == strength_at(b, limit, 0, i),
        point_at(a, limit, i) == point_at(b, limit, i),
{
    lemma_step_bound(k, i);
    lemma_step_bound(0, i);
    let step = step_of(k, i);
    lemma_seen_bars_agree(a, b, k, i, step);
    if step > 0 {
        lemma_seen_bars_agree(a, b, k, i, step - 1);
    }
    lemma_rises_agree(a, b, limit, k, i, step);
    lemma_rises_agree(a, b, limit, 0, i, i);
    lemma_seen_bars_agree(a, b, 0, i, i);
    lemma_seen_bars_agree(a, b, 0, i, i - 1);
    lemma_seen_bars_agree(a, b, 0, i, last_rise(a, limit, 0, i));
    lemma_memories_agree(a, b, limit, i, i - 1);
    if k > 0 && is_step(k, i) {
        assert(step > 0);
    }
}

/// The labels of a timeframe keep within their ranges, and a bar completes a
/// top or a bottom, not both.
pub proof fn law_labels_are_flags(bars: Seq<BarView>, limit: nat, k: int, i: int)
    ensures
        tf_label(bars, limit, k, i).has_top <= 1,
        tf_label(bars, limit, k, i).has_bottom <= 1,
        tf_label(bars, limit, k, i).bi_dir <= 1,
        tf_label(bars, limit, k, i).has_top == 0 || tf_label(bars, limit, k, i).has_bottom == 0,
        point_at(bars, limit, i) <= 2,
{
}

/// Between two of its own bars a timeframe stands still: no top and no bottom
/// form, and its direction and its number of zones stay.
pub proof fn law_timeframe_stands_still_between_its_bars(
    bars: Seq<BarView>,
    limit: nat,
    k: int,
    i: int,
)
    requires
        0 <= k < 8,
        1 <= i,
        !is_step(k, i),
    ensures
        tf_label(bars, limit, k, i).has_top == 0,
        tf_label(bars, limit, k, i).has_bottom == 0,
        tf_label(bars, limit, k, i).bi_dir == tf_label(bars, limit, k, i - 1).bi_dir,
        tf_label(bars, limit, k, i).zs == tf_label(bars, limit, k, i - 1).zs,
{
    lemma_step_bound(k, i);
}

/// Until a longer timeframe has its first bar, it has no labels.
pub proof fn law_no_labels_before_the_first_bar(bars: Seq<BarView>, limit: nat, k: int, i: int)
    requires
        1 <= k < 8,
        1 <= i < factor_of(k),
    ensures
        tf_label(bars, limit, k, i) == no_labels(),
{
    vstd::arithmetic::div_mod::lemma_basic_div(i, factor_of(k));
    lemma_step_bound(k, i);
    assert(seen_bars(bars, k, 0) =~= Seq::empty());
    assert(strokes_at(bars, limit, k, 0).len() == 0);
    assert(zones(strokes_at(bars, limit, k, 0)).len() == 0);
    if is_step(k, i) {
        vstd::arithmetic::div_mod::lemma_small_mod(i as nat, factor_of(k) as nat);
    }
}

proof fn lemma_rise_stays(bars: Seq<BarView>, limit: nat, k: int, step: int, later: int)
    requires
        step <= later,
        last_rise(bars, limit, k, step) > 0,
    ensures
        last_rise(bars, limit, k, later) > 0,
    decreases later - step,
{
    if step < later {
        lemma_rise_stays(bars, limit, k, step, later - 1);
    }
}

/// Once a timeframe has been told of an upward stroke, its direction stays 1.
pub proof fn law_direction_stays(bars: Seq<BarView>, limit: nat, k: int, i: int, j: int)
    requires
        0 <= k < 8,
        0 <= i <= j,
        tf_label(bars, limit, k, i).bi_dir == 1,
    ensures
        tf_label(bars, limit, k, j).bi_dir == 1,
{
    lemma_step_bound(k, i);
    lemma_step_bound(k, j);
    if k > 0 {
        vstd::arithmetic::div_mod::lemma_div_is_ordered(i, j, factor_of(k));
    }
    lemma_rise_stays(bars, limit, k, step_of(k, i), step_of(k, j));
}

/// Only a bar that completes a stroke is a point at which to buy or sell.
pub proof fn law_points_complete_a_stroke(bars: Seq<BarView>, limit: nat, i: int)
    requires
        point_at(bars, limit, i) != 0,
    ensures
        stroke_forms(bars, limit, 0, i),
{
}

/// Whether two labels say the same.
pub open spec fn say_the_same(a: ChanLabel, b: ChanLabel) -> bool {
    &&& a.tf@ == b.tf@
    &&& a.bi_strength@ == b.bi_strength@
    &&& a.is_bsp == b.is_bsp
    &&& a.bsp_direction == b.bsp_direction
    &&& a.next_return == b.next_return
    &&& a.return_label == b.return_label
}

/// The length that bars are said to have changes nothing: two readings of one
/// table under two lengths give bars that hold the same, and labels and cells
/// that are the same for the same returns.
pub proof fn law_the_length_of_bars_changes_no_label(
    a: Seq<RawBar>,
    b: Seq<RawBar>,
    a_freq: Freq,
    b_freq: Freq,
    data: Seq<u8>,
    no_header: bool,
    layout: Layout,
    limit: nat,
    stated: Seq<FutureReturn>,
    a_labels: Seq<ChanLabel>,
    b_labels: Seq<ChanLabel>,
    i: int,
    c: int,
)
    requires
        bar_views(a) == all_bars(data, no_header, layout),
        bar_views(b) == all_bars(data, no_header, layout),
        are_tagged(a, a_freq),
        are_tagged(b, b_freq),
        0 <= i < a.len(),
        is_label(a_labels[i], bar_views(a), limit, i, stated[i]),
        is_label(b_labels[i], bar_views(b), limit, i, stated[i]),
    ensures
        bar_views(a) == bar_views(b),
        say_the_same(a_labels[i], b_labels[i]),
        0 <= c < COLUMNS ==> cell(bar_views(a)[i], a_labels[i], c) == cell(
            bar_views(b)[i],
            b_labels[i],
            c,
        ),
{
    let x = a_labels[i];
    let y = b_labels[i];
    assert(x.tf@ =~= y.tf@) by {
        assert forall|k: int| 0 <= k < 8 implies x.tf@[k] == y.tf@[k] by {}
    }
    if i == 0 {
        assert(x.next_return == y.next_return);
    }
}

/// The strokes that an analyzer shows of some bars; none before the first.
pub open spec fn shown_strokes(fed: Seq<BarView>, limit: nat) -> Seq<BiView> {
    if fed.len() > 0 {
        strokes(fed, limit)
    } else {
        Seq::empty()
    }
}

/// The fractals that an analyzer shows of some bars; none before the first.
pub open spec fn shown_fractals(fed: Seq<BarView>, limit: nat) -> Seq<Mark> {
    if fed.len() > 0 {
        fractals(fed, limit)
    } else {
        Seq::empty()
    }
}

/// How many minutes a bar of a timeframe stands for.
pub open spec fn minutes(k: int) -> int {
    seq![1int, 5, 15, 30, 60, 240, 1440, 10080][k]
}

/// Whether a list holds, step by step, the bars that the analyzer of a timeframe
/// has been shown by the `i`-th bar. The one-minute timeframe is shown every bar
/// from the first on. A longer one is shown one merged bar for every whole run of
/// the bars after the first.
pub open spec fn is_history(
    bars: Seq<BarView>,
    k: int,
    i: int,
    shown: Seq<Seq<BarView>>,
) -> bool {
    let m = minutes(k);
    &&& k == 0 ==> shown.len() == i + 1
    &&& k > 0 ==> m * (shown.len() - 1) <= i < m * shown.len()
    &&& forall|s: int|
        0 <= s < shown.len() && k == 0 ==> #[trigger] shown[s] == bars.subrange(0, s + 1)
    &&& forall|s: int| 0 <= s < shown.len() && k > 0 ==> (#[trigger] shown[s]).len() == s
    &&& forall|s: int, q: int|
        0 <= q < s < shown.len() && k > 0 ==> #[trigger] shown[s][q] == merged(
            bars.subrange(1 + q * m, 1 + q * m + m),
        )
}

/// Whether a step shows more strokes than the one before, the last of them
/// upward.
pub open spec fn rises_at(shown: Seq<Seq<BarView>>, limit: nat, s: int) -> bool {
    let now = shown_strokes(shown[s], limit);
    &&& 1 <= s < shown.len()
    &&& now.len() > shown_strokes(shown[s - 1], limit).len()
    &&& now.last().direction == Direction::Up
}

/// Whether a step shows more fractals than the one before, the last of them of a
/// kind.
pub open spec fn turns_at(shown: Seq<Seq<BarView>>, limit: nat, s: int, mark: Mark) -> bool {
    let now = shown_fractals(shown[s], limit);
    &&& 1 <= s < shown.len()
    &&& now.len() > shown_fractals(shown[s - 1], limit).len()
    &&& now.last() == mark
}

proof fn lemma_history(bars: Seq<BarView>, k: int, i: int, shown: Seq<Seq<BarView>>)
    requires
        0 <= k < 8,
        1 <= i < bars.len(),
        is_history(bars, k, i, shown),
    ensures
        shown.len() == step_of(k, i) + 1,
        forall|s: int| 0 <= s < shown.len() ==> #[trigger] shown[s] == seen_bars(bars, k, s),
{
    let m = minutes(k);
    assert(factor_of(k) == m);
    lemma_step_bound(k, i);
    let step = shown.len() - 1;
    if k > 0 {
        assert(m * shown.len() == m * step + m) by (nonlinear_arith)
            requires
                step == shown.len() - 1,
        ;
        assert(m * step == step * m) by (nonlinear_arith);
        vstd::arithmetic::div_mod::lemma_fundamental_div_mod_converse(i, m, step, i - m * step);
    }
    assert forall|s: int| 0 <= s < shown.len() implies #[trigger] shown[s] == seen_bars(
        bars,
        k,
        s,
    ) by {
        if k == 0 {
            assert(shown[s] =~= bars.take(s + 1));
        } else {
            assert(shown[s].len() == s);
            assert forall|q: int| 0 <= q < s implies shown[s][q] == seen_bars(bars, k, s)[q] by {
                assert((q + 1) * m == q * m + m) by (nonlinear_arith);
                assert(shown[s][q] == merged(bars.subrange(1 + q * m, 1 + q * m + m)));
            }
            assert(shown[s] =~= seen_bars(bars, k, s));
        }
    }
}

/// The number of zones is a count: a bar is labelled, in every timeframe, with
/// how many central zones the strokes have that its analyzer shows by then.
pub proof fn law_zs_counts_the_central_zones(
    label: ChanLabel,
    bars: Seq<BarView>,
    limit: nat,
    i: int,
    stated: FutureReturn,
    k: int,
    shown: Seq<Seq<BarView>>,
    list: Seq<ZsView>,
)
    requires
        0 <= k < 8,
        1 <= i < bars.len(),
        is_label(label, bars, limit, i, stated),
        is_history(bars, k, i, shown),
        are_central_zones(shown_strokes(shown.last(), limit), list),
        list.len() <= usize::MAX,
    ensures
        label.tf@[k].zs == list.len(),
{
    lemma_history(bars, k, i, shown);
    lemma_step_bound(k, i);
    assert(label.tf@[k] == tf_label(bars, limit, k, i));
    assert(shown.last() == seen_bars(bars, k, step_of(k, i)));
    law_zones_are_the_central_zones(shown_strokes(shown.last(), limit), list);
}

/// The count of a timeframe by itself: what `extract` gives is how many central
/// zones the strokes have that the analyzer shows.
pub proof fn law_extracted_zs_counts_the_central_zones(tf: TfView, list: Seq<ZsView>)
    requires
        are_central_zones(shown_strokes(tf.fed, tf.limit), list),
        list.len() <= usize::MAX,
    ensures
        labels_of(tf).zs == list.len(),
{
    law_zones_are_the_central_zones(shown_strokes(tf.fed, tf.limit), list);
}

/// What else a timeframe by itself gives: a top or a bottom where there are more
/// fractals than were seen, by the kind of the last; the direction 1 from an
/// upward stroke on that came with more strokes than were seen, and its size.
/// After that everything that is there has been seen.
pub proof fn law_extracted_labels_tell_what_is_new(tf: TfView)
    requires
        tf.fed.len() > 0,
        tf.running_dir <= 1,
    ensures
        ({
            let labels = labels_of(tf);
            let next = extracted(tf);
            let marks = fractals(tf.fed, tf.limit);
            let bis = strokes(tf.fed, tf.limit);
            let turned = marks.len() > tf.seen_fractals;
            let rose = bis.len() > tf.seen_strokes && bis.last().direction == Direction::Up;
            &&& labels.has_top == 1 <==> turned && marks.last() == Mark::G
            &&& labels.has_bottom == 1 <==> turned && marks.last() == Mark::D
            &&& labels.has_top <= 1 && labels.has_bottom <= 1
            &&& labels.bi_dir == next.running_dir
            &&& next.running_dir == 1 <==> rose || tf.running_dir == 1
            &&& rose ==> next.running_strength == single(absolute(bis.last().change))
            &&& !rose ==> next.running_dir == tf.running_dir && next.running_strength
                == tf.running_strength
            &&& next.seen_fractals == marks.len() && next.seen_strokes == bis.len()
            &&& next.fed == tf.fed && next.tags == tf.tags && next.pending == tf.pending
            &&& next.name == tf.name && next.factor == tf.factor && next.limit == tf.limit
        }),
{
}

/// A top or a bottom is labelled at the bar that brings the timeframe a bar and
/// with it more fractals than before, by the kind of the last; at no other bar.
pub proof fn law_tops_and_bottoms_are_labelled_when_they_form(
    label: ChanLabel,
    bars: Seq<BarView>,
    limit: nat,
    i: int,
    stated: FutureReturn,
    k: int,
    shown: Seq<Seq<BarView>>,
)
    requires
        0 <= k < 8,
        1 <= i < bars.len(),
        is_label(label, bars, limit, i, stated),
        is_history(bars, k, i, shown),
    ensures
        ({
            let s = shown.len() - 1;
            let brings = k == 0 || i == minutes(k) * s;
            &&& label.tf@[k].has_top == 1 <==> brings && turns_at(shown, limit, s, Mark::G)
            &&& label.tf@[k].has_bottom == 1 <==> brings && turns_at(shown, limit, s, Mark::D)
            &&& label.tf@[k].has_top <= 1 && label.tf@[k].has_bottom <= 1
        }),
{
    lemma_history(bars, k, i, shown);
    lemma_step_bound(k, i);
    assert(label.tf@[k] == tf_label(bars, limit, k, i));
    let s = shown.len() - 1;
    let m = minutes(k);
    assert(factor_of(k) == m);
    if k > 0 {
        vstd::arithmetic::div_mod::lemma_fundamental_div_mod(i, m);
        if is_step(k, i) {
            assert(i == m * s);
            assert(s >= 1) by {
                if s <= 0 {
                    assert(m * s <= 0) by (nonlinear_arith)
                        requires
                            s <= 0,
                            m > 0,
                    ;
                }
            }
        }
    }
    if s >= 1 {
        assert(shown[s] == seen_bars(bars, k, s));
        assert(shown[s - 1] == seen_bars(bars, k, s - 1));
    }
}

proof fn lemma_last_rise(
    bars: Seq<BarView>,
    limit: nat,
    k: int,
    shown: Seq<Seq<BarView>>,
    step: int,
)
    requires
        0 <= step < shown.len(),
        forall|s: int| 0 <= s < shown.len() ==> #[trigger] shown[s] == seen_bars(bars, k, s),
    ensures
        ({
            let at = last_rise(bars, limit, k, step);
            &&& 0 <= at <= step
            &&& at > 0 ==> rises_at(shown, limit, at)
            &&& forall|s: int| at < s <= step ==> !#[trigger] rises_at(shown, limit, s)
        }),
    decreases step,
{
    if step > 0 {
        assert(shown[step] == seen_bars(bars, k, step));
        assert(shown[step - 1] == seen_bars(bars, k, step - 1));
        lemma_last_rise(bars, limit, k, shown, step - 1);
        let now = strokes_at(bars, limit, k, step);
        assert(now == shown_strokes(shown[step], limit));
        assert(strokes_at(bars, limit, k, step - 1) == shown_strokes(shown[step - 1], limit));
    }
}

/// The direction is 1 if and only if some step up to the bar showed more strokes
/// than the one before it, the last of them upward; 0 otherwise.
pub proof fn law_direction_is_that_of_a_rise(
    label: ChanLabel,
    bars: Seq<BarView>,
    limit: nat,
    i: int,
    stated: FutureReturn,
    k: int,
    shown: Seq<Seq<BarView>>,
)
    requires
        0 <= k < 8,
        1 <= i < bars.len(),
        is_label(label, bars, limit, i, stated),
        is_history(bars, k, i, shown),
    ensures
        label.tf@[k].bi_dir == 1 <==> exists|s: int| rises_at(shown, limit, s),
        label.tf@[k].bi_dir <= 1,
{
    lemma_history(bars, k, i, shown);
    lemma_step_bound(k, i);
    assert(label.tf@[k] == tf_label(bars, limit, k, i));
    lemma_last_rise(bars, limit, k, shown, shown.len() - 1);
}

/// The strength is that of the last stroke at the last such step of the
/// one-minute timeframe: the size of its change in single precision. Before the
/// first it is zero.
pub proof fn law_strength_is_that_of_the_last_rise(
    label: ChanLabel,
    bars: Seq<BarView>,
    limit: nat,
    i: int,
    stated: FutureReturn,
    shown: Seq<Seq<BarView>>,
    at: int,
)
    requires
        1 <= i < bars.len(),
        is_label(label, bars, limit, i, stated),
        is_history(bars, 0, i, shown),
    ensures
        rises_at(shown, limit, at) && (forall|s: int| at < s ==> !#[trigger] rises_at(
            shown,
            limit,
            s,
        )) ==> label.bi_strength@ == single(
            absolute(shown_strokes(shown[at], limit).last().change),
        ),
        (forall|s: int| !#[trigger] rises_at(shown, limit, s)) ==> label.bi_strength@ == Some(0int),
{
    lemma_history(bars, 0, i, shown);
    lemma_step_bound(0, i);
    lemma_last_rise(bars, limit, 0, shown, shown.len() - 1);
    let last = last_rise(bars, limit, 0, i);
    if last > 0 {
        assert(shown[last] == seen_bars(bars, 0, last));
    }
}

/// Whether the memory of a search for points went one step: strokes that came
/// with more than before and confirm a low or a high are remembered by the place
/// of the last, and anything else leaves it as it was.
pub open spec fn is_next_memory(
    before: BspView,
    bis: Seq<BiView>,
    new_bi: bool,
    zones_before: Seq<ZsView>,
    after: BspView,
) -> bool {
    let buy = is_buy_point(before, bis, zones_before);
    if new_bi && bis.len() >= 4 && confirms_a_low(bis) {
        after == (BspView { buy: Some(bis.len() - 1), sell: None })
    } else if new_bi && bis.len() >= 4 && confirms_a_high(bis) && !buy {
        after == (BspView { buy: None, sell: Some(bis.len() - 1) })
    } else {
        after == before
    }
}

/// Whether strokes are a point at which to buy.
pub open spec fn is_buy_point(memory: BspView, bis: Seq<BiView>, zones_before: Seq<ZsView>) -> bool {
    confirms_a_low(bis) || (bis.last().direction == Direction::Down && (stays_above(bis, memory.buy)
        || leaves_upward(zones_before, bis.last())))
}

/// Whether strokes are a point at which to sell, but for one at which to buy.
pub open spec fn is_sell_point(
    memory: BspView,
    bis: Seq<BiView>,
    zones_before: Seq<ZsView>,
) -> bool {
    confirms_a_high(bis) || (bis.last().direction == Direction::Up && (stays_below(bis, memory.sell)
        || leaves_downward(zones_before, bis.last())))
}

/// Whether a list of memories and of zones follows the one-minute timeframe from
/// its first bar on: at first nothing is remembered, and each step is one of the
/// memory, with the central zones of all strokes but the last.
pub open spec fn is_memory(
    bars: Seq<BarView>,
    limit: nat,
    i: int,
    memory: Seq<BspView>,
    zones_before: Seq<Seq<ZsView>>,
) -> bool {
    &&& memory.len() == i + 1
    &&& zones_before.len() == i + 1
    &&& memory[0].buy is None && memory[0].sell is None
    &&& forall|j: int|
        0 <= j <= i ==> are_central_zones(
            strokes(bars.subrange(0, j + 1), limit).drop_last(),
            #[trigger] zones_before[j],
        )
    &&& forall|j: int|
        1 <= j <= i ==> is_next_memory(
            memory[j - 1],
            strokes(bars.subrange(0, j + 1), limit),
            strokes(bars.subrange(0, j + 1), limit).len() > strokes(
                bars.subrange(0, j),
                limit,
            ).len(),
            #[trigger] zones_before[j],
            memory[j],
        )
}

proof fn lemma_memory(
    bars: Seq<BarView>,
    limit: nat,
    i: int,
    memory: Seq<BspView>,
    zones_before: Seq<Seq<ZsView>>,
    j: int,
)
    requires
        0 <= j <= i < bars.len(),
        is_memory(bars, limit, i, memory, zones_before),
    ensures
        memory[j] == memory_at(bars, limit, j),
    decreases j,
{
    if j > 0 {
        lemma_memory(bars, limit, i, memory, zones_before, j - 1);
        let bis = strokes(bars.subrange(0, j + 1), limit);
        assert(bars.take(j + 1) =~= bars.subrange(0, j + 1));
        assert(bars.take(j - 1 + 1) =~= bars.subrange(0, j));
        assert(bis == strokes_at(bars, limit, 0, j));
        let new_bi = bis.len() > strokes(bars.subrange(0, j), limit).len();
        assert(new_bi == stroke_forms(bars, limit, 0, j));
        let z = zones_before[j];
        assert(are_central_zones(bis.drop_last(), z));
        law_buy_points_have_a_reason(memory[j - 1], bis, z, new_bi);
        law_sell_points_have_a_reason(memory[j - 1], bis, z, new_bi);
        law_confirmed_points_are_remembered(memory[j - 1], bis, new_bi);
        assert(is_next_memory(memory[j - 1], bis, new_bi, z, memory[j]));
        assert(memory[j] == bsp_next(memory[j - 1], bis, new_bi));
    }
}

/// A bar is labelled as a point at which to buy or to sell if and only if it
/// brings more strokes, four or more in all, that have one of the reasons, with
/// what is remembered from the bars before it; buying goes first.
pub proof fn law_points_are_labelled_by_their_reasons(
    label: ChanLabel,
    bars: Seq<BarView>,
    limit: nat,
    i: int,
    stated: FutureReturn,
    memory: Seq<BspView>,
    zones_before: Seq<Seq<ZsView>>,
)
    requires
        1 <= i < bars.len(),
        is_label(label, bars, limit, i, stated),
        is_memory(bars, limit, i, memory, zones_before),
    ensures
        ({
            let bis = strokes(bars.subrange(0, i + 1), limit);
            let told = bis.len() > strokes(bars.subrange(0, i), limit).len() && bis.len() >= 4;
            let buy = told && is_buy_point(memory[i - 1], bis, zones_before[i]);
            let sell = told && is_sell_point(memory[i - 1], bis, zones_before[i]);
            &&& buy ==> label.bsp_direction == 1 && label.is_bsp == 1
            &&& sell && !buy ==> label.bsp_direction == 2 && label.is_bsp == 1
            &&& !sell && !buy ==> label.bsp_direction == 0 && label.is_bsp == 0
        }),
{
    lemma_memory(bars, limit, i, memory, zones_before, i - 1);
    let bis = strokes(bars.subrange(0, i + 1), limit);
    assert(bars.take(i + 1) =~= bars.subrange(0, i + 1));
    assert(bars.take(i - 1 + 1) =~= bars.subrange(0, i));
    let new_bi = bis.len() > strokes(bars.subrange(0, i), limit).len();
    let z = zones_before[i];
    law_buy_points_have_a_reason(memory[i - 1], bis, z, new_bi);
    law_sell_points_have_a_reason(memory[i - 1], bis, z, new_bi);
}

/// Every bar but the first is labelled with the return that is stated of it; the
/// first has a flat return and nothing else.
pub proof fn law_labels_carry_the_stated_return(
    label: ChanLabel,
    bars: Seq<BarView>,
    limit: nat,
    i: int,
    stated: FutureReturn,
    k: int,
)
    requires
        0 <= k < 8,
        0 <= i,
        is_label(label, bars, limit, i, stated),
    ensures
        i > 0 ==> label.next_return == stated.next_return && label.return_label
            == stated.return_label,
        i == 0 ==> {
            &&& label.next_return == (Double { bits: 0 }) && label.return_label == 1
            &&& label.tf@[k].has_top == 0 && label.tf@[k].has_bottom == 0
            &&& label.tf@[k].bi_dir == 0 && label.tf@[k].zs == 0
            &&& label.is_bsp == 0 && label.bsp_direction == 0 && label.bi_strength@ == Some(0int)
        },
{
    if i == 0 {
        assert(label.tf@[k] == no_labels());
    }
}

/// Every label at a point counts once, and no other does.
pub proof fn law_points_are_counted_one_by_one(labels: Seq<ChanLabel>, n: int)
    requires
        0 <= n < labels.len(),
    ensures
        points_among(labels, 0) == 0,
        labels[n].is_bsp > 0 ==> points_among(labels, n + 1) == points_among(labels, n) + 1,
        labels[n].is_bsp == 0 ==> points_among(labels, n + 1) == points_among(labels, n),
{
}

/// Bars can be replayed if and only if their highs and lows are numbers and each
/// is later than the one before it.
pub proof fn law_replayable_bars_follow_one_another(bars: Seq<BarView>)
    ensures
        replayable(bars) <==> (forall|i: int|
            0 <= i < bars.len() ==> (#[trigger] bars[i]).high is Some && bars[i].low is Some && (i
                > 0 ==> bars[i - 1].time.before(bars[i].time))),
{
    if forall|i: int|
        0 <= i < bars.len() ==> (#[trigger] bars[i]).high is Some && bars[i].low is Some && (i > 0
            ==> bars[i - 1].time.before(bars[i].time)) {
        assert forall|i: int, j: int| 0 <= i < j < bars.len() implies (
        #[trigger] bars[i]).time.before((#[trigger] bars[j]).time) by {
            lemma_times_ascend(bars, i, j);
        }
    }
}

proof fn lemma_times_ascend(bars: Seq<BarView>, i: int, j: int)
    requires
        0 <= i < j < bars.len(),
        forall|i: int|
            0 <= i < bars.len() ==> (#[trigger] bars[i]).high is Some && bars[i].low is Some && (i
                > 0 ==> bars[i - 1].time.before(bars[i].time)),
    ensures
        bars[i].time.before(bars[j].time),
    decreases j - i,
{
    assert(bars[j].high is Some);
    if i + 1 < j {
        lemma_times_ascend(bars, i, j - 1);
    }
}

} // verus!
