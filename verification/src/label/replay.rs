//! The replay: bars are taken one by one, and each gets its labels.
use super::bsp::{bi_views, bsp_direction, bsp_next, zones, BiView, BspState, BspView};
use super::czsc::{
    analyzer_from, bar_view, bar_views, copy_bar, fed_bars, feed, list_fractals, list_strokes,
    read_bar, stroke_limit, BarTag, BarView, Mark,
};
use super::czsc_label::{
    count_zs, detect_bi, detect_fractals, extracted, formed, fractal_list, has_range, labels_of,
    merged, no_labels, pushed, rose, stroke_list, ChanLabel, TfCzsc, TfLabels, TfView, MAX_BI_NUM,
    TIMEFRAMES,
};
use super::outlook::FutureReturn;
use crate::number::{absolute, Double};
use crate::single::single;
use czsc_core::objects::bar::RawBar;
use czsc_core::objects::freq::Freq;
use vstd::prelude::*;

verus! {

/// How many bars make one bar of a timeframe.
pub open spec fn factor_of(k: int) -> int {
    TIMEFRAMES@[k].1 as int
}

/// Which bar of a timeframe the `i`-th bar brings it to: the one-minute
/// timeframe has one for every bar, a longer one has one for every whole run
/// of bars after the first.
pub open spec fn step_of(k: int, i: int) -> int {
    if k == 0 {
        i
    } else {
        i / factor_of(k)
    }
}

/// Whether the `i`-th bar brings a timeframe a new bar.
pub open spec fn is_step(k: int, i: int) -> bool {
    k == 0 || i % factor_of(k) == 0
}

/// The bars that the analyzer of a timeframe has seen at a step. That of the
/// one-minute timeframe starts out with the first bar; a longer one merges the
/// bars after the first, run by run.
pub open spec fn seen_bars(bars: Seq<BarView>, k: int, step: int) -> Seq<BarView> {
    if k == 0 {
        bars.take(step + 1)
    } else {
        Seq::new(
            step as nat,
            |q: int|
                merged(bars.subrange(1 + q * factor_of(k), 1 + (q + 1) * factor_of(k))),
        )
    }
}

/// The strokes of a timeframe at a step.
pub open spec fn strokes_at(bars: Seq<BarView>, limit: nat, k: int, step: int) -> Seq<BiView> {
    stroke_list(seen_bars(bars, k, step), limit)
}

/// The fractals of a timeframe at a step.
pub open spec fn fractals_at(bars: Seq<BarView>, limit: nat, k: int, step: int) -> Seq<Mark> {
    fractal_list(seen_bars(bars, k, step), limit)
}

/// Whether a step brings a timeframe a new stroke, told by the number of its
/// strokes. An analyzer that holds as many as it keeps drops the oldest for a
/// new one: the number stays, and the new stroke is not told.
pub open spec fn stroke_forms(bars: Seq<BarView>, limit: nat, k: int, step: int) -> bool {
    strokes_at(bars, limit, k, step).len() > strokes_at(bars, limit, k, step - 1).len()
}

/// Whether a step brings a timeframe a new fractal, told by the number of its
/// fractals. One that comes as a stroke and its fractals are dropped is not
/// told.
pub open spec fn fractal_forms(bars: Seq<BarView>, limit: nat, k: int, step: int) -> bool {
    fractals_at(bars, limit, k, step).len() > fractals_at(bars, limit, k, step - 1).len()
}

/// The last step at which a timeframe was told to have a new upward stroke; 0
/// for none.
pub open spec fn last_rise(bars: Seq<BarView>, limit: nat, k: int, step: int) -> int
    decreases step,
{
    if step <= 0 {
        0
    } else if rose(strokes_at(bars, limit, k, step), stroke_forms(bars, limit, k, step)) {
        step
    } else {
        last_rise(bars, limit, k, step - 1)
    }
}

/// The strength of the last upward stroke that a timeframe was told to have, in
/// single precision.
pub open spec fn strength_at(bars: Seq<BarView>, limit: nat, k: int, step: int) -> Option<int> {
    let at = last_rise(bars, limit, k, step);
    if at > 0 {
        single(absolute(strokes_at(bars, limit, k, at).last().change))
    } else {
        Some(0int)
    }
}

/// The labels that a timeframe has at the `i`-th bar.
pub open spec fn tf_label(bars: Seq<BarView>, limit: nat, k: int, i: int) -> TfLabels {
    let step = step_of(k, i);
    let marks = fractals_at(bars, limit, k, step);
    let new_fx = is_step(k, i) && fractal_forms(bars, limit, k, step);
    TfLabels {
        has_top: if formed(marks, new_fx, Mark::G) { 1u8 } else { 0u8 },
        has_bottom: if formed(marks, new_fx, Mark::D) { 1u8 } else { 0u8 },
        bi_dir: if last_rise(bars, limit, k, step) > 0 { 1u8 } else { 0u8 },
        zs: zones(strokes_at(bars, limit, k, step)).len() as usize,
    }
}

/// What the search for buy and sell points remembers after the `i`-th bar.
pub open spec fn memory_at(bars: Seq<BarView>, limit: nat, i: int) -> BspView
    decreases i,
{
    if i <= 0 {
        BspView { buy: None, sell: None }
    } else {
        bsp_next(
            memory_at(bars, limit, i - 1),
            strokes_at(bars, limit, 0, i),
            stroke_forms(bars, limit, 0, i),
        )
    }
}

/// Which way the `i`-th bar asks to trade.
pub open spec fn point_at(bars: Seq<BarView>, limit: nat, i: int) -> u8 {
    bsp_direction(
        memory_at(bars, limit, i - 1),
        strokes_at(bars, limit, 0, i),
        stroke_forms(bars, limit, 0, i),
    )
}

/// Whether a label is the one that the `i`-th bar must have: the structure
/// that the bars up to it show, and the return that is stated of it. The
/// first bar has no structure and a flat return.
pub open spec fn is_label(
    label: ChanLabel,
    bars: Seq<BarView>,
    limit: nat,
    i: int,
    stated: FutureReturn,
) -> bool {
    if i == 0 {
        &&& forall|k: int| 0 <= k < 8 ==> #[trigger] label.tf@[k] == no_labels()
        &&& label.bi_strength@ == Some(0int)
        &&& label.is_bsp == 0
        &&& label.bsp_direction == 0
        &&& label.next_return.bits == 0
        &&& label.return_label == 1
    } else {
        &&& forall|k: int| 0 <= k < 8 ==> #[trigger] label.tf@[k] == tf_label(bars, limit, k, i)
        &&& label.bi_strength@ == strength_at(bars, limit, 0, i)
        &&& label.bsp_direction == point_at(bars, limit, i)
        &&& label.is_bsp == (if label.bsp_direction == 0 { 0u8 } else { 1u8 })
        &&& label.next_return == stated.next_return
        &&& label.return_label == stated.return_label
    }
}

/// Whether bars can be replayed: each is later than the one before, and has a
/// high and a low that are numbers.
pub open spec fn replayable(bars: Seq<BarView>) -> bool {
    &&& forall|i: int| 0 <= i < bars.len() ==> has_range(#[trigger] bars[i])
    &&& forall|i: int, j: int|
        0 <= i < j < bars.len() ==> (#[trigger] bars[i]).time.before((#[trigger] bars[j]).time)
}

/// Whether bars can be replayed.
pub fn is_replayable(bars: &[RawBar]) -> (yes: bool)
    ensures
        yes == replayable(bar_views(bars@)),
{
    let ghost views = bar_views(bars@);
    let mut i: usize = 0;
    while i < bars.len()
        invariant
            i <= bars@.len(),
            views == bar_views(bars@),
            forall|j: int| 0 <= j < i ==> has_range(#[trigger] views[j]),
            forall|j: int, k: int|
                0 <= j < k < i ==> (#[trigger] views[j]).time.before((#[trigger] views[k]).time),
        decreases bars@.len() - i,
    {
        let bar = read_bar(&bars[i]);
        assert(bar@ == views[i as int]);
        if bar.high.is_nan() || bar.low.is_nan() {
            assert(!has_range(views[i as int]));
            return false;
        }
        if i > 0 {
            let before = read_bar(&bars[i - 1]);
            assert(before@ == views[i - 1]);
            if !before.time.is_before(bar.time) {
                assert(!views[i - 1].time.before(views[i as int].time));
                return false;
            }
        }
        i += 1;
    }
    true
}

/// What the merged bars of a longer timeframe carry: its name, the length of a
/// tick, and their place among them.
pub open spec fn merged_tags(k: int, step: int) -> Seq<BarTag> {
    Seq::new(
        step as nat,
        |q: int| BarTag { symbol: TIMEFRAMES@[k].0@, freq: Freq::Tick, id: q as i32 },
    )
}

/// A longer timeframe after the `i`-th bar has been taken.
pub open spec fn tf_state(bars: Seq<BarView>, limit: nat, k: int, i: int) -> TfView {
    let step = step_of(k, i);
    TfView {
        name: TIMEFRAMES@[k].0@,
        factor: factor_of(k) as nat,
        limit,
        fed: seen_bars(bars, k, step),
        tags: merged_tags(k, step),
        pending: bars.subrange(1 + step * factor_of(k), i + 1),
        seen_fractals: fractals_at(bars, limit, k, step).len(),
        seen_strokes: strokes_at(bars, limit, k, step).len(),
        running_dir: if last_rise(bars, limit, k, step) > 0 { 1u8 } else { 0u8 },
        running_strength: strength_at(bars, limit, k, step),
    }
}

proof fn lemma_steps(k: int, i: int)
    requires
        1 <= k < 8,
        1 <= i,
    ensures
        factor_of(k) >= 5,
        0 <= step_of(k, i - 1) * factor_of(k) <= i - 1,
        0 <= step_of(k, i) * factor_of(k) <= i,
        i - 1 - step_of(k, i - 1) * factor_of(k) < factor_of(k),
        is_step(k, i) ==> step_of(k, i) == step_of(k, i - 1) + 1 && i == step_of(k, i) * factor_of(
            k,
        ),
        !is_step(k, i) ==> step_of(k, i) == step_of(k, i - 1) && i - step_of(k, i) * factor_of(k)
            < factor_of(k),
        is_step(k, i) <==> i - 1 - step_of(k, i - 1) * factor_of(k) + 1 >= factor_of(k),
{
    let f = factor_of(k);
    assert(f == 5 || f == 15 || f == 30 || f == 60 || f == 240 || f == 1440 || f == 10080);
    let a = (i - 1) / f;
    let b = i / f;
    vstd::arithmetic::div_mod::lemma_fundamental_div_mod(i - 1, f);
    vstd::arithmetic::div_mod::lemma_fundamental_div_mod(i, f);
    vstd::arithmetic::mul::lemma_mul_is_commutative(a, f);
    vstd::arithmetic::mul::lemma_mul_is_commutative(b, f);
    vstd::arithmetic::div_mod::lemma_div_pos_is_pos(i - 1, f);
    let r = (i - 1) % f;
    if r + 1 < f {
        vstd::arithmetic::div_mod::lemma_fundamental_div_mod_converse(i, f, a, r + 1);
    } else {
        assert((a + 1) * f == a * f + f) by (nonlinear_arith);
        vstd::arithmetic::div_mod::lemma_fundamental_div_mod_converse(i, f, a + 1, 0);
    }
    assert(a * f >= 0) by (nonlinear_arith)
        requires
            a >= 0,
            f >= 2,
    ;
}

proof fn lemma_tf_step(bars: Seq<BarView>, limit: nat, k: int, i: int)
    requires
        1 <= k < 8,
        1 <= i < bars.len(),
    ensures
        pushed(tf_state(bars, limit, k, i - 1), bars[i]).fed == seen_bars(bars, k, step_of(k, i)),
        extracted(pushed(tf_state(bars, limit, k, i - 1), bars[i])) == tf_state(bars, limit, k, i),
        labels_of(pushed(tf_state(bars, limit, k, i - 1), bars[i])) == tf_label(bars, limit, k, i),
{
    lemma_steps(k, i);
    let before = tf_state(bars, limit, k, i - 1);
    let f = factor_of(k);
    let s = step_of(k, i - 1);
    let run = before.pending.push(bars[i]);
    assert(run =~= bars.subrange(1 + s * f, i + 1));
    let next = pushed(before, bars[i]);
    if is_step(k, i) {
        assert((s + 1) * f == s * f + f) by (nonlinear_arith);
        assert(next.fed =~= seen_bars(bars, k, s + 1));
        assert(next.tags =~= merged_tags(k, s + 1));
        assert(next.pending =~= bars.subrange(1 + (s + 1) * f, i + 1));
        assert(extracted(next).fed == tf_state(bars, limit, k, i).fed);
    } else {
        assert(next.pending =~= bars.subrange(1 + s * f, i + 1));
    }
    assert(extracted(next) =~= tf_state(bars, limit, k, i));
}

proof fn lemma_tf_ready(bars: Seq<BarView>, limit: nat, k: int, i: int)
    requires
        1 <= k < 8,
        1 <= i < bars.len(),
        replayable(bars),
    ensures
        5 * tf_state(bars, limit, k, i - 1).fed.len() <= i - 1,
        tf_state(bars, limit, k, i - 1).fed.len() > 0
            ==> tf_state(bars, limit, k, i - 1).fed.last().time.before(bars[i].time),
{
    lemma_steps(k, i);
    let f = factor_of(k);
    let s = step_of(k, i - 1);
    assert(5 * s <= s * f) by (nonlinear_arith)
        requires
            s * f >= 0,
            f >= 5,
    ;
    if s > 0 {
        assert((s - 1) * f == s * f - f) by (nonlinear_arith);
        assert((s - 1) * f >= 0) by (nonlinear_arith)
            requires
                s >= 1,
                f >= 2,
        ;
        let run = bars.subrange(1 + (s - 1) * f, 1 + s * f);
        assert(run.first() == bars[1 + (s - 1) * f]);
        assert(bars[1 + (s - 1) * f].time.before(bars[i].time));
        assert((s - 1 + 1) * f == s * f);
    }
}

/// Hands a bar to the longer timeframes and takes the labels that they have
/// then.
fn step_timeframes(
    managers: &mut Vec<TfCzsc>,
    bar: &RawBar,
    first: TfLabels,
    Ghost(bars): Ghost<Seq<BarView>>,
    Ghost(limit): Ghost<nat>,
    Ghost(i): Ghost<int>,
) -> (tf: [TfLabels; 8])
    requires
        1 <= i < bars.len(),
        bars.len() / 5 < i32::MAX,
        replayable(bars),
        bar_view(*bar) == bars[i],
        old(managers)@.len() == 7,
        forall|k: int|
            1 <= k < 8 ==> (#[trigger] old(managers)@[k - 1]).wf() && old(managers)@[k - 1]@
                == tf_state(bars, limit, k, i - 1),
    ensures
        final(managers)@.len() == 7,
        forall|k: int|
            1 <= k < 8 ==> (#[trigger] final(managers)@[k - 1]).wf() && final(managers)@[k - 1]@
                == tf_state(bars, limit, k, i),
        tf@[0] == first,
        forall|k: int| 1 <= k < 8 ==> #[trigger] tf@[k] == tf_label(bars, limit, k, i),
{
    let mut tf: [TfLabels; 8] = [TfLabels::none();8];
    tf[0] = first;
    let mut k: usize = 1;
    while k < 8
        invariant
            1 <= k <= 8,
            1 <= i < bars.len(),
            bars.len() / 5 < i32::MAX,
            replayable(bars),
            bar_view(*bar) == bars[i],
            managers@.len() == 7,
            forall|j: int|
                1 <= j < k ==> (#[trigger] managers@[j - 1]).wf() && managers@[j - 1]@ == tf_state(
                    bars,
                    limit,
                    j,
                    i,
                ),
            forall|j: int|
                k <= j < 8 ==> (#[trigger] managers@[j - 1]).wf() && managers@[j - 1]@ == tf_state(
                    bars,
                    limit,
                    j,
                    i - 1,
                ),
            tf@[0] == first,
            forall|j: int| 1 <= j < k ==> #[trigger] tf@[j] == tf_label(bars, limit, j, i),
        decreases 8 - k,
    {
        proof {
            lemma_tf_ready(bars, limit, k as int, i);
            lemma_tf_step(bars, limit, k as int, i);
            assert(managers@[k - 1].wf());
        }
        managers[k - 1].push(bar);
        tf[k] = managers[k - 1].extract(MAX_BI_NUM);
        k += 1;
    }
    tf
}

/// The longer timeframes, before any bar has been handed to them.
fn empty_timeframes(limit: usize, Ghost(bars): Ghost<Seq<BarView>>) -> (managers: Vec<TfCzsc>)
    requires
        bars.len() > 0,
    ensures
        managers@.len() == 7,
        forall|k: int|
            1 <= k < 8 ==> (#[trigger] managers@[k - 1]).wf() && managers@[k - 1]@ == tf_state(
                bars,
                limit as nat,
                k,
                0,
            ),
{
    let mut managers: Vec<TfCzsc> = Vec::new();
    let mut k: usize = 1;
    while k < 8
        invariant
            1 <= k <= 8,
            bars.len() > 0,
            managers@.len() == k - 1,
            forall|j: int|
                1 <= j < k ==> (#[trigger] managers@[j - 1]).wf() && managers@[j - 1]@ == tf_state(
                    bars,
                    limit as nat,
                    j,
                    0,
                ),
        decreases 8 - k,
    {
        let (name, factor) = TIMEFRAMES[k];
        let tf = TfCzsc::with_limit(name, factor, limit);
        proof {
            lemma_steps(k as int, 1);
            assert(step_of(k as int, 0) == 0);
            assert(tf@.fed =~= seen_bars(bars, k as int, 0));
            assert(tf@.tags =~= merged_tags(k as int, 0));
            assert(tf@.pending =~= bars.subrange(1, 1));
            assert(tf@ == tf_state(bars, limit as nat, k as int, 0));
        }
        managers.push(tf);
        k += 1;
    }
    managers
}

/// Replays bars and labels each: with the structure that the bars up to it
/// show in every timeframe, where the analyzers keep so many strokes, and with
/// the return that is stated of it. A stroke that comes while an analyzer holds
/// as many as it keeps is not told as new, and the places that the search for
/// points remembers are not moved as old strokes are dropped: a limit below the
/// number of strokes that the bars have costs labels.
pub fn label_bars(bars: &[RawBar], stated: &[FutureReturn], limit: usize) -> (labels: Vec<
    ChanLabel,
>)
    requires
        0 < bars@.len(),
        bars@.len() / 5 < i32::MAX,
        stated@.len() == bars@.len(),
        replayable(bar_views(bars@)),
    ensures
        labels@.len() == bars@.len(),
        forall|i: int|
            0 <= i < labels@.len() ==> is_label(
                #[trigger] labels@[i],
                bar_views(bars@),
                limit as nat,
                i,
                stated@[i],
            ),
{
    let ghost views = bar_views(bars@);
    let ghost kept = limit as nat;
    let mut managers = empty_timeframes(limit, Ghost(views));
    let mut analyzer = analyzer_from(copy_bar(&bars[0]), limit);
    let mut bsp = BspState::new();
    let mut running_dir: u8 = 0;
    let mut running_strength = Double::zero();
    let mut labels: Vec<ChanLabel> = Vec::new();
    labels.push(ChanLabel { return_label: 1, ..ChanLabel::zero() });
    proof {
        assert(fed_bars(analyzer) =~= seen_bars(views, 0, 0));
    }
    let mut seen_fx: usize = list_fractals(&analyzer).len();
    let first_bis = list_strokes(&analyzer);
    assert(bi_views(first_bis@).len() == first_bis@.len());
    let mut seen_bi: usize = first_bis.len();
    let mut i: usize = 1;
    while i < bars.len()
        invariant
            1 <= i <= bars@.len(),
            bars@.len() / 5 < i32::MAX,
            views == bar_views(bars@),
            replayable(views),
            stated@.len() == bars@.len(),
            managers@.len() == 7,
            forall|k: int|
                1 <= k < 8 ==> (#[trigger] managers@[k - 1]).wf() && managers@[k - 1]@ == tf_state(
                    views,
                    kept,
                    k,
                    i - 1,
                ),
            fed_bars(analyzer) == seen_bars(views, 0, i - 1),
            kept == limit,
            stroke_limit(analyzer) == kept,
            seen_fx == fractals_at(views, kept, 0, i - 1).len(),
            seen_bi == strokes_at(views, kept, 0, i - 1).len(),
            bsp@ == memory_at(views, kept, i - 1),
            running_dir == (if last_rise(views, kept, 0, i - 1) > 0 { 1u8 } else { 0u8 }),
            running_strength@ == strength_at(views, kept, 0, i - 1),
            labels@.len() == i,
            forall|j: int| 0 <= j < i ==> is_label(
                    #[trigger] labels@[j],
                    views,
                    kept,
                    j,
                    stated@[j],
                ),
        decreases bars@.len() - i,
    {
        proof {
            assert(fed_bars(analyzer).last() == views[i - 1]);
            assert(views[i - 1].time.before(views[i as int].time));
            assert(seen_bars(views, 0, i - 1).push(views[i as int]) =~= seen_bars(
                views,
                0,
                i as int,
            ));
        }
        feed(&mut analyzer, copy_bar(&bars[i]));
        let marks = list_fractals(&analyzer);
        let bis = list_strokes(&analyzer);
        assert(bi_views(bis@).len() == bis@.len());
        let new_fx = marks.len() > seen_fx;
        let new_bi = bis.len() > seen_bi;
        seen_fx = marks.len();
        seen_bi = bis.len();
        let (top, bottom) = detect_fractals(marks.as_slice(), new_fx);
        let (raw_dir, strength) = detect_bi(bis.as_slice(), new_bi);
        let zs: usize = count_zs(bis.as_slice());
        let (is_bsp, bsp_direction) = bsp.detect(bis.as_slice(), new_bi);
        if new_bi && raw_dir != 0 {
            running_dir = raw_dir;
            running_strength = strength;
        }
        let first = TfLabels { has_top: top, has_bottom: bottom, bi_dir: running_dir, zs };
        let tf = step_timeframes(
            &mut managers,
            &bars[i],
            first,
            Ghost(views),
            Ghost(kept),
            Ghost(i as int),
        );
        let label = ChanLabel {
            tf,
            bi_strength: running_strength,
            is_bsp,
            bsp_direction,
            next_return: stated[i].next_return,
            return_label: stated[i].return_label,
        };
        assert(is_label(label, views, kept, i as int, stated@[i as int]));
        labels.push(label);
        i += 1;
    }
    labels
}

/// How many of the first labels are points at which to buy or sell.
pub open spec fn points_among(labels: Seq<ChanLabel>, n: int) -> int
    decreases n,
{
    if n <= 0 {
        0
    } else {
        points_among(labels, n - 1) + (if labels[n - 1].is_bsp > 0 { 1int } else { 0int })
    }
}

/// Counts the points at which to buy or sell.
pub fn count_points(labels: &[ChanLabel]) -> (count: usize)
    ensures
        count == points_among(labels@, labels@.len() as int),
{
    let mut count: usize = 0;
    let mut i: usize = 0;
    while i < labels.len()
        invariant
            count <= i <= labels@.len(),
            count == points_among(labels@, i as int),
        decreases labels@.len() - i,
    {
        if labels[i].is_bsp > 0 {
            count += 1;
        }
        i += 1;
    }
    count
}

} // verus!
