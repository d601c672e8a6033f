//! The return over the bars to come, and how it is classed.
//!
//! The arithmetic on prices is done by the caller, who hands in what came of
//! it; which prices enter it and what follows from it is settled here.
use crate::number::{at_most, less, negated, Double};
use crate::single::single;
use vstd::prelude::*;

verus! {

/// The bits of 0.01, the smallest threshold.
pub const LOW_THRESHOLD: u64 = 0x3f84_7ae1_47ae_147b;

/// The bits of 0.02, the threshold where too little is known.
pub const PLAIN_THRESHOLD: u64 = 0x3f94_7ae1_47ae_147b;

/// The bits of 0.05, the largest threshold.
pub const HIGH_THRESHOLD: u64 = 0x3fa9_9999_9999_999a;

/// How many bars, and how many returns among them, a deviation needs.
pub const MIN_SAMPLES: usize = 5;

/// The return that a bar's label states.
#[derive(Clone, Copy, Debug, PartialEq, Eq, Structural)]
pub struct FutureReturn {
    pub next_return: Double,
    /// 0 for a fall, 1 for neither, 2 for a rise.
    pub return_label: i64,
}

/// How far ahead a return looks.
pub open spec fn lookahead_of(seq_len: usize, asked: Option<usize>) -> usize {
    match asked {
        Some(n) => n,
        None => if seq_len < 10 { 1usize } else { (seq_len / 5) as usize },
    }
}

/// How far ahead a return looks: as far as asked, or else a fifth of the
/// sequence and at least one bar.
pub fn lookahead_bars(seq_len: usize, asked: Option<usize>) -> (bars: usize)
    ensures
        bars == lookahead_of(seq_len, asked),
        bars == match asked {
            Some(n) => n,
            None => if seq_len < 10 { 1usize } else { (seq_len / 5) as usize },
        },
{
    match asked {
        Some(n) => n,
        None => {
            let fifth: usize = seq_len / 5;
            if fifth < 1 {
                1
            } else {
                fifth
            }
        },
    }
}

/// The bar that a return is measured to: there is none past the end, nor from
/// a close that is not above zero.
pub open spec fn target_bar(closes: Seq<Double>, idx: int, lookahead: int) -> Option<int> {
    if idx + lookahead < closes.len() && !at_most(closes[idx]@, Some(0int)) {
        Some(idx + lookahead)
    } else {
        None
    }
}

/// The bar that the return from a bar is measured to.
pub fn future_index(closes: &[Double], idx: usize, lookahead: usize) -> (target: Option<usize>)
    requires
        idx + lookahead <= usize::MAX,
    ensures
        match target {
            Some(t) => target_bar(closes@, idx as int, lookahead as int) == Some(t as int),
            None => target_bar(closes@, idx as int, lookahead as int) is None,
        },
{
    let next: usize = idx + lookahead;
    if next >= closes.len() || closes[idx].le(Double::zero()) {
        None
    } else {
        Some(next)
    }
}

/// The first bar of the window that the deviation is taken over.
pub open spec fn window_start(idx: int, window: int) -> int {
    if idx < window {
        0
    } else {
        idx - window
    }
}

/// The bar after the window that the deviation is taken over.
pub open spec fn window_end(n: int, idx: int, window: int) -> int {
    let end = window_start(idx, window) + window;
    if end < n {
        end
    } else {
        n
    }
}

/// The window of bars that the deviation of returns is taken over: the first
/// and the one after the last; none where it is too short.
pub fn volatility_window(n: usize, idx: usize, window: usize) -> (bounds: Option<(usize, usize)>)
    requires
        idx < n,
        idx + window <= usize::MAX,
    ensures
        bounds == (if window_end(n as int, idx as int, window as int) - window_start(
            idx as int,
            window as int,
        ) < MIN_SAMPLES {
            None
        } else {
            Some(
                (
                    window_start(idx as int, window as int) as usize,
                    window_end(n as int, idx as int, window as int) as usize,
                ),
            )
        }),
{
    let start: usize = if idx < window { 0 } else { idx - window };
    let end: usize = if start + window < n { start + window } else { n };
    if end - start < MIN_SAMPLES {
        None
    } else {
        Some((start, end))
    }
}

/// The bars of a window that have a return: those that follow a close above
/// zero.
pub open spec fn sampled(closes: Seq<Double>, start: int, end: int) -> Seq<usize>
    decreases end - start,
{
    if end <= start + 1 {
        Seq::empty()
    } else if less(Some(0int), closes[end - 2]@) {
        sampled(closes, start, end - 1).push((end - 1) as usize)
    } else {
        sampled(closes, start, end - 1)
    }
}

/// The bars of a window that have a return, in order.
pub fn sample_indices(closes: &[Double], start: usize, end: usize) -> (indices: Vec<usize>)
    requires
        start < end <= closes@.len(),
    ensures
        indices@ == sampled(closes@, start as int, end as int),
{
    let mut indices: Vec<usize> = Vec::new();
    let mut i: usize = start + 1;
    while i < end
        invariant
            start + 1 <= i <= end <= closes@.len(),
            indices@ == sampled(closes@, start as int, i as int),
        decreases end - i,
    {
        if Double::zero().lt(closes[i - 1]) {
            indices.push(i);
        }
        i += 1;
    }
    indices
}

/// The returns that a deviation is taken over, by their bars: those of the
/// window before a bar, where the window and the returns are enough.
pub open spec fn deviation_samples(closes: Seq<Double>, idx: int, window: int) -> Option<
    Seq<usize>,
> {
    let start = window_start(idx, window);
    let end = window_end(closes.len() as int, idx, window);
    if end - start < MIN_SAMPLES || sampled(closes, start, end).len() < MIN_SAMPLES {
        None
    } else {
        Some(sampled(closes, start, end))
    }
}

/// The bars whose returns the deviation at a bar is taken over; none where
/// there are too few.
pub fn volatility_samples(closes: &[Double], idx: usize, window: usize) -> (samples: Option<
    Vec<usize>,
>)
    requires
        idx < closes@.len(),
        idx + window <= usize::MAX,
    ensures
        match samples {
            Some(v) => deviation_samples(closes@, idx as int, window as int) == Some(v@),
            None => deviation_samples(closes@, idx as int, window as int) is None,
        },
{
    match volatility_window(closes.len(), idx, window) {
        Some((start, end)) => {
            let samples = sample_indices(closes, start, end);
            if samples.len() < MIN_SAMPLES {
                None
            } else {
                Some(samples)
            }
        },
        None => None,
    }
}

/// A number kept between two bounds.
pub open spec fn clamped(x: Double, low: Double, high: Double) -> Double {
    if less(x@, low@) {
        low
    } else if less(high@, x@) {
        high
    } else {
        x
    }
}

/// The threshold between a flat return and a rise or a fall: half a deviation
/// of the returns, kept between one and five hundredths; two hundredths where
/// there are too few returns to have one.
pub fn volatility_threshold(half_deviation: Option<Double>) -> (threshold: Double)
    ensures
        threshold == threshold_of(None, half_deviation),
        threshold == match half_deviation {
            Some(x) => clamped(x, Double { bits: LOW_THRESHOLD }, Double { bits: HIGH_THRESHOLD }),
            None => Double { bits: PLAIN_THRESHOLD },
        },
{
    match half_deviation {
        Some(x) => {
            let low = Double { bits: LOW_THRESHOLD };
            let high = Double { bits: HIGH_THRESHOLD };
            if x.lt(low) {
                low
            } else if high.lt(x) {
                high
            } else {
                x
            }
        },
        None => Double { bits: PLAIN_THRESHOLD },
    }
}

/// The threshold that was asked for, or else the one that the deviation gives.
pub open spec fn threshold_of(asked: Option<Double>, half_deviation: Option<Double>) -> Double {
    match asked {
        Some(a) => a,
        None => match half_deviation {
            Some(x) => clamped(x, Double { bits: LOW_THRESHOLD }, Double { bits: HIGH_THRESHOLD }),
            None => Double { bits: PLAIN_THRESHOLD },
        },
    }
}

/// The threshold that was asked for, or else the one that the deviation gives.
pub fn choose_threshold(asked: Option<Double>, half_deviation: Option<Double>) -> (threshold:
    Double)
    ensures
        threshold == threshold_of(asked, half_deviation),
        threshold == match (asked, half_deviation) {
            (Some(a), _) => a,
            (None, Some(x)) => clamped(
                x,
                Double { bits: LOW_THRESHOLD },
                Double { bits: HIGH_THRESHOLD },
            ),
            (None, None) => Double { bits: PLAIN_THRESHOLD },
        },
{
    match asked {
        Some(a) => a,
        None => volatility_threshold(half_deviation),
    }
}

/// 0 for a return below the threshold turned negative, 2 for one above the
/// threshold, 1 for any other.
pub open spec fn return_class(ret: Option<int>, threshold: Option<int>) -> i64 {
    if less(ret, negated(threshold)) {
        0
    } else if less(threshold, ret) {
        2
    } else {
        1
    }
}

/// Classes a return.
pub fn classify_return(ret: Double, threshold: Double) -> (class: i64)
    ensures
        class == return_class(ret@, threshold@),
{
    if ret.lt(threshold.neg()) {
        0
    } else if threshold.lt(ret) {
        2
    } else {
        1
    }
}

/// Whether a return is the one that the label of a bar states: that to the bar
/// that it is measured to, or a flat one of zero where there is no such bar.
pub open spec fn is_stated(
    stated: FutureReturn,
    closes: Seq<Double>,
    idx: int,
    lookahead: int,
    ret: Double,
    threshold: Double,
) -> bool {
    if target_bar(closes, idx, lookahead) is Some {
        stated.next_return@ == single(ret@) && stated.return_label == return_class(
            ret@,
            threshold@,
        )
    } else {
        stated.next_return.bits == 0 && stated.return_label == 1
    }
}

/// The return that a bar's label states, given the return to the bar that it
/// is measured to and the threshold there: the return in single precision, and
/// a flat one of zero where there is no such bar.
pub fn compute_future_return(
    closes: &[Double],
    idx: usize,
    lookahead: usize,
    ret: Double,
    threshold: Double,
) -> (stated: FutureReturn)
    requires
        idx + lookahead <= usize::MAX,
    ensures
        is_stated(stated, closes@, idx as int, lookahead as int, ret, threshold),
{
    match future_index(closes, idx, lookahead) {
        Some(_) => FutureReturn {
            next_return: ret.to_single(),
            return_label: classify_return(ret, threshold),
        },
        None => FutureReturn { next_return: Double::zero(), return_label: 1 },
    }
}

/// The returns that the labels of all bars state, bar by bar: given for each the
/// return to the bar that it is measured to, and the threshold there.
pub fn state_returns(
    closes: &[Double],
    lookahead: usize,
    rets: &[Double],
    thresholds: &[Double],
) -> (stated: Vec<FutureReturn>)
    requires
        rets@.len() == closes@.len(),
        thresholds@.len() == closes@.len(),
        closes@.len() + lookahead <= usize::MAX,
    ensures
        stated@.len() == closes@.len(),
        forall|i: int|
            0 <= i < stated@.len() ==> is_stated(
                #[trigger] stated@[i],
                closes@,
                i,
                lookahead as int,
                rets@[i],
                thresholds@[i],
            ),
{
    let mut stated: Vec<FutureReturn> = Vec::new();
    let mut i: usize = 0;
    while i < closes.len()
        invariant
            i <= closes@.len(),
            rets@.len() == closes@.len(),
            thresholds@.len() == closes@.len(),
            closes@.len() + lookahead <= usize::MAX,
            stated@.len() == i,
            forall|j: int|
                0 <= j < i ==> is_stated(
                    #[trigger] stated@[j],
                    closes@,
                    j,
                    lookahead as int,
                    rets@[j],
                    thresholds@[j],
                ),
        decreases closes@.len() - i,
    {
        stated.push(compute_future_return(closes, i, lookahead, rets[i], thresholds[i]));
        i += 1;
    }
    stated
}

/// What is stated of every bar is a fall, neither or a rise.
pub proof fn law_stated_returns_have_a_class(
    stated: FutureReturn,
    closes: Seq<Double>,
    idx: int,
    lookahead: int,
    ret: Double,
    threshold: Double,
)
    requires
        is_stated(stated, closes, idx, lookahead, ret, threshold),
    ensures
        0 <= stated.return_label <= 2,
{
}

proof fn lemma_all_sampled(closes: Seq<Double>, start: int, end: int)
    requires
        0 <= start < end <= closes.len(),
        forall|i: int| start <= i < end ==> less(Some(0int), (#[trigger] closes[i])@),
    ensures
        sampled(closes, start, end).len() == end - start - 1,
    decreases end - start,
{
    if end > start + 1 {
        assert(less(Some(0int), closes[end - 2]@));
        lemma_all_sampled(closes, start, end - 1);
    }
}

/// Where every close is above zero, a window has a return for each of its bars
/// but the first: one of five bars has too few, and one of six has enough.
pub proof fn law_six_bars_are_enough(closes: Seq<Double>, idx: int, window: int)
    requires
        0 <= idx < closes.len(),
        0 <= window,
        forall|i: int| 0 <= i < closes.len() ==> less(Some(0int), (#[trigger] closes[i])@),
    ensures
        deviation_samples(closes, idx, window) is Some <==> window_end(
            closes.len() as int,
            idx,
            window,
        ) - window_start(idx, window) > MIN_SAMPLES,
{
    let start = window_start(idx, window);
    let end = window_end(closes.len() as int, idx, window);
    if start < end {
        lemma_all_sampled(closes, start, end);
    }
}

proof fn lemma_samples_lie_within(closes: Seq<Double>, start: int, end: int, i: int)
    requires
        0 <= start,
        end <= closes.len() <= usize::MAX,
        0 <= i < sampled(closes, start, end).len(),
    ensures
        start < sampled(closes, start, end)[i] < end,
    decreases end - start,
{
    let shorter = sampled(closes, start, end - 1);
    if i < shorter.len() {
        lemma_samples_lie_within(closes, start, end - 1, i);
    }
}

/// Bars outside the window do not matter: two series that agree on it have the
/// same returns to take a deviation over, and each has a bar before it in the
/// window.
pub proof fn law_only_the_window_matters(
    a: Seq<Double>,
    b: Seq<Double>,
    idx: int,
    window: int,
)
    requires
        0 <= idx < a.len(),
        a.len() == b.len() <= usize::MAX,
        0 <= window,
        forall|i: int|
            window_start(idx, window) <= i < window_end(a.len() as int, idx, window)
                ==> #[trigger] a[i] == b[i],
    ensures
        deviation_samples(a, idx, window) == deviation_samples(b, idx, window),
        deviation_samples(a, idx, window) matches Some(v) ==> forall|i: int|
            0 <= i < v.len() ==> window_start(idx, window) < #[trigger] v[i] < window_end(
                a.len() as int,
                idx,
                window,
            ),
{
    let start = window_start(idx, window);
    let end = window_end(a.len() as int, idx, window);
    lemma_samples_agree(a, b, start, end);
    assert forall|i: int| 0 <= i < sampled(a, start, end).len() implies start < #[trigger] sampled(
        a,
        start,
        end,
    )[i] < end by {
        lemma_samples_lie_within(a, start, end, i);
    }
}

proof fn lemma_samples_agree(a: Seq<Double>, b: Seq<Double>, start: int, end: int)
    requires
        0 <= start,
        end <= a.len() == b.len(),
        forall|i: int| start <= i < end ==> #[trigger] a[i] == b[i],
    ensures
        sampled(a, start, end) == sampled(b, start, end),
    decreases end - start,
{
    if end > start + 1 {
        assert(a[end - 2] == b[end - 2]);
        lemma_samples_agree(a, b, start, end - 1);
    }
}

/// A threshold taken from a deviation lies between one and five hundredths.
pub proof fn law_threshold_is_kept(x: Double)
    requires
        x@ is Some,
    ensures
        at_most(
            (Double { bits: LOW_THRESHOLD })@,
            clamped(x, Double { bits: LOW_THRESHOLD }, Double { bits: HIGH_THRESHOLD })@,
        ),
        at_most(
            clamped(x, Double { bits: LOW_THRESHOLD }, Double { bits: HIGH_THRESHOLD })@,
            (Double { bits: HIGH_THRESHOLD })@,
        ),
{
    crate::number::lemma_order_key(LOW_THRESHOLD, HIGH_THRESHOLD);
}

/// A return and its opposite are classed oppositely, whatever the threshold,
/// as long as it is not negative.
pub proof fn law_opposite_returns(ret: Option<int>, threshold: Option<int>)
    requires
        threshold is Some,
        threshold->0 >= 0,
    ensures
        return_class(negated(ret), threshold) == 2 - return_class(ret, threshold),
{
}

/// A larger return is never classed lower.
pub proof fn law_classes_follow_returns(a: int, b: int, threshold: Option<int>)
    requires
        a <= b,
        threshold is Some,
        threshold->0 >= 0,
    ensures
        return_class(Some(a), threshold) <= return_class(Some(b), threshold),
{
}

/// A return is measured exactly as far ahead as asked. There is a bar to measure
/// it to where so many bars follow, unless the close that it starts from is
/// zero or below.
pub proof fn law_returns_look_as_far_as_asked(closes: Seq<Double>, idx: int, lookahead: int, t: int)
    requires
        0 <= idx,
        0 <= lookahead,
    ensures
        target_bar(closes, idx, lookahead) == Some(t) ==> t - idx == lookahead && t < closes.len(),
        target_bar(closes, idx, lookahead) is Some <==> closes.len() - idx > lookahead && !(
        closes[idx]@ is Some && closes[idx]@->0 <= 0),
{
}

/// Which bar a return is measured to hangs on nothing but the close that it
/// starts from: other closes, and what comes after the target, do not move it.
pub proof fn law_later_closes_do_not_move_the_target(
    a: Seq<Double>,
    b: Seq<Double>,
    idx: int,
    lookahead: int,
)
    requires
        0 <= idx,
        0 <= lookahead,
        idx + lookahead < a.len(),
        idx + lookahead < b.len(),
        a[idx] == b[idx],
    ensures
        target_bar(a, idx, lookahead) == target_bar(b, idx, lookahead),
        target_bar(a, idx, lookahead) is Some && idx + 1 + lookahead < a.len() && !(a[idx
            + 1]@ is Some && a[idx + 1]@->0 <= 0) ==> target_bar(a, idx + 1, lookahead)->0
            == target_bar(a, idx, lookahead)->0 + 1,
{
}

/// What a label states of a return that can be measured: the return in single
/// precision, and 2 where it is above the threshold, 0 where it is below its
/// opposite, 1 in between. Of any other it states a flat one of zero.
pub proof fn law_labels_state_the_return(
    stated: FutureReturn,
    closes: Seq<Double>,
    idx: int,
    lookahead: int,
    ret: Double,
    threshold: Double,
)
    requires
        0 <= idx,
        0 <= lookahead,
        is_stated(stated, closes, idx, lookahead, ret, threshold),
    ensures
        ({
            let measured = idx + lookahead < closes.len() && !(closes[idx]@ is Some
                && closes[idx]@->0 <= 0);
            let known = ret@ is Some && threshold@ is Some;
            let falls = known && ret@->0 < -(threshold@->0);
            let rises = known && ret@->0 > threshold@->0;
            &&& measured ==> stated.next_return@ == single(ret@)
            &&& measured && falls ==> stated.return_label == 0
            &&& measured && rises && !falls ==> stated.return_label == 2
            &&& measured && !rises && !falls ==> stated.return_label == 1
            &&& !measured ==> stated.return_label == 1 && stated.next_return == (Double { bits: 0 })
        }),
{
}

/// The returns that are taken from a window are those of all its bars that
/// follow, within it, a close above zero; in order, and each once.
pub proof fn law_samples_follow_closes_above_zero(closes: Seq<Double>, start: int, end: int, j: int)
    requires
        0 <= start,
        end <= closes.len() <= usize::MAX,
    ensures
        (exists|i: int|
            0 <= i < sampled(closes, start, end).len() && #[trigger] sampled(closes, start, end)[i]
                == j) <==> (start < j < end && closes[j - 1]@ is Some && closes[j - 1]@->0 > 0),
        forall|a: int, b: int|
            0 <= a < b < sampled(closes, start, end).len() ==> #[trigger] sampled(
                closes,
                start,
                end,
            )[a] < #[trigger] sampled(closes, start, end)[b],
    decreases end - start,
{
    let list = sampled(closes, start, end);
    if end > start + 1 {
        let shorter = sampled(closes, start, end - 1);
        law_samples_follow_closes_above_zero(closes, start, end - 1, j);
        let taken = less(Some(0int), closes[end - 2]@);
        if taken {
            assert(list == shorter.push((end - 1) as usize));
            assert(list[shorter.len() as int] == end - 1);
        }
        assert forall|a: int, b: int| 0 <= a < b < list.len() implies #[trigger] list[a]
            < #[trigger] list[b] by {
            lemma_samples_lie_within(closes, start, end - 1, a);
            if b < shorter.len() {
                assert(shorter[a] < shorter[b]);
            }
        }
        if exists|i: int| 0 <= i < shorter.len() && #[trigger] shorter[i] == j {
            let i = choose|i: int| 0 <= i < shorter.len() && #[trigger] shorter[i] == j;
            assert(list[i] == j);
        }
        if exists|i: int| 0 <= i < list.len() && #[trigger] list[i] == j {
            let i = choose|i: int| 0 <= i < list.len() && #[trigger] list[i] == j;
            if i < shorter.len() {
                assert(shorter[i] == j);
            }
        }
    }
}

/// The window of a deviation holds as many bars as asked for and ends right
/// before the bar. Where fewer bars come before it, the window starts at the
/// first bar and reaches past the bar, but not past the last one.
pub proof fn law_windows_end_before_the_bar(n: int, idx: int, window: int)
    requires
        0 <= idx < n,
        0 <= window,
    ensures
        idx >= window ==> window_end(n, idx, window) == idx && window_end(n, idx, window)
            - window_start(idx, window) == window,
        idx < window ==> window_start(idx, window) == 0,
        idx < window && window <= n ==> window_end(n, idx, window) == window,
        idx < window && window > n ==> window_end(n, idx, window) == n,
{
}

/// A deviation is taken over all returns of its window, and only where the
/// window has five bars and five of them have a return.
pub proof fn law_deviations_need_five_returns(closes: Seq<Double>, idx: int, window: int)
    ensures
        ({
            let start = window_start(idx, window);
            let end = window_end(closes.len() as int, idx, window);
            let all = sampled(closes, start, end);
            match deviation_samples(closes, idx, window) {
                Some(v) => v == all && v.len() >= 5 && end - start >= 5,
                None => all.len() < 5 || end - start < 5,
            }
        }),
{
}

/// A number kept between two bounds is itself where it lies between them, and
/// else the bound that it is beyond.
pub proof fn law_clamped_numbers(x: Double, low: Double, high: Double)
    requires
        x@ is Some,
        low@ is Some,
        high@ is Some,
        low@->0 <= high@->0,
    ensures
        low@->0 <= x@->0 <= high@->0 ==> clamped(x, low, high) == x,
        x@->0 < low@->0 ==> clamped(x, low, high) == low,
        x@->0 > high@->0 ==> clamped(x, low, high) == high,
{
}

/// A return looks as far ahead as asked. Where nothing is asked, it looks a whole
/// fifth of the sequence ahead, rounded down, but at least one bar.
pub proof fn law_returns_look_a_fifth_ahead(seq_len: usize, n: usize)
    ensures
        lookahead_of(seq_len, Some(n)) == n,
        seq_len >= 5 ==> 5 * lookahead_of(seq_len, None) <= seq_len < 5 * lookahead_of(seq_len, None)
            + 5,
        seq_len < 5 ==> lookahead_of(seq_len, None) == 1,
{
}

/// A threshold that is asked for is taken as it is, whatever the deviation. Where
/// none is, half a deviation is taken where it lies between the bounds, and else
/// the bound that it is beyond; without a deviation it is one threshold for all.
pub proof fn law_asked_thresholds_go_first(a: Double, half_deviation: Option<Double>, x: Double)
    requires
        x@ is Some,
    ensures
        threshold_of(Some(a), half_deviation) == a,
        threshold_of(None, None) == (Double { bits: PLAIN_THRESHOLD }),
        ({
            let low = Double { bits: LOW_THRESHOLD };
            let high = Double { bits: HIGH_THRESHOLD };
            &&& low@->0 <= x@->0 <= high@->0 ==> threshold_of(None, Some(x)) == x
            &&& x@->0 < low@->0 ==> threshold_of(None, Some(x)) == low
            &&& x@->0 > high@->0 ==> threshold_of(None, Some(x)) == high
        }),
{
    crate::number::lemma_order_key(LOW_THRESHOLD, HIGH_THRESHOLD);
    crate::number::lemma_order_key(LOW_THRESHOLD, x.bits);
    crate::number::lemma_order_key(HIGH_THRESHOLD, x.bits);
}

} // verus!
