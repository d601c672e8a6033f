//! Signals: which way to trade, how sure the model is, and which are shown.
use super::records::OhlcvRecord;
use crate::number::{at_most, larger, less, unit, Double, HALF_BITS};
use crate::text::{contains, decimal, has_part, lower, lowercase, same, texts, write_decimal};
use vstd::arithmetic::power2::pow2;
use vstd::prelude::*;
use vstd::string::StringExecFns;

verus! {

/// What runs a model.
#[derive(Clone, Copy, Debug, PartialEq, Eq, Structural)]
pub enum Backend {
    /// Weights in a `.safetensors` file.
    Candle,
    /// A graph in an `.onnx` file.
    Onnx,
}

/// A model file that nothing runs.
#[derive(Debug)]
pub struct UnsupportedModel {
    pub message: String,
}

/// What runs a model file, by its extension in any case.
pub fn backend_for(extension: &str) -> (backend: Result<Backend, UnsupportedModel>)
    ensures
        match backend {
            Ok(Backend::Candle) => lowercase(extension@) == "safetensors"@,
            Ok(Backend::Onnx) => lowercase(extension@) == "onnx"@,
            Err(e) => {
                &&& lowercase(extension@) != "safetensors"@
                &&& lowercase(extension@) != "onnx"@
                &&& e.message@ == "不支持: ."@ + lowercase(extension@)
                    + "，请用 .safetensors 或 .onnx"@
            },
        },
{
    let low = lower(extension);
    if same(low.as_str(), "safetensors") {
        return Ok(Backend::Candle);
    }
    if same(low.as_str(), "onnx") {
        return Ok(Backend::Onnx);
    }
    let mut message: String = "不支持: .".to_owned();
    message.append(low.as_str());
    message.append("，请用 .safetensors 或 .onnx");
    Err(UnsupportedModel { message })
}

/// A series that is shorter than a window.
#[derive(Debug)]
pub struct NotEnoughBars {
    pub message: String,
}

/// Whether a series has a window at all.
pub fn check_length(bars: usize, seq_len: usize) -> (verdict: Result<(), NotEnoughBars>)
    ensures
        match verdict {
            Ok(_) => bars >= seq_len,
            Err(e) => bars < seq_len && e.message@ == "数据不足: 需要 >= "@ + decimal(
                seq_len as int,
            ) + " 根 K 线，当前 "@ + decimal(bars as int) + " 根"@,
        },
{
    if bars >= seq_len {
        return Ok(());
    }
    let mut message: String = "数据不足: 需要 >= ".to_owned();
    message.append(write_decimal(seq_len).as_str());
    message.append(" 根 K 线，当前 ");
    message.append(write_decimal(bars).as_str());
    message.append(" 根");
    Err(NotEnoughBars { message })
}

/// Which way to trade and how sure the model is.
#[derive(Clone, Copy, Debug, PartialEq, Eq, Structural)]
pub struct Signal {
    /// 0 for no signal, 1 for buy, 2 for sell.
    pub direction: i64,
    pub confidence: Double,
    pub is_bsp_prob: Double,
}

/// Which way to trade: the way that is more probable, where it is probable
/// enough.
pub open spec fn direction_of(
    p_drop: Option<int>,
    p_rise: Option<int>,
    threshold: Option<int>,
) -> i64 {
    if less(p_drop, p_rise) && at_most(threshold, p_rise) {
        1
    } else if less(p_rise, p_drop) && at_most(threshold, p_drop) {
        2
    } else {
        0
    }
}

/// How sure the model is: the probability of the way taken, or the larger of
/// the two where none is.
pub open spec fn confidence_of(
    p_drop: Option<int>,
    p_rise: Option<int>,
    threshold: Option<int>,
) -> Option<int> {
    let direction = direction_of(p_drop, p_rise, threshold);
    if direction == 1 {
        p_rise
    } else if direction == 2 {
        p_drop
    } else {
        larger(p_drop, p_rise)
    }
}

/// The signal that two probabilities give.
pub fn decide_signal(
    p_drop: Double,
    p_rise: Double,
    is_bsp_prob: Double,
    threshold: Double,
) -> (signal: Signal)
    ensures
        signal.direction == direction_of(p_drop@, p_rise@, threshold@),
        signal.confidence@ == confidence_of(p_drop@, p_rise@, threshold@),
        signal.confidence == p_drop || signal.confidence == p_rise,
        signal.is_bsp_prob == is_bsp_prob,
{
    if p_drop.lt(p_rise) && threshold.le(p_rise) {
        Signal { direction: 1, confidence: p_rise, is_bsp_prob }
    } else if p_rise.lt(p_drop) && threshold.le(p_drop) {
        Signal { direction: 2, confidence: p_drop, is_bsp_prob }
    } else {
        Signal { direction: 0, confidence: p_drop.max(p_rise), is_bsp_prob }
    }
}

/// The signal of a graph's outputs: the probabilities of a fall and of a rise,
/// where an output has them, and that of a point, zero where there is none.
/// Without the first two there is no signal, and nothing is sure.
pub fn graph_signal(
    probabilities: Option<(Double, Double)>,
    is_bsp: Option<Double>,
    threshold: Double,
) -> (signal: Signal)
    ensures
        match probabilities {
            Some(p) => {
                &&& signal.direction == direction_of(p.0@, p.1@, threshold@)
                &&& signal.confidence@ == confidence_of(p.0@, p.1@, threshold@)
                &&& signal.confidence == p.0 || signal.confidence == p.1
                &&& signal.is_bsp_prob == match is_bsp {
                    Some(b) => b,
                    None => Double { bits: 0 },
                }
            },
            None => signal.direction == 0 && signal.confidence.bits == 0
                && signal.is_bsp_prob.bits == 0,
        },
{
    match probabilities {
        Some((p_drop, p_rise)) => {
            let bsp = match is_bsp {
                Some(b) => b,
                None => Double::zero(),
            };
            decide_signal(p_drop, p_rise, bsp, threshold)
        },
        None => Signal {
            direction: 0,
            confidence: Double::zero(),
            is_bsp_prob: Double::zero(),
        },
    }
}

/// The output that holds the return, by a part of its name.
pub const RETURN_OUTPUT: &'static str = "return_logits";

/// The output that holds the point, by a part of its name.
pub const BSP_OUTPUT: &'static str = "is_bsp";

/// The first name from `from` on that has a part.
pub open spec fn output_from(list: Seq<Seq<char>>, part: Seq<char>, from: int) -> Option<int>
    decreases list.len() - from,
{
    if from >= list.len() {
        None
    } else if has_part(list[from], part) {
        Some(from)
    } else {
        output_from(list, part, from + 1)
    }
}

/// The first output whose name has a part.
pub fn find_output(outputs: &[String], part: &str) -> (place: Option<usize>)
    ensures
        match place {
            Some(p) => p < outputs@.len() && output_from(texts(outputs@), part@, 0) == Some(
                p as int,
            ),
            None => output_from(texts(outputs@), part@, 0) is None,
        },
{
    let mut i: usize = 0;
    while i < outputs.len()
        invariant
            i <= outputs@.len(),
            output_from(texts(outputs@), part@, 0) == output_from(
                texts(outputs@),
                part@,
                i as int,
            ),
        decreases outputs@.len() - i,
    {
        assert(texts(outputs@)[i as int] == outputs@[i as int]@);
        if contains(outputs[i].as_str(), part) {
            return Some(i);
        }
        i += 1;
    }
    None
}

/// A signal with the time of the bar that it is for.
#[derive(Debug)]
pub struct SignalRecord {
    pub time: String,
    pub direction: i64,
    pub confidence: Double,
    pub is_bsp_prob: Double,
}

/// A signal and the text of its time.
pub struct SignalView {
    pub time: Seq<char>,
    pub signal: Signal,
}

impl View for SignalRecord {
    type V = SignalView;

    open spec fn view(&self) -> SignalView {
        SignalView {
            time: self.time@,
            signal: Signal {
                direction: self.direction,
                confidence: self.confidence,
                is_bsp_prob: self.is_bsp_prob,
            },
        }
    }
}

/// The signals of a list.
pub open spec fn signal_views(signals: Seq<SignalRecord>) -> Seq<SignalView> {
    Seq::new(signals.len(), |i: int| signals[i]@)
}

/// The signals of the first windows: each has the time of the last bar of its
/// window; a window for which the model gave too little has none.
pub open spec fn window_signals(
    records: Seq<OhlcvRecord>,
    seq_len: int,
    found: Seq<Option<Signal>>,
    n: int,
) -> Seq<SignalView>
    decreases n,
{
    if n <= 0 {
        Seq::empty()
    } else {
        let before = window_signals(records, seq_len, found, n - 1);
        match found[n - 1] {
            Some(signal) => before.push(
                SignalView { time: records[n - 1 + seq_len - 1].dt@, signal },
            ),
            None => before,
        }
    }
}

/// The signals of all windows, given what the model gave for each.
pub fn collect_signals(
    records: &[OhlcvRecord],
    seq_len: usize,
    found: &[Option<Signal>],
) -> (signals: Vec<SignalRecord>)
    requires
        0 < seq_len <= records@.len(),
        found@.len() == records@.len() - seq_len + 1,
    ensures
        signal_views(signals@) == window_signals(
            records@,
            seq_len as int,
            found@,
            found@.len() as int,
        ),
{
    let mut signals: Vec<SignalRecord> = Vec::new();
    let bars: usize = records.len();
    let mut w: usize = 0;
    assert(signal_views(signals@) =~= window_signals(records@, seq_len as int, found@, 0));
    while w < found.len()
        invariant
            w <= found@.len(),
            bars == records@.len(),
            0 < seq_len <= records@.len(),
            found@.len() == records@.len() - seq_len + 1,
            signal_views(signals@) == window_signals(
                records@,
                seq_len as int,
                found@,
                w as int,
            ),
        decreases found@.len() - w,
    {
        let ghost before = signals@;
        if let Some(signal) = found[w] {
            let record = SignalRecord {
                time: records[w + seq_len - 1].dt.as_str().to_owned(),
                direction: signal.direction,
                confidence: signal.confidence,
                is_bsp_prob: signal.is_bsp_prob,
            };
            signals.push(record);
            assert(signal_views(signals@) =~= signal_views(before).push(record@));
        }
        w += 1;
    }
    signals
}

/// Whether a signal is shown: any is, or any whose point is more probable than
/// not.
pub open spec fn is_shown(signal: SignalView, bsp_only: bool) -> bool {
    !bsp_only || less((Double { bits: HALF_BITS })@, signal.signal.is_bsp_prob@)
}

/// The signals of a list that are shown.
pub fn filter_signals<'a>(signals: &'a [SignalRecord], bsp_only: bool) -> (shown: Vec<
    &'a SignalRecord,
>)
    ensures
        Seq::new(shown@.len(), |i: int| shown@[i]@) == signal_views(signals@).filter(
            |s: SignalView| is_shown(s, bsp_only),
        ),
{
    let mut shown: Vec<&'a SignalRecord> = Vec::new();
    let ghost all = signal_views(signals@);
    let ghost keep = |s: SignalView| is_shown(s, bsp_only);
    let mut i: usize = 0;
    proof {
        reveal(Seq::filter);
        assert(Seq::new(shown@.len(), |i: int| shown@[i]@) =~= all.take(0).filter(keep));
    }
    while i < signals.len()
        invariant
            i <= signals@.len(),
            all == signal_views(signals@),
            keep == (|s: SignalView| is_shown(s, bsp_only)),
            Seq::new(shown@.len(), |i: int| shown@[i]@) == all.take(i as int).filter(keep),
        decreases signals@.len() - i,
    {
        let ghost before = shown@;
        proof {
            reveal(Seq::filter);
            assert(all.take(i + 1).drop_last() =~= all.take(i as int));
            assert(all.take(i + 1).last() == signals@[i as int]@);
        }
        if !bsp_only || (Double { bits: HALF_BITS }).lt(signals[i].is_bsp_prob) {
            shown.push(&signals[i]);
            assert(Seq::new(shown@.len(), |i: int| shown@[i]@) =~= Seq::new(
                before.len(),
                |i: int| before[i]@,
            ).push(signals@[i as int]@));
        }
        i += 1;
    }
    assert(all.take(all.len() as int) =~= all);
    shown
}

/// A signal to buy turns into one to sell where the two probabilities change
/// places, and the confidence stays.
pub proof fn law_signals_mirror(p_drop: int, p_rise: int, threshold: Option<int>)
    ensures
        direction_of(Some(p_rise), Some(p_drop), threshold) == match direction_of(
            Some(p_drop),
            Some(p_rise),
            threshold,
        ) {
            1 => 2i64,
            2 => 1i64,
            _ => 0i64,
        },
        confidence_of(Some(p_rise), Some(p_drop), threshold) == confidence_of(
            Some(p_drop),
            Some(p_rise),
            threshold,
        ),
{
}

/// The confidence is the larger of the two probabilities, and a signal is at
/// least as sure as the threshold asks.
pub proof fn law_signals_are_sure(p_drop: int, p_rise: int, threshold: Option<int>)
    ensures
        confidence_of(Some(p_drop), Some(p_rise), threshold) == larger(Some(p_drop), Some(p_rise)),
        direction_of(Some(p_drop), Some(p_rise), threshold) != 0 ==> at_most(
            threshold,
            confidence_of(Some(p_drop), Some(p_rise), threshold),
        ),
{
}

/// A higher threshold never adds or turns a signal: it leaves it or takes it
/// away.
pub proof fn law_higher_threshold_takes_away(
    p_drop: Option<int>,
    p_rise: Option<int>,
    low: int,
    high: int,
)
    requires
        low <= high,
    ensures
        direction_of(p_drop, p_rise, Some(high)) == direction_of(p_drop, p_rise, Some(low))
            || direction_of(p_drop, p_rise, Some(high)) == 0,
{
}

/// The threshold alone decides: there is a signal to buy where a rise is more
/// probable than a fall and as probable as the threshold asks, and one to sell
/// the other way round. What is not a number gives no signal.
pub proof fn law_the_threshold_decides(
    p_drop: Option<int>,
    p_rise: Option<int>,
    threshold: Option<int>,
)
    ensures
        p_drop is Some && p_rise is Some && threshold is Some ==> {
            &&& direction_of(p_drop, p_rise, threshold) == 1 <==> p_drop->0 < p_rise->0
                && threshold->0 <= p_rise->0
            &&& direction_of(p_drop, p_rise, threshold) == 2 <==> p_rise->0 < p_drop->0
                && threshold->0 <= p_drop->0
            &&& 0 <= direction_of(p_drop, p_rise, threshold) <= 2
        },
        p_drop is None || p_rise is None || threshold is None ==> direction_of(
            p_drop,
            p_rise,
            threshold,
        ) == 0,
{
}

/// Two different probabilities always give a signal once the threshold is at
/// most the larger of them, and it goes the way of the larger.
pub proof fn law_low_thresholds_let_every_signal_through(p_drop: int, p_rise: int, threshold: int)
    requires
        p_drop != p_rise,
        threshold <= p_drop || threshold <= p_rise,
    ensures
        threshold <= p_drop && threshold <= p_rise ==> direction_of(
            Some(p_drop),
            Some(p_rise),
            Some(threshold),
        ) == (if p_rise > p_drop { 1i64 } else { 2i64 }),
        p_rise > p_drop ==> direction_of(Some(p_drop), Some(p_rise), Some(threshold)) == 1,
        p_rise < p_drop ==> direction_of(Some(p_drop), Some(p_rise), Some(threshold)) == 2,
{
}

/// The confidence is the probability of the way taken; where none is taken, it
/// is that of the more probable way, or of the one that is a number.
pub proof fn law_confidence_is_a_probability(
    p_drop: Option<int>,
    p_rise: Option<int>,
    threshold: Option<int>,
)
    ensures
        direction_of(p_drop, p_rise, threshold) == 1 ==> confidence_of(p_drop, p_rise, threshold)
            == p_rise,
        direction_of(p_drop, p_rise, threshold) == 2 ==> confidence_of(p_drop, p_rise, threshold)
            == p_drop,
        p_drop is Some && p_rise is Some ==> confidence_of(p_drop, p_rise, threshold) == (if p_drop->0
            > p_rise->0 {
            p_drop
        } else {
            p_rise
        }),
        p_drop is None ==> confidence_of(p_drop, p_rise, threshold) == p_rise,
        p_rise is None ==> confidence_of(p_drop, p_rise, threshold) == p_drop,
{
}

/// Without a wish for points alone every signal is shown; with it those whose
/// point is more probable than not, which is more than one half.
pub proof fn law_shown_signals_are_more_probable_than_not(signal: SignalView)
    ensures
        is_shown(signal, false),
        is_shown(signal, true) <==> signal.signal.is_bsp_prob@ is Some && 2
            * signal.signal.is_bsp_prob@->0 > unit(),
{
    vstd::arithmetic::power2::lemma2_to64();
    vstd::arithmetic::power2::lemma2_to64_rest();
    vstd::arithmetic::power2::lemma_pow2_adds(52, 1021);
    vstd::arithmetic::power2::lemma_pow2_unfold(1074);
    let f = crate::number::FRACTIONS as int;
    vstd::arithmetic::div_mod::lemma_fundamental_div_mod_converse(HALF_BITS as int, f, 1022, 0);
    assert((Double { bits: HALF_BITS })@ == Some(f * pow2(1021)));
}

/// The output that is found is the first whose name has the part, and none is
/// found only where no name has it.
pub proof fn law_first_output_is_found(list: Seq<Seq<char>>, part: Seq<char>, from: int, i: int)
    requires
        0 <= from,
    ensures
        match output_from(list, part, from) {
            Some(p) => {
                &&& from <= p < list.len()
                &&& has_part(list[p], part)
                &&& from <= i < p ==> !has_part(list[i], part)
            },
            None => from <= i < list.len() ==> !has_part(list[i], part),
        },
    decreases list.len() - from,
{
    if from < list.len() && !has_part(list[from], part) {
        law_first_output_is_found(list, part, from + 1, i);
    }
}

/// How many of the first windows the model gave a signal for.
pub open spec fn windows_with_signals(found: Seq<Option<Signal>>, n: int) -> int
    decreases n,
{
    if n <= 0 {
        0
    } else {
        windows_with_signals(found, n - 1) + (if found[n - 1] is Some { 1int } else { 0int })
    }
}

/// Every window that the model gave a signal for has it in the list, in the
/// order of the windows and with the time of its last bar; there are no others.
pub proof fn law_signals_come_window_by_window(
    records: Seq<OhlcvRecord>,
    seq_len: int,
    found: Seq<Option<Signal>>,
    n: int,
    w: int,
)
    requires
        0 <= w < n <= found.len(),
    ensures
        ({
            let list = window_signals(records, seq_len, found, n);
            let place = windows_with_signals(found, w);
            &&& list.len() == windows_with_signals(found, n)
            &&& found[w] is Some ==> 0 <= place < list.len() && list[place].signal == found[w]->0
                && list[place].time == records[w + seq_len - 1].dt@
        }),
    decreases n,
{
    if n > 1 {
        law_signals_come_window_by_window(records, seq_len, found, n - 1, if w < n - 1 { w } else { 0 });
    } else {
        assert(window_signals(records, seq_len, found, 0).len() == 0);
        assert(windows_with_signals(found, 0) == 0);
    }
    lemma_windows_with_signals(found, w);
}

proof fn lemma_windows_with_signals(found: Seq<Option<Signal>>, n: int)
    ensures
        windows_with_signals(found, n) >= 0,
    decreases n,
{
    if n > 0 {
        lemma_windows_with_signals(found, n - 1);
    }
}

/// A record of a signal shows its own time, direction, confidence and point, and a
/// list shows its records in order.
pub proof fn law_signal_records_show_their_fields(signals: Seq<SignalRecord>, i: int)
    requires
        0 <= i < signals.len(),
    ensures
        signal_views(signals).len() == signals.len(),
        ({
            let shown = signal_views(signals)[i];
            let record = signals[i];
            &&& shown.time == record.time@
            &&& shown.signal.direction == record.direction
            &&& shown.signal.confidence == record.confidence
            &&& shown.signal.is_bsp_prob == record.is_bsp_prob
        }),
{
}

/// The signals that are shown are exactly those that are to be, in their order:
/// one more signal comes last where it is to be shown, and changes nothing where
/// it is not.
pub proof fn law_signals_are_shown_one_by_one(
    signals: Seq<SignalView>,
    more: SignalView,
    bsp_only: bool,
)
    ensures
        ({
            let shown = |s: SignalView| is_shown(s, bsp_only);
            let before = signals.filter(shown);
            let after = signals.push(more).filter(shown);
            let wanted = !bsp_only || (more.signal.is_bsp_prob@ is Some && 2
                * more.signal.is_bsp_prob@->0 > unit());
            &&& wanted ==> after == before.push(more)
            &&& !wanted ==> after == before
        }),
{
    law_shown_signals_are_more_probable_than_not(more);
    reveal(Seq::filter);
    assert(signals.push(more).drop_last() =~= signals);
    assert(signals.push(more).last() == more);
}

} // verus!
