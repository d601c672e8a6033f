//! Bars, and the CZSC analyzer that finds fractals and strokes in them.
//!
//! The analyzer and its bars are values of `czsc_core`. The items of this
//! file that stand for its calls say what those calls do; nothing else in the
//! library touches the values themselves.
use super::bsp::{Bi, BiView, Direction};
use crate::number::Double;
use crate::single::rounded_sum;
use crate::time::{nanos_since_epoch, Timestamp};
use czsc_core::analyze::CZSC;
use czsc_core::objects::bar::RawBar;
use czsc_core::objects::freq::Freq;
use vstd::prelude::*;

verus! {

/// `czsc_core`'s bar.
#[verifier::external_type_specification]
#[verifier::external_body]
pub struct ExRawBar(czsc_core::objects::bar::RawBar);

/// `czsc_core`'s analyzer: a collection of the bars that it was fed.
#[verifier::external_type_specification]
#[verifier::external_body]
pub struct ExAnalyzer(czsc_core::analyze::CZSC);

/// `czsc_core`'s bar lengths.
#[verifier::external_type_specification]
pub struct ExFreq(czsc_core::objects::freq::Freq);

/// A candlestick.
#[derive(Clone, Copy, Debug, PartialEq, Eq, Structural)]
pub struct Bar {
    pub time: Timestamp,
    pub open: Double,
    pub close: Double,
    pub high: Double,
    pub low: Double,
    pub vol: Double,
    pub amount: Double,
}

/// A candlestick with its numbers in place of their bit patterns.
pub struct BarView {
    pub time: Timestamp,
    pub open: Option<int>,
    pub close: Option<int>,
    pub high: Option<int>,
    pub low: Option<int>,
    pub vol: Option<int>,
    pub amount: Option<int>,
}

impl View for Bar {
    type V = BarView;

    open spec fn view(&self) -> BarView {
        BarView {
            time: self.time,
            open: self.open@,
            close: self.close@,
            high: self.high@,
            low: self.low@,
            vol: self.vol@,
            amount: self.amount@,
        }
    }
}

/// The kind of a fractal.
#[derive(Clone, Copy, Debug, PartialEq, Eq, Structural)]
pub enum Mark {
    /// A bottom.
    D,
    /// A top.
    G,
}

/// What a bar holds: its time, its prices, its volume and its turnover.
pub uninterp spec fn bar_view(bar: RawBar) -> BarView;

/// What a bar is called, how long it is, and its number among others.
pub struct BarTag {
    pub symbol: Seq<char>,
    pub freq: Freq,
    pub id: i32,
}

/// The symbol, the length and the number that a bar carries.
pub uninterp spec fn bar_tag(bar: RawBar) -> BarTag;

/// What a list of bars holds.
pub open spec fn bar_views(bars: Seq<RawBar>) -> Seq<BarView> {
    Seq::new(bars.len(), |i: int| bar_view(bars[i]))
}

/// What `str::parse` makes of a text as a double-precision number: nothing
/// for a text that is no numeral; the numeral `nan` gives what is not a number.
pub uninterp spec fn number_of(text: Seq<char>) -> Option<Option<int>>;

/// The bar with a time and the numbers of six texts: open, close, high, low,
/// volume and turnover.
pub open spec fn numbered_bar(time: Timestamp, fields: Seq<Seq<char>>) -> BarView {
    BarView {
        time,
        open: number_of(fields[0])->0,
        close: number_of(fields[1])->0,
        high: number_of(fields[2])->0,
        low: number_of(fields[3])->0,
        vol: number_of(fields[4])->0,
        amount: number_of(fields[5])->0,
    }
}

/// The bar with this symbol, time, length and number, and with what
/// `str::parse` reads from six texts, or nothing where one of them is no
/// numeral.
#[verifier::external_body]
pub(crate) fn bar_from_texts(
    symbol: &str,
    time: Timestamp,
    freq: Freq,
    id: i32,
    open: &str,
    close: &str,
    high: &str,
    low: &str,
    vol: &str,
    amount: &str,
) -> (bar: Option<RawBar>)
    requires
        time.valid(),
    ensures
        bar is Some <==> (number_of(open@) is Some && number_of(close@) is Some && number_of(high@)
            is Some && number_of(low@) is Some && number_of(vol@) is Some && number_of(amount@)
            is Some),
        bar is Some ==> bar_view(bar->0) == numbered_bar(
            time,
            seq![open@, close@, high@, low@, vol@, amount@],
        ),
        bar is Some ==> bar_tag(bar->0) == (BarTag { symbol: symbol@, freq, id }),
{
    let dt = chrono::DateTime::from_timestamp(time.seconds, time.nanos)?;
    Some(RawBar {
        symbol: symbol.into(), dt, freq, id,
        open: open.parse().ok()?,
        close: close.parse().ok()?,
        high: high.parse().ok()?,
        low: low.parse().ok()?,
        vol: vol.parse().ok()?,
        amount: amount.parse().ok()?,
    })
}

/// Whether a text is a numeral, and so reads as a number.
pub fn is_number(text: &str) -> (yes: bool)
    ensures
        yes == (number_of(text@) is Some),
{
    let start = Timestamp { seconds: 0, nanos: 0 };
    bar_from_texts("", start, Freq::Tick, 0, text, text, text, text, text, text).is_some()
}

/// The fields of a `czsc_core` bar as plain values.
#[verifier::external_body]
pub(crate) fn read_bar(bar: &RawBar) -> (plain: Bar)
    ensures
        plain@ == bar_view(*bar),
{
    Bar {
        time: Timestamp { seconds: bar.dt.timestamp(), nanos: bar.dt.timestamp_subsec_nanos() },
        open: Double { bits: bar.open.to_bits() },
        close: Double { bits: bar.close.to_bits() },
        high: Double { bits: bar.high.to_bits() },
        low: Double { bits: bar.low.to_bits() },
        vol: Double { bits: bar.vol.to_bits() },
        amount: Double { bits: bar.amount.to_bits() },
    }
}

/// The closes of bars.
pub fn closes_of(bars: &[RawBar]) -> (closes: Vec<Double>)
    ensures
        closes@.len() == bars@.len(),
        forall|i: int|
            0 <= i < closes@.len() ==> (#[trigger] closes@[i])@ == bar_view(bars@[i]).close,
{
    let mut closes: Vec<Double> = Vec::new();
    let mut i: usize = 0;
    while i < bars.len()
        invariant
            i <= bars@.len(),
            closes@.len() == i,
            forall|j: int|
                0 <= j < i ==> (#[trigger] closes@[j])@ == bar_view(bars@[j]).close,
        decreases bars@.len() - i,
    {
        closes.push(read_bar(&bars[i]).close);
        i += 1;
    }
    closes
}

/// `chrono::DateTime::timestamp_nanos_opt` on the time of a bar: the
/// nanoseconds since the start of 1970, where they and the whole seconds among
/// them, counted towards 1970, fit in 64 bits.
#[verifier::external_body]
pub(crate) fn bar_nanos(bar: &RawBar) -> (nanos: Option<i64>)
    ensures
        nanos == nanos_since_epoch(bar_view(*bar).time),
{
    bar.dt.timestamp_nanos_opt()
}

/// `RawBar::clone`: a bar that holds and carries the same.
#[verifier::external_body]
pub(crate) fn copy_bar(bar: &RawBar) -> (copy: RawBar)
    ensures
        bar_view(copy) == bar_view(*bar),
        bar_tag(copy) == bar_tag(*bar),
{
    bar.clone()
}

/// `std::ops::Add::add` on the volumes and on the turnovers of two bars: the
/// first bar, with those two sums, each rounded to the nearest double, in place
/// of its own.
#[verifier::external_body]
pub(crate) fn add_totals(total: RawBar, bar: &RawBar) -> (sum: RawBar)
    ensures
        bar_view(sum) == (BarView {
            vol: rounded_sum(bar_view(total).vol, bar_view(*bar).vol),
            amount: rounded_sum(bar_view(total).amount, bar_view(*bar).amount),
            ..bar_view(total)
        }),
        bar_tag(sum) == bar_tag(total),
{
    RawBar {
        vol: std::ops::Add::add(total.vol, bar.vol),
        amount: std::ops::Add::add(total.amount, bar.amount),
        ..total
    }
}

/// `RawBarBuilder`: the bar with this symbol, length and number, with the time
/// and the open of one bar, the close of another, the high of a third, the low
/// of a fourth, and the volume and turnover of a fifth.
#[verifier::external_body]
pub(crate) fn assemble_bar(
    symbol: &str,
    freq: Freq,
    id: i32,
    first: &RawBar,
    last: &RawBar,
    top: &RawBar,
    bottom: &RawBar,
    total: &RawBar,
) -> (bar: RawBar)
    ensures
        bar_view(bar) == (BarView {
            time: bar_view(*first).time,
            open: bar_view(*first).open,
            close: bar_view(*last).close,
            high: bar_view(*top).high,
            low: bar_view(*bottom).low,
            vol: bar_view(*total).vol,
            amount: bar_view(*total).amount,
        }),
        bar_tag(bar) == (BarTag { symbol: symbol@, freq, id }),
{
    czsc_core::objects::bar::RawBarBuilder::default()
        .symbol(symbol).dt(first.dt).freq(freq).id(id)
        .open(first.open).close(last.close).high(top.high).low(bottom.low)
        .vol(total.vol).amount(total.amount)
        .build().unwrap()
}

/// The bars that an analyzer was made from and fed with, in order.
pub uninterp spec fn fed_bars(analyzer: CZSC) -> Seq<BarView>;

/// What the bars that an analyzer was made from and fed with carry, in order.
pub uninterp spec fn fed_tags(analyzer: CZSC) -> Seq<BarTag>;

/// How many strokes an analyzer keeps at most.
pub uninterp spec fn stroke_limit(analyzer: CZSC) -> nat;

/// The strokes that `CZSC` keeps of a run of bars, fed to it one by one.
pub uninterp spec fn strokes(bars: Seq<BarView>, limit: nat) -> Seq<BiView>;

/// The fractals that `CZSC` finds in a run of bars, fed to it one by one.
pub uninterp spec fn fractals(bars: Seq<BarView>, limit: nat) -> Seq<Mark>;

/// `CZSC::new` on a single bar.
#[verifier::external_body]
pub(crate) fn analyzer_from(bar: RawBar, limit: usize) -> (analyzer: CZSC)
    ensures
        fed_bars(analyzer) == seq![bar_view(bar)],
        fed_tags(analyzer) == seq![bar_tag(bar)],
        stroke_limit(analyzer) == limit,
{
    CZSC::new(vec![bar], limit)
}

/// `CZSC::update_bar`: feeds the analyzer one more bar, which must be later
/// than those before it.
#[verifier::external_body]
pub(crate) fn feed(analyzer: &mut CZSC, bar: RawBar)
    requires
        fed_bars(*old(analyzer)).len() > 0,
        fed_bars(*old(analyzer)).last().time.before(bar_view(bar).time),
    ensures
        fed_bars(*final(analyzer)) == fed_bars(*old(analyzer)).push(bar_view(bar)),
        fed_tags(*final(analyzer)) == fed_tags(*old(analyzer)).push(bar_tag(bar)),
        stroke_limit(*final(analyzer)) == stroke_limit(*old(analyzer)),
{
    analyzer.update_bar(bar)
}

/// `CZSC::bi_list`, each stroke by its direction, `BI::get_high`,
/// `BI::get_low` and `BI::get_change`: a function of the bars that were fed
/// and of how many strokes are kept.
#[verifier::external_body]
pub(crate) fn list_strokes(analyzer: &CZSC) -> (bis: Vec<Bi>)
    ensures
        super::bsp::bi_views(bis@) == strokes(fed_bars(*analyzer), stroke_limit(*analyzer)),
{
    analyzer.bi_list.iter().map(|b| Bi {
        direction: match b.direction {
            czsc_core::objects::direction::Direction::Up => Direction::Up,
            czsc_core::objects::direction::Direction::Down => Direction::Down,
        },
        high: Double { bits: b.get_high().to_bits() },
        low: Double { bits: b.get_low().to_bits() },
        change: Double { bits: b.get_change().to_bits() },
    }).collect()
}

/// `CZSC::get_fx_list`, each fractal by its kind: a function of the bars that
/// were fed and of how many strokes are kept.
#[verifier::external_body]
pub(crate) fn list_fractals(analyzer: &CZSC) -> (marks: Vec<Mark>)
    ensures
        marks@ == fractals(fed_bars(*analyzer), stroke_limit(*analyzer)),
{
    analyzer.get_fx_list().iter().map(|f| match f.mark {
        czsc_core::objects::mark::Mark::D => Mark::D,
        czsc_core::objects::mark::Mark::G => Mark::G,
    }).collect()
}

} // verus!
