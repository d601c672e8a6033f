//! Labels of one bar, and the timeframes that they are taken from.
use super::bsp::{bi_views, find_zs_groups, zones, zs_views, Bi, BiView, Direction};
use super::czsc::{
    add_totals, analyzer_from, assemble_bar, bar_tag, bar_view, bar_views, copy_bar, fed_bars, fed_tags,
    feed,
    fractals, list_fractals, list_strokes, read_bar, stroke_limit, strokes, BarTag,
    BarView, Mark,
};
use crate::number::{absolute, larger, smaller, Double};
use crate::single::{rounded_sum, single};
use czsc_core::analyze::CZSC;
use czsc_core::objects::bar::RawBar;
use czsc_core::objects::freq::Freq;
use vstd::prelude::*;

verus! {

/// How many strokes an analyzer keeps where no number is asked for.
pub const MAX_BI_NUM: usize = 5000;

/// The eight timeframes: name, and how many bars of one minute make one bar.
pub const TIMEFRAMES: [(&'static str, usize); 8] = [
    ("1m", 1),
    ("5m", 5),
    ("15m", 15),
    ("30m", 30),
    ("1h", 60),
    ("4h", 240),
    ("1d", 1440),
    ("1w", 10080),
];

/// The four labels that every timeframe has.
#[derive(Clone, Copy, Debug, PartialEq, Eq, Structural)]
pub struct TfLabels {
    /// 1 where a top fractal has just formed.
    pub has_top: u8,
    /// 1 where a bottom fractal has just formed.
    pub has_bottom: u8,
    /// 1 from the first upward stroke on that was told as new.
    pub bi_dir: u8,
    /// How many central zones there are.
    pub zs: usize,
}

/// The labels of one bar.
#[derive(Clone, Copy, Debug, PartialEq, Eq)]
pub struct ChanLabel {
    /// The labels of the eight timeframes.
    pub tf: [TfLabels; 8],
    /// The strength of the last upward stroke that was told as new.
    pub bi_strength: Double,
    /// 1 at a point at which to buy or sell.
    pub is_bsp: u8,
    /// 1 at a point at which to buy, 2 at one at which to sell.
    pub bsp_direction: u8,
    /// The return over the bars to come.
    pub next_return: Double,
    /// 0 for a fall, 1 for neither, 2 for a rise.
    pub return_label: i64,
}

/// The labels of a timeframe in which nothing has formed.
pub open spec fn no_labels() -> TfLabels {
    TfLabels { has_top: 0, has_bottom: 0, bi_dir: 0, zs: 0 }
}

impl TfLabels {
    /// The labels of a timeframe in which nothing has formed.
    pub fn none() -> (labels: TfLabels)
        ensures
            labels == no_labels(),
    {
        TfLabels { has_top: 0, has_bottom: 0, bi_dir: 0, zs: 0 }
    }
}

impl ChanLabel {
    /// The label with zeros throughout.
    pub fn zero() -> (label: ChanLabel)
        ensures
            forall|k: int| 0 <= k < 8 ==> #[trigger] label.tf@[k] == no_labels(),
            label.bi_strength.bits == 0,
            label.is_bsp == 0,
            label.bsp_direction == 0,
            label.next_return.bits == 0,
            label.return_label == 0,
    {
        ChanLabel {
            tf: [TfLabels::none();8],
            bi_strength: Double::zero(),
            is_bsp: 0,
            bsp_direction: 0,
            next_return: Double::zero(),
            return_label: 0,
        }
    }
}

/// Whether the newest fractal has just formed and is of a kind.
pub open spec fn formed(marks: Seq<Mark>, new_fx: bool, mark: Mark) -> bool {
    new_fx && marks.len() > 0 && marks.last() == mark
}

/// Whether a top and whether a bottom has just formed.
pub fn detect_fractals(marks: &[Mark], new_fx: bool) -> (flags: (u8, u8))
    ensures
        flags.0 == (if formed(marks@, new_fx, Mark::G) { 1u8 } else { 0u8 }),
        flags.1 == (if formed(marks@, new_fx, Mark::D) { 1u8 } else { 0u8 }),
{
    if !new_fx || marks.len() == 0 {
        return (0, 0);
    }
    match marks[marks.len() - 1] {
        Mark::G => (1, 0),
        Mark::D => (0, 1),
    }
}

/// Whether the newest stroke is told as new and runs upward.
pub open spec fn rose(bis: Seq<BiView>, new_bi: bool) -> bool {
    new_bi && bis.len() > 0 && bis.last().direction == Direction::Up
}

/// The direction and the strength of a stroke that has just formed: 1 for an
/// upward one, and the size of its relative change in single precision; zeros
/// for any other bar, but for the strength of a downward stroke.
pub fn detect_bi(bis: &[Bi], new_bi: bool) -> (found: (u8, Double))
    ensures
        found.0 == (if rose(bi_views(bis@), new_bi) { 1u8 } else { 0u8 }),
        found.1@ == (if new_bi && bis@.len() > 0 {
            single(absolute(bis@.last().change@))
        } else {
            Some(0int)
        }),
{
    if !new_bi || bis.len() == 0 {
        return (0, Double::zero());
    }
    let last = bis[bis.len() - 1];
    let direction: u8 = match last.direction {
        Direction::Up => 1,
        Direction::Down => 0,
    };
    (direction, last.change.abs().to_single())
}

/// How many central zones the strokes have.
pub fn count_zs(bis: &[Bi]) -> (count: usize)
    ensures
        count == zones(bi_views(bis@)).len(),
{
    let groups = find_zs_groups(bis);
    assert(zs_views(groups@).len() == groups@.len());
    groups.len()
}

/// The highest high of a run of bars.
pub open spec fn highest(bars: Seq<BarView>) -> Option<int>
    decreases bars.len(),
{
    if bars.len() <= 1 {
        bars[0].high
    } else {
        larger(highest(bars.drop_last()), bars.last().high)
    }
}

/// The lowest low of a run of bars.
pub open spec fn lowest(bars: Seq<BarView>) -> Option<int>
    decreases bars.len(),
{
    if bars.len() <= 1 {
        bars[0].low
    } else {
        smaller(lowest(bars.drop_last()), bars.last().low)
    }
}

/// The volume of a run of bars, added up from the first on.
pub open spec fn total_vol(bars: Seq<BarView>) -> Option<int>
    decreases bars.len(),
{
    if bars.len() <= 1 {
        bars[0].vol
    } else {
        rounded_sum(total_vol(bars.drop_last()), bars.last().vol)
    }
}

/// The turnover of a run of bars, added up from the first on.
pub open spec fn total_amount(bars: Seq<BarView>) -> Option<int>
    decreases bars.len(),
{
    if bars.len() <= 1 {
        bars[0].amount
    } else {
        rounded_sum(total_amount(bars.drop_last()), bars.last().amount)
    }
}

/// The one bar that stands for a run of bars.
pub open spec fn merged(bars: Seq<BarView>) -> BarView {
    BarView {
        time: bars.first().time,
        open: bars.first().open,
        close: bars.last().close,
        high: highest(bars),
        low: lowest(bars),
        vol: total_vol(bars),
        amount: total_amount(bars),
    }
}

/// Whether a bar's high and low are numbers.
pub open spec fn has_range(bar: BarView) -> bool {
    bar.high is Some && bar.low is Some
}

/// The strokes of the bars that an analyzer has seen, where it keeps so many.
pub open spec fn stroke_list(fed: Seq<BarView>, limit: nat) -> Seq<BiView> {
    if fed.len() == 0 {
        Seq::empty()
    } else {
        strokes(fed, limit)
    }
}

/// The fractals of the bars that an analyzer has seen, where it keeps so many
/// strokes.
pub open spec fn fractal_list(fed: Seq<BarView>, limit: nat) -> Seq<Mark> {
    if fed.len() == 0 {
        Seq::empty()
    } else {
        fractals(fed, limit)
    }
}

/// A timeframe as the labels see it.
pub struct TfView {
    /// What the timeframe is called.
    pub name: Seq<char>,
    /// How many bars are merged into one.
    pub factor: nat,
    /// How many strokes the analyzer keeps.
    pub limit: nat,
    /// The merged bars that the analyzer has seen.
    pub fed: Seq<BarView>,
    /// What the merged bars that the analyzer has seen carry.
    pub tags: Seq<BarTag>,
    /// The bars that wait to be merged.
    pub pending: Seq<BarView>,
    /// How many fractals there were before the newest bar.
    pub seen_fractals: nat,
    /// How many strokes there were before the newest bar.
    pub seen_strokes: nat,
    /// 1 once an upward stroke has been told as new.
    pub running_dir: u8,
    /// The strength of the last upward stroke that was told as new.
    pub running_strength: Option<int>,
}

/// One timeframe: bars are merged by the factor, and the merged bars analyzed.
pub struct TfCzsc {
    name: &'static str,
    factor: usize,
    limit: usize,
    czsc: Option<CZSC>,
    buffer: Vec<RawBar>,
    bar_id: i32,
    prev_fx: usize,
    prev_bi: usize,
    running_bi_dir: u8,
    running_bi_strength: Double,
}

impl View for TfCzsc {
    type V = TfView;

    closed spec fn view(&self) -> TfView {
        TfView {
            name: self.name@,
            factor: self.factor as nat,
            limit: self.limit as nat,
            fed: match self.czsc {
                Some(c) => fed_bars(c),
                None => Seq::empty(),
            },
            tags: match self.czsc {
                Some(c) => fed_tags(c),
                None => Seq::empty(),
            },
            pending: bar_views(self.buffer@),
            seen_fractals: self.prev_fx as nat,
            seen_strokes: self.prev_bi as nat,
            running_dir: self.running_bi_dir,
            running_strength: self.running_bi_strength@,
        }
    }
}

/// What the next merged bar of a timeframe carries: its name, the length of a
/// tick, and how many came before.
pub open spec fn next_tag(tf: TfView) -> BarTag {
    BarTag { symbol: tf.name, freq: Freq::Tick, id: tf.fed.len() as i32 }
}

/// A timeframe after one more bar: the bar waits, or completes a run that is
/// merged and handed to the analyzer.
pub open spec fn pushed(tf: TfView, bar: BarView) -> TfView {
    if tf.pending.len() + 1 >= tf.factor {
        TfView {
            fed: tf.fed.push(merged(tf.pending.push(bar))),
            tags: tf.tags.push(next_tag(tf)),
            pending: Seq::empty(),
            seen_fractals: fractal_list(tf.fed, tf.limit).len(),
            seen_strokes: stroke_list(tf.fed, tf.limit).len(),
            ..tf
        }
    } else {
        TfView { pending: tf.pending.push(bar), ..tf }
    }
}

/// Whether a stroke has formed with the newest merged bar, told by the number of
/// strokes: one that comes while the analyzer holds as many as it keeps pushes
/// out the oldest, and is not told.
pub open spec fn new_stroke(tf: TfView) -> bool {
    stroke_list(tf.fed, tf.limit).len() > tf.seen_strokes
}

/// Whether a fractal has formed with the newest merged bar, told by the number
/// of fractals: one that comes as a stroke and its fractals are dropped is not
/// told.
pub open spec fn new_fractal(tf: TfView) -> bool {
    fractal_list(tf.fed, tf.limit).len() > tf.seen_fractals
}

/// A timeframe after its labels have been taken.
pub open spec fn extracted(tf: TfView) -> TfView {
    let up = rose(stroke_list(tf.fed, tf.limit), new_stroke(tf));
    TfView {
        seen_fractals: fractal_list(tf.fed, tf.limit).len(),
        seen_strokes: stroke_list(tf.fed, tf.limit).len(),
        running_dir: if up { 1u8 } else { tf.running_dir },
        running_strength: if up {
            single(absolute(stroke_list(tf.fed, tf.limit).last().change))
        } else {
            tf.running_strength
        },
        ..tf
    }
}

/// The labels of a timeframe.
pub open spec fn labels_of(tf: TfView) -> TfLabels {
    let marks = fractal_list(tf.fed, tf.limit);
    TfLabels {
        has_top: if formed(marks, new_fractal(tf), Mark::G) { 1u8 } else { 0u8 },
        has_bottom: if formed(marks, new_fractal(tf), Mark::D) { 1u8 } else { 0u8 },
        bi_dir: extracted(tf).running_dir,
        zs: zones(stroke_list(tf.fed, tf.limit)).len() as usize,
    }
}

/// A timeframe that has seen nothing.
pub open spec fn fresh(name: Seq<char>, factor: nat, limit: nat) -> TfView {
    TfView {
        name,
        factor,
        limit,
        fed: Seq::empty(),
        tags: Seq::empty(),
        pending: Seq::empty(),
        seen_fractals: 0,
        seen_strokes: 0,
        running_dir: 0,
        running_strength: Some(0int),
    }
}

impl TfCzsc {
    /// Whether the timeframe is in order.
    pub closed spec fn wf(self) -> bool {
        &&& self.buffer@.len() == 0 || self.buffer@.len() < self.factor
        &&& self.czsc matches Some(c) ==> fed_bars(c).len() > 0 && stroke_limit(c) == self.limit
        &&& self@.fed.len() == self.bar_id
        &&& self@.fed.len() > 0 && self@.pending.len() > 0 ==> self@.fed.last().time.before(
            self@.pending.first().time,
        )
        &&& forall|i: int| 0 <= i < self@.pending.len() ==> has_range(#[trigger] self@.pending[i])
        &&& self.running_bi_dir <= 1
        &&& self@.fed.len() == 0 ==> self.prev_fx == 0 && self.prev_bi == 0 && self.running_bi_dir
            == 0
    }

    /// A timeframe that has seen nothing.
    pub fn new(name: &'static str, factor: usize) -> (tf: TfCzsc)
        ensures
            tf.wf(),
            tf@ == fresh(name@, factor as nat, MAX_BI_NUM as nat),
    {
        TfCzsc::with_limit(name, factor, MAX_BI_NUM)
    }

    /// A timeframe that has seen nothing, whose analyzer keeps so many strokes.
    /// A stroke that pushes out the oldest of as many is not told as new.
    pub fn with_limit(name: &'static str, factor: usize, limit: usize) -> (tf: TfCzsc)
        ensures
            tf.wf(),
            tf@ == fresh(name@, factor as nat, limit as nat),
    {
        let tf = TfCzsc {
            name,
            factor,
            limit,
            czsc: None,
            buffer: Vec::new(),
            bar_id: 0,
            prev_fx: 0,
            prev_bi: 0,
            running_bi_dir: 0,
            running_bi_strength: Double::zero(),
        };
        assert(tf@.pending =~= Seq::empty());
        tf
    }

    /// Takes one more bar, and says whether it completed a run.
    pub fn push(&mut self, bar: &RawBar) -> (complete: bool)
        requires
            old(self).wf(),
            has_range(bar_view(*bar)),
            old(self)@.pending.len() == 0 && old(self)@.fed.len() > 0
                ==> old(self)@.fed.last().time.before(bar_view(*bar).time),
            old(self)@.fed.len() < i32::MAX,
        ensures
            final(self).wf(),
            final(self)@ == pushed(old(self)@, bar_view(*bar)),
            complete == (old(self)@.pending.len() + 1 >= old(self)@.factor),
    {
        self.buffer.push(copy_bar(bar));
        assert(bar_views(self.buffer@) =~= old(self)@.pending.push(bar_view(*bar)));
        if self.buffer.len() >= self.factor {
            self.flush();
            true
        } else {
            false
        }
    }

    fn merge(&self) -> (bar: RawBar)
        requires
            self.buffer@.len() > 0,
            forall|i: int| 0 <= i < self@.pending.len() ==> has_range(#[trigger] self@.pending[i]),
        ensures
            bar_view(bar) == merged(self@.pending),
            bar_tag(bar) == (BarTag { symbol: self.name@, freq: Freq::Tick, id: self.bar_id }),
    {
        let ghost all = bar_views(self.buffer@);
        let mut total: RawBar = copy_bar(&self.buffer[0]);
        let mut top: usize = 0;
        let mut bottom: usize = 0;
        let mut i: usize = 1;
        proof {
            assert(all.take(1).len() == 1);
            assert(has_range(self@.pending[0]));
        }
        while i < self.buffer.len()
            invariant
                1 <= i <= self.buffer@.len(),
                all == bar_views(self.buffer@),
                all == self@.pending,
                forall|j: int| 0 <= j < all.len() ==> has_range(#[trigger] all[j]),
                top < i,
                bottom < i,
                all[top as int].high == highest(all.take(i as int)),
                all[bottom as int].low == lowest(all.take(i as int)),
                bar_view(total).vol == total_vol(all.take(i as int)),
                bar_view(total).amount == total_amount(all.take(i as int)),
            decreases self.buffer@.len() - i,
        {
            proof {
                assert(all.take(i + 1).drop_last() =~= all.take(i as int));
                assert(all.take(i + 1).last() == all[i as int]);
                assert(has_range(all[i as int]));
                assert(has_range(all[top as int]));
                assert(has_range(all[bottom as int]));
            }
            let bar = read_bar(&self.buffer[i]);
            if !bar.high.lt(read_bar(&self.buffer[top]).high) {
                top = i;
            }
            if bar.low.lt(read_bar(&self.buffer[bottom]).low) {
                bottom = i;
            }
            total = add_totals(total, &self.buffer[i]);
            i += 1;
        }
        let n: usize = self.buffer.len();
        assert(all.take(n as int) =~= all);
        assemble_bar(
            self.name,
            Freq::Tick,
            self.bar_id,
            &self.buffer[0],
            &self.buffer[n - 1],
            &self.buffer[top],
            &self.buffer[bottom],
            &total,
        )
    }

    fn flush(&mut self)
        requires
            old(self).buffer@.len() > 0,
            old(self).bar_id < i32::MAX,
            old(self)@.fed.len() == old(self).bar_id,
            old(self).running_bi_dir <= 1,
            old(self).czsc matches Some(c) ==> fed_bars(c).len() > 0 && stroke_limit(c)
                == old(self).limit,
            old(self)@.fed.len() > 0 ==> old(self)@.fed.last().time.before(
                old(self)@.pending.first().time,
            ),
            forall|i: int|
                0 <= i < old(self)@.pending.len() ==> has_range(#[trigger] old(self)@.pending[i]),
        ensures
            final(self).wf(),
            final(self)@ == (TfView {
                fed: old(self)@.fed.push(merged(old(self)@.pending)),
                tags: old(self)@.tags.push(next_tag(old(self)@)),
                pending: Seq::empty(),
                seen_fractals: fractal_list(old(self)@.fed, old(self)@.limit).len(),
                seen_strokes: stroke_list(old(self)@.fed, old(self)@.limit).len(),
                ..old(self)@
            }),
    {
        let bar = self.merge();
        self.buffer = Vec::new();
        self.bar_id = self.bar_id + 1;
        match self.czsc.take() {
            Some(analyzer) => {
                let mut analyzer = analyzer;
                self.prev_fx = list_fractals(&analyzer).len();
                let bis = list_strokes(&analyzer);
                assert(bi_views(bis@).len() == bis@.len());
                self.prev_bi = bis.len();
                feed(&mut analyzer, bar);
                self.czsc = Some(analyzer);
            },
            None => {
                self.prev_fx = 0;
                self.prev_bi = 0;
                self.czsc = Some(analyzer_from(bar, self.limit));
                assert(self@.fed =~= old(self)@.fed.push(merged(old(self)@.pending)));
                assert(self@.tags =~= old(self)@.tags.push(next_tag(old(self)@)));
            },
        }
        assert(self@.pending =~= Seq::empty());
    }

    /// Takes the labels of the timeframe. How many strokes are kept was settled
    /// when the timeframe was made, so the number here changes nothing.
    pub fn extract(&mut self, _max_bi_num: usize) -> (labels: TfLabels)
        requires
            old(self).wf(),
        ensures
            final(self).wf(),
            final(self)@ == extracted(old(self)@),
            labels == labels_of(old(self)@),
    {
        let (marks, bis): (Vec<Mark>, Vec<Bi>) = match &self.czsc {
            Some(analyzer) => (list_fractals(analyzer), list_strokes(analyzer)),
            None => return TfLabels::none(),
        };
        assert(bi_views(bis@).len() == bis@.len());
        let new_fx = marks.len() > self.prev_fx;
        let new_bi = bis.len() > self.prev_bi;
        self.prev_fx = marks.len();
        self.prev_bi = bis.len();
        let (top, bottom) = detect_fractals(marks.as_slice(), new_fx);
        let (raw_dir, strength) = detect_bi(bis.as_slice(), new_bi);
        if new_bi && raw_dir != 0 {
            self.running_bi_dir = raw_dir;
            self.running_bi_strength = strength;
        }
        let bi_dir: u8 = if raw_dir != 0 { raw_dir } else { self.running_bi_dir };
        TfLabels { has_top: top, has_bottom: bottom, bi_dir, zs: count_zs(bis.as_slice()) }
    }
}

/// Before its first merged bar a timeframe has no direction, and has seen no
/// fractal and no stroke.
pub proof fn law_nothing_before_the_first_bar(tf: TfCzsc)
    requires
        tf.wf(),
        tf@.fed.len() == 0,
    ensures
        tf@.running_dir == 0,
        tf@.seen_fractals == 0,
        tf@.seen_strokes == 0,
        labels_of(tf@) == no_labels(),
{
    assert(stroke_list(tf@.fed, tf@.limit).len() == 0);
    assert(zones(stroke_list(tf@.fed, tf@.limit)).len() == 0);
}

/// A timeframe after some bars, one by one.
pub open spec fn after_pushes(tf: TfView, bars: Seq<BarView>) -> TfView
    decreases bars.len(),
{
    if bars.len() == 0 {
        tf
    } else {
        pushed(after_pushes(tf, bars.drop_last()), bars.last())
    }
}

/// Every bar whose number is a multiple of the factor completes a run: so many
/// whole runs have been merged and handed to the analyzer, each under its
/// number, and the rest wait.
pub proof fn law_every_run_completes(
    name: Seq<char>,
    factor: nat,
    limit: nat,
    bars: Seq<BarView>,
)
    requires
        factor >= 1,
    ensures
        ({
            let tf = after_pushes(fresh(name, factor, limit), bars);
            let runs = bars.len() / factor;
            &&& tf.fed.len() == runs
            &&& tf.tags.len() == runs
            &&& forall|j: int|
                0 <= j < runs ==> #[trigger] tf.fed[j] == merged(
                    bars.subrange(j * factor, (j + 1) * factor),
                )
            &&& forall|j: int|
                0 <= j < runs ==> #[trigger] tf.tags[j] == (BarTag {
                    symbol: name,
                    freq: Freq::Tick,
                    id: j as i32,
                })
            &&& tf.pending == bars.skip((runs * factor) as int)
            &&& tf.pending.len() == bars.len() % factor
            &&& tf.factor == factor
            &&& tf.name == name
            &&& tf.limit == limit
        }),
        bars.len() > 0 ==> (after_pushes(
            fresh(name, factor, limit),
            bars.drop_last(),
        ).pending.len() + 1 >= factor <==> bars.len() % factor == 0),
    decreases bars.len(),
{
    let f = factor as int;
    let n = bars.len() as int;
    vstd::arithmetic::div_mod::lemma_fundamental_div_mod(n, f);
    vstd::arithmetic::div_mod::lemma_mod_bound(n, f);
    vstd::arithmetic::mul::lemma_mul_is_commutative(n / f, f);
    if n == 0 {
        assert(0int / f == 0) by {
            vstd::arithmetic::div_mod::lemma_fundamental_div_mod_converse(0, f, 0, 0);
        }
        assert(0 * f == 0);
        assert(bars.skip(0) =~= Seq::empty());
    } else {
        let fewer = bars.drop_last();
        law_every_run_completes(name, factor, limit, fewer);
        let before = after_pushes(fresh(name, factor, limit), fewer);
        let a = (n - 1) / f;
        let r = (n - 1) % f;
        vstd::arithmetic::div_mod::lemma_fundamental_div_mod(n - 1, f);
        vstd::arithmetic::div_mod::lemma_mod_bound(n - 1, f);
        vstd::arithmetic::mul::lemma_mul_is_commutative(a, f);
        vstd::arithmetic::div_mod::lemma_div_pos_is_pos(n - 1, f);
        assert(a * f >= 0) by (nonlinear_arith)
            requires
                a >= 0,
                f >= 1,
        ;
        let run = before.pending.push(bars.last());
        assert(run =~= bars.skip(a * f));
        assert forall|j: int| 0 <= j < a implies #[trigger] before.fed[j] == merged(
            bars.subrange(j * f, (j + 1) * f),
        ) by {
            assert(0 <= j * f <= (j + 1) * f <= a * f) by (nonlinear_arith)
                requires
                    0 <= j,
                    j + 1 <= a,
                    f >= 1,
            ;
            assert(fewer.subrange(j * f, (j + 1) * f) =~= bars.subrange(j * f, (j + 1) * f));
        }
        if r + 1 < f {
            vstd::arithmetic::div_mod::lemma_fundamental_div_mod_converse(n, f, a, r + 1);
        } else {
            assert((a + 1) * f == a * f + f) by (nonlinear_arith);
            vstd::arithmetic::div_mod::lemma_fundamental_div_mod_converse(n, f, a + 1, 0);
            assert(run =~= bars.subrange(a * f, (a + 1) * f));
            assert(bars.skip((a + 1) * f) =~= Seq::empty());
        }
    }
}

/// A run of one bar is merged into that bar, and one more bar changes what a run
/// is merged into as a bar does: the time and the open stay, the close is the
/// new one, high and low reach as far as the new bar does, and volume and
/// turnover are added.
pub proof fn law_runs_are_merged_bar_by_bar(run: Seq<BarView>, bar: BarView)
    requires
        run.len() > 0,
    ensures
        merged(seq![bar]) == bar,
        merged(run.push(bar)).time == merged(run).time,
        merged(run.push(bar)).open == merged(run).open,
        merged(run.push(bar)).close == bar.close,
        merged(run.push(bar)).high == larger(merged(run).high, bar.high),
        merged(run.push(bar)).low == smaller(merged(run).low, bar.low),
        merged(run.push(bar)).vol == rounded_sum(merged(run).vol, bar.vol),
        merged(run.push(bar)).amount == rounded_sum(merged(run).amount, bar.amount),
{
    assert(run.push(bar).drop_last() =~= run);
}

/// The bar that stands for a run starts when and where its first bar does and
/// ends where the last one does; no bar of the run goes beyond its high or its
/// low, and some bar reaches each.
pub proof fn law_merged_bars_span_their_run(run: Seq<BarView>, j: int)
    requires
        0 <= j < run.len(),
        forall|i: int| 0 <= i < run.len() ==> (#[trigger] run[i]).high is Some && run[i].low is Some,
    ensures
        merged(run).time == run[0].time,
        merged(run).open == run[0].open,
        merged(run).close == run[run.len() - 1].close,
        merged(run).high is Some && run[j].high->0 <= merged(run).high->0,
        merged(run).low is Some && merged(run).low->0 <= run[j].low->0,
        exists|i: int| 0 <= i < run.len() && (#[trigger] run[i]).high == merged(run).high,
        exists|i: int| 0 <= i < run.len() && (#[trigger] run[i]).low == merged(run).low,
    decreases run.len(),
{
    let n = run.len() as int;
    assert(run[0].high is Some);
    if n > 1 {
        let fewer = run.drop_last();
        assert forall|i: int| 0 <= i < fewer.len() implies (#[trigger] fewer[i]).high is Some
            && fewer[i].low is Some by {
            assert(run[i].high is Some);
        }
        law_merged_bars_span_their_run(fewer, if j < n - 1 { j } else { 0 });
        assert(run[n - 1].high is Some && run[n - 1].low is Some);
        let a = choose|i: int| 0 <= i < fewer.len() && (#[trigger] fewer[i]).high == merged(fewer).high;
        let b = choose|i: int| 0 <= i < fewer.len() && (#[trigger] fewer[i]).low == merged(fewer).low;
        assert(run[a] == fewer[a] && run[b] == fewer[b]);
        assert(run[j] == if j < n - 1 { fewer[j] } else { run.last() });
        if merged(run).high != merged(fewer).high {
            assert(run[n - 1].high == merged(run).high);
        } else {
            assert(run[a].high == merged(run).high);
        }
        if merged(run).low != merged(fewer).low {
            assert(run[n - 1].low == merged(run).low);
        } else {
            assert(run[b].low == merged(run).low);
        }
    } else {
        assert(run[0].high == merged(run).high);
        assert(run[0].low == merged(run).low);
    }
}

/// A bar that completes a run has it merged and handed to the analyzer, and what
/// the analyzer showed before is what new strokes and fractals are told by; any
/// other bar waits and changes nothing else. Neither changes the direction.
pub proof fn law_a_bar_waits_or_completes_a_run(tf: TfView, bar: BarView)
    ensures
        ({
            let next = pushed(tf, bar);
            let completes = tf.pending.len() + 1 >= tf.factor;
            &&& next.running_dir == tf.running_dir
            &&& next.running_strength == tf.running_strength
            &&& next.name == tf.name && next.factor == tf.factor && next.limit == tf.limit
            &&& completes ==> {
                &&& next.fed == tf.fed.push(merged(tf.pending.push(bar)))
                &&& next.tags.len() == tf.tags.len() + 1
                &&& next.pending.len() == 0
                &&& next.seen_strokes == (if tf.fed.len() == 0 {
                    0
                } else {
                    strokes(tf.fed, tf.limit).len()
                })
                &&& next.seen_fractals == (if tf.fed.len() == 0 {
                    0
                } else {
                    fractals(tf.fed, tf.limit).len()
                })
            }
            &&& !completes ==> {
                &&& next.fed == tf.fed
                &&& next.tags == tf.tags
                &&& next.pending == tf.pending.push(bar)
                &&& next.seen_strokes == tf.seen_strokes
                &&& next.seen_fractals == tf.seen_fractals
            }
        }),
{
}

/// A timeframe that has seen nothing has nothing: no bars, none that wait, no
/// direction and no strength.
pub proof fn law_a_fresh_timeframe_has_nothing(name: Seq<char>, factor: nat, limit: nat)
    ensures
        ({
            let tf = fresh(name, factor, limit);
            &&& tf.name == name && tf.factor == factor && tf.limit == limit
            &&& tf.fed.len() == 0 && tf.tags.len() == 0 && tf.pending.len() == 0
            &&& tf.seen_fractals == 0 && tf.seen_strokes == 0
            &&& tf.running_dir == 0 && tf.running_strength == Some(0int)
        }),
{
}

/// How many minutes a bar of each timeframe stands for.
pub proof fn law_timeframes_are_minutes(k: int)
    requires
        0 <= k < 8,
    ensures
        TIMEFRAMES@[k].1 == seq![1int, 5, 15, 30, 60, 240, 1440, 10080][k],
{
}

} // verus!
