//! Central zones and the points at which to buy or sell.
use crate::number::{absolute, at_most, larger, less, smaller, Double};
use vstd::prelude::*;

verus! {

/// Which way a stroke runs.
#[derive(Clone, Copy, Debug, PartialEq, Eq, Structural)]
pub enum Direction {
    Up,
    Down,
}

/// A stroke: a run of bars from one fractal to the opposite one.
#[derive(Clone, Copy, Debug, PartialEq, Eq, Structural)]
pub struct Bi {
    pub direction: Direction,
    pub high: Double,
    pub low: Double,
    /// The relative change from the first fractal to the last.
    pub change: Double,
}

/// A stroke with its numbers in place of their bit patterns.
pub struct BiView {
    pub direction: Direction,
    pub high: Option<int>,
    pub low: Option<int>,
    pub change: Option<int>,
}

impl View for Bi {
    type V = BiView;

    open spec fn view(&self) -> BiView {
        BiView {
            direction: self.direction,
            high: self.high@,
            low: self.low@,
            change: self.change@,
        }
    }
}

/// The strokes of a list.
pub open spec fn bi_views(bis: Seq<Bi>) -> Seq<BiView> {
    Seq::new(bis.len(), |i: int| bis[i]@)
}

/// A central zone: three strokes or more that share a range of prices.
#[derive(Clone, Copy, Debug, PartialEq, Eq, Structural)]
pub struct ZsGroup {
    /// The upper edge.
    pub zg: Double,
    /// The lower edge.
    pub zd: Double,
    /// The first stroke of the zone.
    pub start: usize,
    /// The last stroke of the zone, the one before the stroke that leaves it.
    pub end: usize,
}

/// A central zone with its numbers in place of their bit patterns.
pub struct ZsView {
    pub zg: Option<int>,
    pub zd: Option<int>,
    pub start: int,
    pub end: int,
}

impl View for ZsGroup {
    type V = ZsView;

    open spec fn view(&self) -> ZsView {
        ZsView { zg: self.zg@, zd: self.zd@, start: self.start as int, end: self.end as int }
    }
}

/// The zones of a list.
pub open spec fn zs_views(groups: Seq<ZsGroup>) -> Seq<ZsView> {
    Seq::new(groups.len(), |i: int| groups[i]@)
}

/// The upper edge that the three strokes from `i` on have in common.
pub open spec fn upper_edge(bis: Seq<BiView>, i: int) -> Option<int> {
    smaller(smaller(bis[i].high, bis[i + 1].high), bis[i + 2].high)
}

/// The lower edge that the three strokes from `i` on have in common.
pub open spec fn lower_edge(bis: Seq<BiView>, i: int) -> Option<int> {
    larger(larger(bis[i].low, bis[i + 1].low), bis[i + 2].low)
}

/// Whether the three strokes from `i` on share a range of prices.
pub open spec fn overlap_at(bis: Seq<BiView>, i: int) -> bool {
    at_most(lower_edge(bis, i), upper_edge(bis, i))
}

/// Whether a stroke reaches into the range from `zd` to `zg`.
pub open spec fn reaches(b: BiView, zd: Option<int>, zg: Option<int>) -> bool {
    at_most(zd, b.high) && at_most(b.low, zg)
}

/// The first stroke from `j` on that does not reach into the range, or the
/// end of the list.
pub open spec fn leaving_stroke(
    bis: Seq<BiView>,
    j: int,
    zd: Option<int>,
    zg: Option<int>,
) -> int
    decreases bis.len() - j,
{
    if j < bis.len() && reaches(bis[j], zd, zg) {
        leaving_stroke(bis, j + 1, zd, zg)
    } else {
        j
    }
}

/// The zone that the three strokes from `i` on open.
pub open spec fn zone_at(bis: Seq<BiView>, i: int) -> ZsView {
    let zg = upper_edge(bis, i);
    let zd = lower_edge(bis, i);
    ZsView { zg, zd, start: i, end: leaving_stroke(bis, i + 3, zd, zg) - 1 }
}

/// Every stroke before the one that leaves a range reaches into it, and that
/// one does not.
pub proof fn lemma_leaving_stroke(bis: Seq<BiView>, j: int, zd: Option<int>, zg: Option<int>)
    requires
        j <= bis.len(),
    ensures
        j <= leaving_stroke(bis, j, zd, zg) <= bis.len(),
        forall|p: int| j <= p < leaving_stroke(bis, j, zd, zg) ==> reaches(#[trigger] bis[p], zd, zg),
        leaving_stroke(bis, j, zd, zg) < bis.len() ==> !reaches(
            bis[leaving_stroke(bis, j, zd, zg)],
            zd,
            zg,
        ),
    decreases bis.len() - j,
{
    if j < bis.len() && reaches(bis[j], zd, zg) {
        lemma_leaving_stroke(bis, j + 1, zd, zg);
    }
}

/// The zones of the strokes from `i` on, taken from the left: a zone opens at
/// the first three strokes that overlap, holds every stroke up to the one
/// that leaves its range, and the search goes on from that stroke.
pub open spec fn zones_from(bis: Seq<BiView>, i: int) -> Seq<ZsView>
    decreases bis.len() - i,
    via zones_from_ends
{
    if i + 2 >= bis.len() {
        Seq::empty()
    } else if overlap_at(bis, i) {
        seq![zone_at(bis, i)] + zones_from(bis, zone_at(bis, i).end + 1)
    } else {
        zones_from(bis, i + 1)
    }
}

#[via_fn]
proof fn zones_from_ends(bis: Seq<BiView>, i: int) {
    if i + 2 < bis.len() && overlap_at(bis, i) {
        lemma_leaving_stroke(bis, i + 3, lower_edge(bis, i), upper_edge(bis, i));
    }
}

/// All zones of a list of strokes.
pub open spec fn zones(bis: Seq<BiView>) -> Seq<ZsView> {
    zones_from(bis, 0)
}

/// Finds the central zones of a list of strokes.
pub fn find_zs_groups(bis: &[Bi]) -> (groups: Vec<ZsGroup>)
    ensures
        zs_views(groups@) == zones(bi_views(bis@)),
{
    let ghost all = bi_views(bis@);
    let mut groups: Vec<ZsGroup> = Vec::new();
    let n: usize = bis.len();
    if n < 3 {
        assert(zs_views(groups@) =~= zones(all));
        return groups;
    }
    let mut i: usize = 0;
    while i < n - 2
        invariant
            n == bis@.len(),
            n >= 3,
            i <= n,
            all == bi_views(bis@),
            zs_views(groups@) + zones_from(all, i as int) == zones(all),
        decreases n - i,
    {
        let zg = bis[i].high.min(bis[i + 1].high).min(bis[i + 2].high);
        let zd = bis[i].low.max(bis[i + 1].low).max(bis[i + 2].low);
        assert(zg@ == upper_edge(all, i as int));
        assert(zd@ == lower_edge(all, i as int));
        if zd.le(zg) {
            let mut j: usize = i + 3;
            while j < n && zd.le(bis[j].high) && bis[j].low.le(zg)
                invariant
                    n == bis@.len(),
                    i + 3 <= j <= n,
                    all == bi_views(bis@),
                    leaving_stroke(all, j as int, zd@, zg@) == leaving_stroke(
                        all,
                        i + 3,
                        zd@,
                        zg@,
                    ),
                decreases n - j,
            {
                j += 1;
            }
            let ghost before = groups@;
            let group = ZsGroup { zg, zd, start: i, end: j - 1 };
            groups.push(group);
            proof {
                assert(group@ == zone_at(all, i as int));
                assert(zs_views(groups@) =~= zs_views(before).push(group@));
                assert(zs_views(before) + (seq![group@] + zones_from(all, j as int)) =~= zs_views(
                    groups@,
                ) + zones_from(all, j as int));
            }
            i = j;
        } else {
            i += 1;
        }
    }
    assert(zs_views(groups@) =~= zs_views(groups@) + zones_from(all, i as int));
    groups
}

/// The stroke nearest before `k` that runs in a direction.
pub open spec fn latest_before(bis: Seq<BiView>, k: int, direction: Direction) -> Option<int>
    decreases k,
{
    if k <= 0 {
        None
    } else if bis[k - 1].direction == direction {
        Some(k - 1)
    } else {
        latest_before(bis, k - 1, direction)
    }
}

/// Whether the first stroke is the weaker one.
pub open spec fn weaker(a: BiView, b: BiView) -> bool {
    less(absolute(a.change), absolute(b.change))
}

/// What the search for buy and sell points remembers: places in the list of
/// strokes. They are not moved as strokes are dropped from the front of the
/// list, so that then another stroke stands there.
pub struct BspView {
    /// The place of the stroke that confirmed the last first-kind buy point.
    pub buy: Option<int>,
    /// The place of the stroke that confirmed the last first-kind sell point.
    pub sell: Option<int>,
}

/// A first-kind buy point: an upward stroke after a downward one that made a
/// lower low than the downward stroke before it, with less strength.
pub open spec fn first_buy(bis: Seq<BiView>) -> bool {
    let n = bis.len() as int;
    &&& n >= 4
    &&& bis[n - 1].direction == Direction::Up
    &&& bis[n - 2].direction == Direction::Down
    &&& match latest_before(bis, n - 2, Direction::Down) {
        Some(p) => less(bis[n - 2].low, bis[p].low) && weaker(bis[n - 2], bis[p]),
        None => false,
    }
}

/// A second-kind buy point: a downward stroke, after a first-kind buy point,
/// that stays above the low of the stroke in the place of the one that
/// confirmed it.
pub open spec fn second_buy(state: BspView, bis: Seq<BiView>) -> bool {
    let n = bis.len() as int;
    &&& bis[n - 1].direction == Direction::Down
    &&& match state.buy {
        Some(at) => at < n - 1 && less(bis[at].low, bis[n - 1].low),
        None => false,
    }
}

/// A third-kind buy point: a downward stroke that stays above the last zone
/// of the strokes before it.
pub open spec fn third_buy(bis: Seq<BiView>) -> bool {
    let before = zones(bis.drop_last());
    &&& bis.last().direction == Direction::Down
    &&& before.len() > 0
    &&& less(before.last().zg, bis.last().low)
}

/// A first-kind sell point: a downward stroke after an upward one that made a
/// higher high than the upward stroke before it, with less strength.
pub open spec fn first_sell(bis: Seq<BiView>) -> bool {
    let n = bis.len() as int;
    &&& n >= 4
    &&& bis[n - 1].direction == Direction::Down
    &&& bis[n - 2].direction == Direction::Up
    &&& match latest_before(bis, n - 2, Direction::Up) {
        Some(p) => less(bis[p].high, bis[n - 2].high) && weaker(bis[n - 2], bis[p]),
        None => false,
    }
}

/// A second-kind sell point: an upward stroke, after a first-kind sell point,
/// that stays below the high of the stroke in the place of the one that
/// confirmed it.
pub open spec fn second_sell(state: BspView, bis: Seq<BiView>) -> bool {
    let n = bis.len() as int;
    &&& bis[n - 1].direction == Direction::Up
    &&& match state.sell {
        Some(at) => at < n - 1 && less(bis[n - 1].high, bis[at].high),
        None => false,
    }
}

/// A third-kind sell point: an upward stroke that stays below the last zone
/// of the strokes before it.
pub open spec fn third_sell(bis: Seq<BiView>) -> bool {
    let before = zones(bis.drop_last());
    &&& bis.last().direction == Direction::Up
    &&& before.len() > 0
    &&& less(bis.last().high, before.last().zd)
}

/// Which way a point asks to trade: nothing, buy, or sell.
pub open spec fn bsp_direction(state: BspView, bis: Seq<BiView>, new_bi: bool) -> u8 {
    if !new_bi || bis.len() < 4 {
        0
    } else if first_buy(bis) || second_buy(state, bis) || third_buy(bis) {
        1
    } else if first_sell(bis) || second_sell(state, bis) || third_sell(bis) {
        2
    } else {
        0
    }
}

/// What is remembered after the strokes have been looked at: a first-kind
/// point is remembered by the place of the stroke that confirmed it, and
/// replaces whatever was remembered; nothing else changes the memory.
pub open spec fn bsp_next(state: BspView, bis: Seq<BiView>, new_bi: bool) -> BspView {
    let n = bis.len() as int;
    if !new_bi || n < 4 {
        state
    } else if first_buy(bis) {
        BspView { buy: Some(n - 1), sell: None }
    } else if first_sell(bis) && !second_buy(state, bis) && !third_buy(bis) {
        BspView { buy: None, sell: Some(n - 1) }
    } else {
        state
    }
}

fn find_before(bis: &[Bi], k: usize, direction: Direction) -> (found: Option<usize>)
    requires
        k <= bis@.len(),
    ensures
        match found {
            Some(p) => p < k && latest_before(bi_views(bis@), k as int, direction) == Some(p as int),
            None => latest_before(bi_views(bis@), k as int, direction) is None,
        },
{
    let mut j: usize = k;
    while j > 0
        invariant
            j <= k <= bis@.len(),
            latest_before(bi_views(bis@), j as int, direction) == latest_before(
                bi_views(bis@),
                k as int,
                direction,
            ),
        decreases j,
    {
        if bis[j - 1].direction == direction {
            return Some(j - 1);
        }
        j -= 1;
    }
    None
}

/// The search for buy and sell points, carried from bar to bar.
#[derive(Clone, Copy, Debug, PartialEq, Eq)]
pub struct BspState {
    last_buy_idx: Option<usize>,
    last_sell_idx: Option<usize>,
}

impl View for BspState {
    type V = BspView;

    closed spec fn view(&self) -> BspView {
        BspView {
            buy: match self.last_buy_idx {
                Some(at) => Some(at as int),
                None => None,
            },
            sell: match self.last_sell_idx {
                Some(at) => Some(at as int),
                None => None,
            },
        }
    }
}

impl BspState {
    /// A search that remembers nothing.
    pub fn new() -> (state: BspState)
        ensures
            state@ == (BspView { buy: None, sell: None }),
    {
        BspState { last_buy_idx: None, last_sell_idx: None }
    }

    /// Looks at the strokes for a point of any of the three kinds. The first
    /// number of the result says whether there is one, the second which way
    /// it asks to trade: 1 to buy, 2 to sell, 0 for nothing.
    pub fn detect(&mut self, bis: &[Bi], new_bi: bool) -> (point: (u8, u8))
        ensures
            point.1 == bsp_direction(old(self)@, bi_views(bis@), new_bi),
            point.0 == (if point.1 == 0 { 0u8 } else { 1u8 }),
            final(self)@ == bsp_next(old(self)@, bi_views(bis@), new_bi),
    {
        let n: usize = bis.len();
        if !new_bi || n < 4 {
            return (0, 0);
        }
        let last = bis[n - 1];
        let earlier = vstd::slice::slice_subrange(bis, 0, n - 1);
        let groups = find_zs_groups(earlier);
        proof {
            assert(bi_views(earlier@) =~= bi_views(bis@).drop_last());
            assert(groups@.len() == zs_views(groups@).len());
        }
        if self.detect_buy1(bis, last, n) {
            return (1, 1);
        }
        if self.detect_buy2(bis, last, n) {
            return (1, 1);
        }
        if self.detect_buy3(last, &groups) {
            return (1, 1);
        }
        if self.detect_sell1(bis, last, n) {
            return (1, 2);
        }
        if self.detect_sell2(bis, last, n) {
            return (1, 2);
        }
        if self.detect_sell3(last, &groups) {
            return (1, 2);
        }
        (0, 0)
    }

    fn detect_buy1(&mut self, bis: &[Bi], last: Bi, n: usize) -> (found: bool)
        requires
            4 <= n == bis@.len(),
            last == bis@[n - 1],
        ensures
            found == first_buy(bi_views(bis@)),
            final(self)@ == (if found {
                BspView { buy: Some(n - 1), sell: None }
            } else {
                old(self)@
            }),
    {
        if last.direction != Direction::Up || bis[n - 2].direction != Direction::Down {
            return false;
        }
        if let Some(p) = find_before(bis, n - 2, Direction::Down) {
            let current = bis[n - 2];
            let previous = bis[p];
            if current.low.lt(previous.low) && current.change.abs().lt(previous.change.abs()) {
                self.last_buy_idx = Some(n - 1);
                self.last_sell_idx = None;
                return true;
            }
        }
        false
    }

    fn detect_buy2(&self, bis: &[Bi], last: Bi, n: usize) -> (found: bool)
        requires
            4 <= n == bis@.len(),
            last == bis@[n - 1],
        ensures
            found == second_buy(self@, bi_views(bis@)),
    {
        if last.direction != Direction::Down {
            return false;
        }
        if let Some(at) = self.last_buy_idx {
            if n - 1 > at {
                return bis[at].low.lt(last.low);
            }
        }
        false
    }

    fn detect_buy3(&self, last: Bi, groups: &Vec<ZsGroup>) -> (found: bool)
        ensures
            found == (last.direction == Direction::Down && groups@.len() > 0 && less(
                groups@.last().zg@,
                last.low@,
            )),
    {
        if last.direction != Direction::Down || groups.len() == 0 {
            return false;
        }
        groups[groups.len() - 1].zg.lt(last.low)
    }

    fn detect_sell1(&mut self, bis: &[Bi], last: Bi, n: usize) -> (found: bool)
        requires
            4 <= n == bis@.len(),
            last == bis@[n - 1],
        ensures
            found == first_sell(bi_views(bis@)),
            final(self)@ == (if found {
                BspView { buy: None, sell: Some(n - 1) }
            } else {
                old(self)@
            }),
    {
        if last.direction != Direction::Down || bis[n - 2].direction != Direction::Up {
            return false;
        }
        if let Some(p) = find_before(bis, n - 2, Direction::Up) {
            let current = bis[n - 2];
            let previous = bis[p];
            if previous.high.lt(current.high) && current.change.abs().lt(previous.change.abs()) {
                self.last_sell_idx = Some(n - 1);
                self.last_buy_idx = None;
                return true;
            }
        }
        false
    }

    fn detect_sell2(&self, bis: &[Bi], last: Bi, n: usize) -> (found: bool)
        requires
            4 <= n == bis@.len(),
            last == bis@[n - 1],
        ensures
            found == second_sell(self@, bi_views(bis@)),
    {
        if last.direction != Direction::Up {
            return false;
        }
        if let Some(at) = self.last_sell_idx {
            if n - 1 > at {
                return last.high.lt(bis[at].high);
            }
        }
        false
    }

    fn detect_sell3(&self, last: Bi, groups: &Vec<ZsGroup>) -> (found: bool)
        ensures
            found == (last.direction == Direction::Up && groups@.len() > 0 && less(
                last.high@,
                groups@.last().zd@,
            )),
    {
        if last.direction != Direction::Up || groups.len() == 0 {
            return false;
        }
        last.high.lt(groups[groups.len() - 1].zd)
    }
}

} // verus!
