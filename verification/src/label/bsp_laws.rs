//! What holds of central zones and of buy and sell points.
use super::bsp::{
    bi_views, bsp_direction, bsp_next, first_buy, first_sell, latest_before, leaving_stroke,
    lemma_leaving_stroke, lower_edge,
    overlap_at, reaches, second_buy, second_sell, third_buy, third_sell, upper_edge, zone_at,
    zones, zones_from, zs_views, Bi, BiView, BspView, Direction, ZsGroup, ZsView,
};
use crate::number::negated;
use vstd::prelude::*;

verus! {

/// Where the search for the `k`-th zone of a list starts: at the first stroke
/// that the zone before it does not hold.
pub open spec fn search_start(list: Seq<ZsView>, k: int, from: int) -> int {
    if k == 0 {
        from
    } else {
        list[k - 1].end + 1
    }
}

/// Whether a zone is what its strokes make it: its first three strokes
/// overlap and set its edges, every further stroke reaches into its range,
/// and the stroke after it does not.
pub open spec fn is_zone(bis: Seq<BiView>, zone: ZsView) -> bool {
    &&& 0 <= zone.start
    &&& zone.start + 2 <= zone.end < bis.len()
    &&& overlap_at(bis, zone.start)
    &&& zone.zg == upper_edge(bis, zone.start)
    &&& zone.zd == lower_edge(bis, zone.start)
    &&& forall|p: int|
        zone.start + 3 <= p <= zone.end ==> reaches(#[trigger] bis[p], zone.zd, zone.zg)
    &&& zone.end + 1 < bis.len() ==> !reaches(bis[zone.end + 1], zone.zd, zone.zg)
}

/// Whether a list holds the zones of the strokes from `from` on: each is a
/// zone, they follow one another, and no three strokes that overlap are passed
/// over.
pub open spec fn is_zone_list(bis: Seq<BiView>, list: Seq<ZsView>, from: int) -> bool {
    &&& forall|k: int| 0 <= k < list.len() ==> is_zone(bis, #[trigger] list[k])
    &&& forall|k: int| 0 <= k < list.len() ==> #[trigger] search_start(list, k, from) <= list[k].start
    &&& forall|k: int, p: int| #![trigger search_start(list, k, from), overlap_at(bis, p)]
        0 <= k < list.len() && search_start(list, k, from) <= p < list[k].start ==> !overlap_at(
            bis,
            p,
        )
    &&& forall|p: int| #![trigger overlap_at(bis, p)]
        search_start(list, list.len() as int, from) <= p < bis.len() - 2 ==> !overlap_at(bis, p)
}

proof fn lemma_leaving(bis: Seq<BiView>, j: int, end: int, zd: Option<int>, zg: Option<int>)
    requires
        j <= end + 1 <= bis.len(),
        forall|p: int| j <= p <= end ==> reaches(#[trigger] bis[p], zd, zg),
        end + 1 < bis.len() ==> !reaches(bis[end + 1], zd, zg),
    ensures
        leaving_stroke(bis, j, zd, zg) == end + 1,
    decreases end + 1 - j,
{
    if j <= end {
        assert(reaches(bis[j], zd, zg));
        lemma_leaving(bis, j + 1, end, zd, zg);
    }
}

proof fn lemma_zones_hold(bis: Seq<BiView>, i: int)
    requires
        0 <= i,
    ensures
        is_zone_list(bis, zones_from(bis, i), i),
    decreases bis.len() - i,
{
    let list = zones_from(bis, i);
    if i + 2 >= bis.len() {
    } else if overlap_at(bis, i) {
        let zone = zone_at(bis, i);
        lemma_leaving_stroke(bis, i + 3, zone.zd, zone.zg);
        assert(is_zone(bis, zone));
        let rest = zones_from(bis, zone.end + 1);
        lemma_zones_hold(bis, zone.end + 1);
        assert(list =~= seq![zone] + rest);
        assert forall|k: int| 0 <= k < list.len() implies is_zone(bis, #[trigger] list[k]) by {
            if k > 0 {
                assert(list[k] == rest[k - 1]);
            }
        }
        assert forall|k: int| 0 <= k < list.len() implies #[trigger] search_start(
            list,
            k,
            i,
        ) <= list[k].start by {
            if k > 0 {
                assert(list[k] == rest[k - 1]);
                assert(search_start(list, k, i) == search_start(rest, k - 1, zone.end + 1));
            }
        }
        assert forall|k: int, p: int| #![trigger search_start(list, k, i), overlap_at(bis, p)]
            0 <= k < list.len() && search_start(list, k, i) <= p < list[k].start implies !overlap_at(
            bis,
            p,
        ) by {
            if k > 0 {
                assert(list[k] == rest[k - 1]);
                assert(search_start(list, k, i) == search_start(rest, k - 1, zone.end + 1));
            }
        }
        assert(search_start(list, list.len() as int, i) == search_start(
            rest,
            rest.len() as int,
            zone.end + 1,
        ));
    } else {
        lemma_zones_hold(bis, i + 1);
        assert forall|k: int, p: int| #![trigger search_start(list, k, i), overlap_at(bis, p)]
            0 <= k < list.len() && search_start(list, k, i) <= p < list[k].start implies !overlap_at(
            bis,
            p,
        ) by {
            if k > 0 || p > i {
                assert(search_start(list, k, i + 1) <= p < list[k].start);
            }
        }
        assert forall|k: int| 0 <= k < list.len() implies #[trigger] search_start(
            list,
            k,
            i,
        ) <= list[k].start by {
            assert(search_start(list, k, i + 1) <= list[k].start);
        }
        assert forall|p: int| #![trigger overlap_at(bis, p)]
            search_start(list, list.len() as int, i) <= p < bis.len() - 2 implies !overlap_at(
            bis,
            p,
        ) by {
            if list.len() > 0 || p > i {
                assert(search_start(list, list.len() as int, i + 1) <= p);
            }
        }
    }
}

proof fn lemma_zones_unique(bis: Seq<BiView>, list: Seq<ZsView>, i: int)
    requires
        0 <= i,
        is_zone_list(bis, list, i),
    ensures
        list == zones_from(bis, i),
    decreases bis.len() - i,
{
    if i + 2 >= bis.len() {
        if list.len() > 0 {
            assert(is_zone(bis, list[0]));
            assert(search_start(list, 0, i) <= list[0].start);
        }
        assert(list =~= Seq::empty());
    } else if overlap_at(bis, i) {
        let zone = zone_at(bis, i);
        lemma_leaving_stroke(bis, i + 3, zone.zd, zone.zg);
        assert(list.len() > 0) by {
            if list.len() == 0 {
                assert(search_start(list, 0, i) == i);
            }
        }
        let first = list[0];
        assert(is_zone(bis, first));
        assert(search_start(list, 0, i) == i);
        assert(first.start == i);
        lemma_leaving(bis, i + 3, first.end, first.zd, first.zg);
        assert(first == zone);
        let rest = list.drop_first();
        assert forall|k: int| 0 <= k < rest.len() implies is_zone(bis, #[trigger] rest[k]) by {
            assert(rest[k] == list[k + 1]);
        }
        assert forall|k: int| 0 <= k < rest.len() implies #[trigger] search_start(
            rest,
            k,
            zone.end + 1,
        ) <= rest[k].start by {
            assert(rest[k] == list[k + 1]);
            assert(search_start(list, k + 1, i) <= list[k + 1].start);
        }
        assert forall|k: int, p: int| #![trigger search_start(rest, k, zone.end + 1), overlap_at(bis, p)]
            0 <= k < rest.len() && search_start(rest, k, zone.end + 1) <= p
                < rest[k].start implies !overlap_at(bis, p) by {
            assert(rest[k] == list[k + 1]);
            assert(search_start(list, k + 1, i) <= p < list[k + 1].start);
        }
        assert forall|p: int| #![trigger overlap_at(bis, p)]
            search_start(rest, rest.len() as int, zone.end + 1) <= p < bis.len()
                - 2 implies !overlap_at(bis, p) by {
            assert(search_start(list, list.len() as int, i) <= p);
        }
        lemma_zones_unique(bis, rest, zone.end + 1);
        assert(list =~= seq![zone] + rest);
    } else {
        assert forall|k: int| 0 <= k < list.len() implies #[trigger] search_start(
            list,
            k,
            i + 1,
        ) <= list[k].start by {
            assert(search_start(list, k, i) <= list[k].start);
            assert(is_zone(bis, list[k]));
        }
        assert forall|k: int, p: int| #![trigger search_start(list, k, i + 1), overlap_at(bis, p)]
            0 <= k < list.len() && search_start(list, k, i + 1) <= p
                < list[k].start implies !overlap_at(bis, p) by {
            assert(search_start(list, k, i) <= p < list[k].start);
        }
        assert forall|p: int| #![trigger overlap_at(bis, p)]
            search_start(list, list.len() as int, i + 1) <= p < bis.len() - 2 implies !overlap_at(
            bis,
            p,
        ) by {
            assert(search_start(list, list.len() as int, i) <= p);
        }
        lemma_zones_unique(bis, list, i + 1);
    }
}

/// The zones of a list of strokes are the one list of zones that follow one
/// another and pass over no three overlapping strokes.
pub proof fn law_zones_are_the_zone_list(bis: Seq<BiView>, list: Seq<ZsView>)
    ensures
        is_zone_list(bis, list, 0) <==> list == zones(bis),
{
    lemma_zones_hold(bis, 0);
    if is_zone_list(bis, list, 0) {
        lemma_zones_unique(bis, list, 0);
    }
}

/// No stroke lies in two zones: each zone ends before the next one starts.
pub proof fn law_zones_are_disjoint(bis: Seq<BiView>, j: int, k: int)
    requires
        0 <= j < k < zones(bis).len(),
    ensures
        zones(bis)[j].end < zones(bis)[k].start,
    decreases k - j,
{
    let list = zones(bis);
    lemma_zones_hold(bis, 0);
    assert(search_start(list, k, 0) <= list[k].start);
    if j < k - 1 {
        law_zones_are_disjoint(bis, j, k - 1);
        assert(is_zone(bis, list[k - 1]));
    }
}

/// A direction seen upside down.
pub open spec fn mirrored_direction(direction: Direction) -> Direction {
    match direction {
        Direction::Up => Direction::Down,
        Direction::Down => Direction::Up,
    }
}

/// A stroke seen upside down.
pub open spec fn mirrored(b: BiView) -> BiView {
    BiView {
        direction: mirrored_direction(b.direction),
        high: negated(b.low),
        low: negated(b.high),
        change: negated(b.change),
    }
}

/// A list of strokes seen upside down.
pub open spec fn mirror(bis: Seq<BiView>) -> Seq<BiView> {
    Seq::new(bis.len(), |i: int| mirrored(bis[i]))
}

/// A zone seen upside down.
pub open spec fn mirrored_zone(zone: ZsView) -> ZsView {
    ZsView { zg: negated(zone.zd), zd: negated(zone.zg), start: zone.start, end: zone.end }
}

/// A list of zones seen upside down.
pub open spec fn mirror_zones(list: Seq<ZsView>) -> Seq<ZsView> {
    Seq::new(list.len(), |i: int| mirrored_zone(list[i]))
}

/// What is remembered, seen upside down.
pub open spec fn mirrored_state(state: BspView) -> BspView {
    BspView { buy: state.sell, sell: state.buy }
}

proof fn lemma_mirror_edges(bis: Seq<BiView>, i: int)
    requires
        0 <= i < bis.len() - 2,
    ensures
        upper_edge(mirror(bis), i) == negated(lower_edge(bis, i)),
        lower_edge(mirror(bis), i) == negated(upper_edge(bis, i)),
        overlap_at(mirror(bis), i) == overlap_at(bis, i),
{
}

proof fn lemma_mirror_leaving(bis: Seq<BiView>, j: int, zd: Option<int>, zg: Option<int>)
    requires
        0 <= j,
    ensures
        leaving_stroke(mirror(bis), j, negated(zg), negated(zd)) == leaving_stroke(bis, j, zd, zg),
    decreases bis.len() - j,
{
    if j < bis.len() {
        assert(reaches(mirror(bis)[j], negated(zg), negated(zd)) == reaches(bis[j], zd, zg));
        if reaches(bis[j], zd, zg) {
            lemma_mirror_leaving(bis, j + 1, zd, zg);
        }
    }
}

proof fn lemma_mirror_zones(bis: Seq<BiView>, i: int)
    requires
        0 <= i,
    ensures
        zones_from(mirror(bis), i) == mirror_zones(zones_from(bis, i)),
    decreases bis.len() - i,
{
    let other = mirror(bis);
    if i + 2 >= bis.len() {
        assert(zones_from(other, i) =~= mirror_zones(zones_from(bis, i)));
    } else {
        lemma_mirror_edges(bis, i);
        if overlap_at(bis, i) {
            let zone = zone_at(bis, i);
            lemma_mirror_leaving(bis, i + 3, zone.zd, zone.zg);
            lemma_leaving_stroke(bis, i + 3, zone.zd, zone.zg);
            assert(zone_at(other, i) == mirrored_zone(zone));
            lemma_mirror_zones(bis, zone.end + 1);
            assert(zones_from(other, i) =~= mirror_zones(zones_from(bis, i)));
        } else {
            lemma_mirror_zones(bis, i + 1);
        }
    }
}

proof fn lemma_mirror_latest(bis: Seq<BiView>, k: int, direction: Direction)
    requires
        k <= bis.len(),
    ensures
        latest_before(mirror(bis), k, mirrored_direction(direction)) == latest_before(
            bis,
            k,
            direction,
        ),
        latest_before(bis, k, direction) matches Some(p) ==> 0 <= p < k,
    decreases k,
{
    if k > 0 {
        lemma_mirror_latest(bis, k - 1, direction);
    }
}

/// Seen upside down, the zones are the same zones upside down.
pub proof fn law_zones_mirror(bis: Seq<BiView>)
    ensures
        zones(mirror(bis)) == mirror_zones(zones(bis)),
{
    lemma_mirror_zones(bis, 0);
}

/// The sell points are the buy points seen upside down: each kind of sell
/// point is there exactly where the mirror image shows the buy point of the
/// same kind.
pub proof fn law_sell_points_mirror_buy_points(state: BspView, bis: Seq<BiView>)
    requires
        bis.len() > 0,
        state.buy matches Some(at) ==> 0 <= at,
    ensures
        first_sell(mirror(bis)) == first_buy(bis),
        second_sell(mirrored_state(state), mirror(bis)) == second_buy(state, bis),
        third_sell(mirror(bis)) == third_buy(bis),
{
    let n = bis.len() as int;
    let other = mirror(bis);
    if n >= 4 {
        lemma_mirror_latest(bis, n - 2, Direction::Down);
    }
    assert(other.drop_last() =~= mirror(bis.drop_last()));
    law_zones_mirror(bis.drop_last());
}

/// Upside down there is a point exactly where there is one.
pub proof fn law_points_mirror(state: BspView, bis: Seq<BiView>, new_bi: bool)
    requires
        state.buy matches Some(at) ==> 0 <= at,
        state.sell matches Some(at) ==> 0 <= at,
    ensures
        bsp_direction(mirrored_state(state), mirror(bis), new_bi) == 0 <==> bsp_direction(
            state,
            bis,
            new_bi,
        ) == 0,
{
    if new_bi && bis.len() >= 4 {
        let other = mirror(bis);
        law_sell_points_mirror_buy_points(state, bis);
        law_sell_points_mirror_buy_points(mirrored_state(state), other);
        assert(mirror(other) =~= bis);
        assert(mirrored_state(mirrored_state(state)) == state);
    }
}

/// A buy point and a sell point are never remembered together.
pub proof fn law_one_point_is_remembered(state: BspView, bis: Seq<BiView>, new_bi: bool)
    requires
        state.buy is None || state.sell is None,
    ensures
        bsp_next(state, bis, new_bi).buy is None || bsp_next(state, bis, new_bi).sell is None,
{
}

/// Without a new stroke there is no point and nothing is forgotten.
pub proof fn law_no_point_without_a_stroke(state: BspView, bis: Seq<BiView>)
    ensures
        bsp_direction(state, bis, false) == 0,
        bsp_next(state, bis, false) == state,
{
}

/// A first-kind buy point is followed by second-kind buy points: as long as
/// no other first-kind point replaces it and the strokes up to it are kept,
/// every downward stroke that stays above the low of the stroke that confirmed
/// it is one.
pub proof fn law_second_buy_follows_first_buy(
    state: BspView,
    bis: Seq<BiView>,
    later: Seq<BiView>,
)
    requires
        first_buy(bis),
        bis.len() < later.len(),
        forall|i: int| 0 <= i < bis.len() ==> later[i] == bis[i],
        later.last().direction == Direction::Down,
        crate::number::less(bis.last().low, later.last().low),
    ensures
        second_buy(bsp_next(state, bis, true), later),
        bsp_direction(bsp_next(state, bis, true), later, true) == 1,
{
    assert(later[bis.len() - 1] == bis[bis.len() - 1]);
}

/// Whether a price lies in the range of a stroke: not below its low and not
/// above its high. An edge that is not a number bounds nothing.
pub open spec fn admits(b: BiView, price: int) -> bool {
    &&& b.low is Some ==> b.low->0 <= price
    &&& b.high is Some ==> price <= b.high->0
}

/// Whether a stroke has a price between two: its high is not below the lower
/// one, and its low is not above the upper one.
pub open spec fn crosses(b: BiView, bottom: int, top: int) -> bool {
    &&& b.high is Some && bottom <= b.high->0
    &&& b.low is Some && b.low->0 <= top
}

/// Whether the first number is not above the second, where both are numbers.
pub open spec fn not_above(a: Option<int>, b: Option<int>) -> bool {
    a is Some && b is Some ==> a->0 <= b->0
}

/// Whether three strokes have a price in common: none of their lows is above
/// any of their highs, and there is a low and a high.
pub open spec fn share_a_price(a: BiView, b: BiView, c: BiView) -> bool {
    &&& a.low is Some || b.low is Some || c.low is Some
    &&& a.high is Some || b.high is Some || c.high is Some
    &&& not_above(a.low, a.high) && not_above(a.low, b.high) && not_above(a.low, c.high)
    &&& not_above(b.low, a.high) && not_above(b.low, b.high) && not_above(b.low, c.high)
    &&& not_above(c.low, a.high) && not_above(c.low, b.high) && not_above(c.low, c.high)
}

/// Whether a zone is a central zone of some strokes: its range holds exactly the
/// prices that its first three strokes have in common, every further stroke of
/// it has a price in that range, and the stroke after it has none.
pub open spec fn is_central_zone(bis: Seq<BiView>, zone: ZsView) -> bool {
    &&& 0 <= zone.start
    &&& zone.start + 2 <= zone.end < bis.len()
    &&& share_a_price(bis[zone.start], bis[zone.start + 1], bis[zone.start + 2])
    &&& zone.zd is Some && zone.zg is Some
    &&& forall|price: int|
        (zone.zd->0 <= price <= zone.zg->0) <==> (#[trigger] admits(bis[zone.start], price)
            && admits(bis[zone.start + 1], price) && admits(bis[zone.start + 2], price))
    &&& forall|j: int|
        zone.start + 3 <= j <= zone.end ==> crosses(#[trigger] bis[j], zone.zd->0, zone.zg->0)
    &&& zone.end + 1 < bis.len() ==> !crosses(bis[zone.end + 1], zone.zd->0, zone.zg->0)
}

/// Whether a stroke lies in a zone of a list.
pub open spec fn is_held(list: Seq<ZsView>, i: int) -> bool {
    exists|k: int| 0 <= k < list.len() && (#[trigger] list[k]).start <= i <= list[k].end
}

/// Whether a list holds the central zones of some strokes: each is one, each
/// ends before the next starts, and wherever three strokes have a price in
/// common, the first of them lies in a zone.
pub open spec fn are_central_zones(bis: Seq<BiView>, list: Seq<ZsView>) -> bool {
    &&& forall|k: int| 0 <= k < list.len() ==> is_central_zone(bis, #[trigger] list[k])
    &&& forall|j: int, k: int|
        0 <= j < k < list.len() ==> (#[trigger] list[j]).end < (#[trigger] list[k]).start
    &&& forall|i: int|
        0 <= i < bis.len() - 2 && share_a_price(bis[i], bis[i + 1], bis[i + 2])
            ==> #[trigger] is_held(list, i)
}

proof fn lemma_share_a_price(bis: Seq<BiView>, i: int)
    ensures
        share_a_price(bis[i], bis[i + 1], bis[i + 2]) == overlap_at(bis, i),
{
}

proof fn lemma_central_zone(bis: Seq<BiView>, zone: ZsView)
    ensures
        is_central_zone(bis, zone) == is_zone(bis, zone),
{
    lemma_share_a_price(bis, zone.start);
    let zd = lower_edge(bis, zone.start);
    let zg = upper_edge(bis, zone.start);
    if is_central_zone(bis, zone) {
        assert(zd is Some && zg is Some);
        assert(admits(bis[zone.start], zd->0));
        assert(admits(bis[zone.start], zg->0));
        let bottom = zone.zd->0;
        let top = zone.zg->0;
        assert(admits(bis[zone.start], bottom) || bottom > top);
        assert(admits(bis[zone.start], top) || bottom > top);
        assert(zone.zd == zd);
        assert(zone.zg == zg);
        assert forall|p: int| zone.start + 3 <= p <= zone.end implies reaches(
            #[trigger] bis[p],
            zone.zd,
            zone.zg,
        ) by {
            assert(crosses(bis[p], zone.zd->0, zone.zg->0));
        }
    }
    if is_zone(bis, zone) {
        assert(zone.zd is Some && zone.zg is Some);
        assert forall|j: int| zone.start + 3 <= j <= zone.end implies crosses(
            #[trigger] bis[j],
            zone.zd->0,
            zone.zg->0,
        ) by {
            assert(reaches(bis[j], zone.zd, zone.zg));
        }
    }
}

proof fn lemma_held(bis: Seq<BiView>, list: Seq<ZsView>, k: int, i: int)
    requires
        is_zone_list(bis, list, 0),
        0 <= k <= list.len(),
        search_start(list, k, 0) <= i < bis.len() - 2,
        overlap_at(bis, i),
    ensures
        is_held(list, i),
    decreases list.len() - k,
{
    if k < list.len() {
        assert(search_start(list, k, 0) <= list[k].start);
        if i > list[k].end {
            assert(search_start(list, k + 1, 0) == list[k].end + 1);
            lemma_held(bis, list, k + 1, i);
        }
    }
}

/// The zones of a list of strokes are its central zones, all of them and no
/// others.
pub proof fn law_zones_are_the_central_zones(bis: Seq<BiView>, list: Seq<ZsView>)
    ensures
        are_central_zones(bis, list) <==> list == zones(bis),
{
    if list == zones(bis) {
        lemma_zones_hold(bis, 0);
        assert forall|k: int| 0 <= k < list.len() implies is_central_zone(
            bis,
            #[trigger] list[k],
        ) by {
            lemma_central_zone(bis, list[k]);
        }
        assert forall|j: int, k: int| 0 <= j < k < list.len() implies (#[trigger] list[j]).end < (
        #[trigger] list[k]).start by {
            law_zones_are_disjoint(bis, j, k);
        }
        assert forall|i: int|
            0 <= i < bis.len() - 2 && share_a_price(
                bis[i],
                bis[i + 1],
                bis[i + 2],
            ) implies #[trigger] is_held(list, i) by {
            lemma_share_a_price(bis, i);
            lemma_held(bis, list, 0, i);
        }
    }
    if are_central_zones(bis, list) {
        assert forall|k: int| 0 <= k < list.len() implies is_zone(bis, #[trigger] list[k]) by {
            lemma_central_zone(bis, list[k]);
        }
        assert forall|k: int| 0 <= k < list.len() implies #[trigger] search_start(list, k, 0)
            <= list[k].start by {
            assert(is_zone(bis, list[k]));
            if k > 0 {
                assert(list[k - 1].end < list[k].start);
            }
        }
        assert forall|k: int, p: int| #![trigger search_start(list, k, 0), overlap_at(bis, p)]
            0 <= k < list.len() && search_start(list, k, 0) <= p < list[k].start implies !overlap_at(
            bis,
            p,
        ) by {
            assert(is_zone(bis, list[k]));
            if k > 0 {
                assert(is_zone(bis, list[k - 1]));
            }
            if overlap_at(bis, p) {
                lemma_share_a_price(bis, p);
                assert(is_held(list, p));
                let m = choose|m: int|
                    0 <= m < list.len() && (#[trigger] list[m]).start <= p <= list[m].end;
                if m < k - 1 {
                    assert(list[m].end < list[k - 1].start);
                } else if m > k {
                    assert(list[k].end < list[m].start);
                }
            }
        }
        let n = list.len() as int;
        assert forall|p: int| #![trigger overlap_at(bis, p)]
            search_start(list, n, 0) <= p < bis.len() - 2 implies !overlap_at(bis, p) by {
            if n > 0 {
                assert(is_zone(bis, list[n - 1]));
            }
            if overlap_at(bis, p) {
                lemma_share_a_price(bis, p);
                assert(is_held(list, p));
                let m = choose|m: int|
                    0 <= m < list.len() && (#[trigger] list[m]).start <= p <= list[m].end;
                if m < n - 1 {
                    assert(list[m].end < list[n - 1].start);
                }
            }
        }
        assert(is_zone_list(bis, list, 0));
        lemma_zones_unique(bis, list, 0);
    }
}

/// The range of a zone is exactly what its first three strokes share: a price
/// lies between its edges if and only if each of the three has it.
pub proof fn law_zone_range_is_what_three_strokes_share(bis: Seq<BiView>, k: int, price: int)
    requires
        0 <= k < zones(bis).len(),
    ensures
        ({
            let zone = zones(bis)[k];
            &&& zone.zd is Some && zone.zg is Some
            &&& 0 <= zone.start && zone.start + 2 <= zone.end < bis.len()
            &&& (zone.zd->0 <= price <= zone.zg->0) <==> (admits(bis[zone.start], price) && admits(
                bis[zone.start + 1],
                price,
            ) && admits(bis[zone.start + 2], price))
        }),
{
    law_zones_are_the_central_zones(bis, zones(bis));
    assert(is_central_zone(bis, zones(bis)[k]));
}

/// Three strokes that have a price in common are not missed: the first of them
/// lies in a zone.
pub proof fn law_no_zone_is_missed(bis: Seq<BiView>, i: int, price: int)
    requires
        0 <= i < bis.len() - 2,
        forall|j: int|
            i <= j <= i + 2 ==> (#[trigger] bis[j]).low is Some && bis[j].high is Some
                && bis[j].low->0 <= price <= bis[j].high->0,
    ensures
        exists|k: int|
            0 <= k < zones(bis).len() && (#[trigger] zones(bis)[k]).start <= i <= zones(bis)[k].end,
{
    law_zones_are_the_central_zones(bis, zones(bis));
    assert(bis[i].low is Some && bis[i + 1].low is Some && bis[i + 2].low is Some);
    assert(share_a_price(bis[i], bis[i + 1], bis[i + 2]));
    assert(is_held(zones(bis), i));
}

/// Whether the last stroke but one goes further down than the downward stroke
/// before it, at `p`, and with less strength.
pub open spec fn falls_weaker(bis: Seq<BiView>, p: int) -> bool {
    let fall = bis[bis.len() - 2];
    &&& 0 <= p < bis.len() - 2
    &&& bis[p].direction == Direction::Down
    &&& forall|q: int| p < q < bis.len() - 2 ==> (#[trigger] bis[q]).direction == Direction::Up
    &&& fall.low is Some && bis[p].low is Some && fall.low->0 < bis[p].low->0
    &&& fall.change is Some && bis[p].change is Some
    &&& size_of(fall.change->0) < size_of(bis[p].change->0)
}

/// Whether the last stroke but one goes further up than the upward stroke
/// before it, at `p`, and with less strength.
pub open spec fn rises_weaker(bis: Seq<BiView>, p: int) -> bool {
    let rise = bis[bis.len() - 2];
    &&& 0 <= p < bis.len() - 2
    &&& bis[p].direction == Direction::Up
    &&& forall|q: int| p < q < bis.len() - 2 ==> (#[trigger] bis[q]).direction == Direction::Down
    &&& rise.high is Some && bis[p].high is Some && bis[p].high->0 < rise.high->0
    &&& rise.change is Some && bis[p].change is Some
    &&& size_of(rise.change->0) < size_of(bis[p].change->0)
}

/// The size of a change, whichever way it goes.
pub open spec fn size_of(change: int) -> int {
    if change < 0 {
        -change
    } else {
        change
    }
}

/// Whether strokes that end upward confirm a low: the fall before the last
/// stroke went further down than the fall before it, with less strength.
pub open spec fn confirms_a_low(bis: Seq<BiView>) -> bool {
    &&& bis.last().direction == Direction::Up
    &&& bis[bis.len() - 2].direction == Direction::Down
    &&& exists|p: int| falls_weaker(bis, p)
}

/// Whether strokes that end downward confirm a high: the rise before the last
/// stroke went further up than the rise before it, with less strength.
pub open spec fn confirms_a_high(bis: Seq<BiView>) -> bool {
    &&& bis.last().direction == Direction::Down
    &&& bis[bis.len() - 2].direction == Direction::Up
    &&& exists|p: int| rises_weaker(bis, p)
}

/// Whether the last stroke stays above the low of an earlier one.
pub open spec fn stays_above(bis: Seq<BiView>, at: Option<int>) -> bool {
    &&& at is Some && at->0 < bis.len() - 1
    &&& bis[at->0].low is Some && bis.last().low is Some
    &&& bis[at->0].low->0 < bis.last().low->0
}

/// Whether the last stroke stays below the high of an earlier one.
pub open spec fn stays_below(bis: Seq<BiView>, at: Option<int>) -> bool {
    &&& at is Some && at->0 < bis.len() - 1
    &&& bis[at->0].high is Some && bis.last().high is Some
    &&& bis.last().high->0 < bis[at->0].high->0
}

/// Whether a stroke lies above a zone as a whole.
pub open spec fn leaves_upward(list: Seq<ZsView>, b: BiView) -> bool {
    list.len() > 0 && list.last().zg is Some && b.low is Some && list.last().zg->0 < b.low->0
}

/// Whether a stroke lies below a zone as a whole.
pub open spec fn leaves_downward(list: Seq<ZsView>, b: BiView) -> bool {
    list.len() > 0 && list.last().zd is Some && b.high is Some && b.high->0 < list.last().zd->0
}

proof fn lemma_latest(bis: Seq<BiView>, k: int, direction: Direction)
    requires
        0 <= k <= bis.len(),
    ensures
        match latest_before(bis, k, direction) {
            Some(p) => 0 <= p < k && bis[p].direction == direction && (forall|q: int|
                p < q < k ==> (#[trigger] bis[q]).direction != direction),
            None => forall|q: int| 0 <= q < k ==> (#[trigger] bis[q]).direction != direction,
        },
    decreases k,
{
    if k > 0 && bis[k - 1].direction != direction {
        lemma_latest(bis, k - 1, direction);
    }
}

proof fn lemma_first_kinds(bis: Seq<BiView>)
    requires
        bis.len() >= 4,
    ensures
        first_buy(bis) == confirms_a_low(bis),
        first_sell(bis) == confirms_a_high(bis),
{
    let n = bis.len() as int;
    lemma_latest(bis, n - 2, Direction::Down);
    lemma_latest(bis, n - 2, Direction::Up);
    match latest_before(bis, n - 2, Direction::Down) {
        Some(p) => {
            if first_buy(bis) {
                assert(falls_weaker(bis, p));
            }
            if confirms_a_low(bis) {
                let q = choose|q: int| falls_weaker(bis, q);
                assert(bis[q].direction == Direction::Down);
                assert(bis[p].direction == Direction::Down);
                assert(p == q);
            }
        },
        None => {
            if confirms_a_low(bis) {
                let q = choose|q: int| falls_weaker(bis, q);
                assert(bis[q].direction == Direction::Down);
            }
        },
    }
    match latest_before(bis, n - 2, Direction::Up) {
        Some(p) => {
            if first_sell(bis) {
                assert(rises_weaker(bis, p));
            }
            if confirms_a_high(bis) {
                let q = choose|q: int| rises_weaker(bis, q);
                assert(bis[q].direction == Direction::Up);
                assert(bis[p].direction == Direction::Up);
                assert(p == q);
            }
        },
        None => {
            if confirms_a_high(bis) {
                let q = choose|q: int| rises_weaker(bis, q);
                assert(bis[q].direction == Direction::Up);
            }
        },
    }
}

/// Why there is a point at which to buy. On an upward stroke: it confirms a low.
/// On a downward one: it stays above the low of the stroke at the remembered
/// place, or it lies above the last zone of the strokes before it. There is no
/// other reason, and without a new stroke, or with fewer than four, there is
/// none.
pub proof fn law_buy_points_have_a_reason(
    state: BspView,
    bis: Seq<BiView>,
    before: Seq<ZsView>,
    new_bi: bool,
)
    requires
        are_central_zones(bis.drop_last(), before),
    ensures
        bsp_direction(state, bis, new_bi) == 1 <==> (new_bi && bis.len() >= 4 && (
        confirms_a_low(bis) || (bis.last().direction == Direction::Down && (stays_above(
            bis,
            state.buy,
        ) || leaves_upward(before, bis.last()))))),
{
    law_zones_are_the_central_zones(bis.drop_last(), before);
    if bis.len() >= 4 {
        lemma_first_kinds(bis);
    }
}

/// Why there is a point at which to sell. On a downward stroke: it confirms a
/// high. On an upward one: it stays below the high of the stroke at the
/// remembered place, or it lies below the last zone of the strokes before it.
/// A point at which to buy goes before, and there is no other reason.
pub proof fn law_sell_points_have_a_reason(
    state: BspView,
    bis: Seq<BiView>,
    before: Seq<ZsView>,
    new_bi: bool,
)
    requires
        are_central_zones(bis.drop_last(), before),
    ensures
        bsp_direction(state, bis, new_bi) == 2 <==> (new_bi && bis.len() >= 4 && bsp_direction(
            state,
            bis,
            new_bi,
        ) != 1 && (confirms_a_high(bis) || (bis.last().direction == Direction::Up && (stays_below(
            bis,
            state.sell,
        ) || leaves_downward(before, bis.last()))))),
        bsp_direction(state, bis, new_bi) <= 2,
{
    law_zones_are_the_central_zones(bis.drop_last(), before);
    if bis.len() >= 4 {
        lemma_first_kinds(bis);
    }
}

/// What is remembered: strokes that confirm a low leave the place of the last
/// one as that of a buy point, those that confirm a high and are no point at
/// which to buy as that of a sell point, each in place of what was remembered
/// before; anything else leaves the memory as it was.
pub proof fn law_confirmed_points_are_remembered(state: BspView, bis: Seq<BiView>, new_bi: bool)
    ensures
        new_bi && bis.len() >= 4 && confirms_a_low(bis) ==> bsp_next(state, bis, new_bi).buy
            == Some(bis.len() - 1) && bsp_next(state, bis, new_bi).sell is None,
        new_bi && bis.len() >= 4 && confirms_a_high(bis) && bsp_direction(state, bis, new_bi) == 2
            ==> bsp_next(state, bis, new_bi).sell == Some(bis.len() - 1) && bsp_next(
            state,
            bis,
            new_bi,
        ).buy is None,
        !new_bi || bis.len() < 4 || (!confirms_a_low(bis) && (!confirms_a_high(bis)
            || bsp_direction(state, bis, new_bi) != 2)) ==> bsp_next(state, bis, new_bi) == state,
{
    if bis.len() >= 4 {
        lemma_first_kinds(bis);
    }
}

/// A buy point on a downward stroke is never below what it rests on: the stroke
/// stays strictly above the low of the remembered stroke, or strictly above
/// every price that the first three strokes of the last zone have in common.
/// On an upward stroke the same holds of a sell point the other way round.
pub proof fn law_points_against_the_stroke(
    state: BspView,
    bis: Seq<BiView>,
    before: Seq<ZsView>,
    price: int,
)
    requires
        bis.len() > 0,
        are_central_zones(bis.drop_last(), before),
        before.len() > 0 ==> ({
            let zone = before.last();
            admits(bis[zone.start], price) && admits(bis[zone.start + 1], price) && admits(
                bis[zone.start + 2],
                price,
            )
        }),
    ensures
        bis.last().direction == Direction::Down && bsp_direction(state, bis, true) == 1
            ==> bis.last().low is Some && (stays_above(bis, state.buy) || (before.len() > 0 && price
            < bis.last().low->0)),
        bis.last().direction == Direction::Up && bsp_direction(state, bis, true) == 2
            ==> bis.last().high is Some && (stays_below(bis, state.sell) || (before.len() > 0
            && bis.last().high->0 < price)),
{
    law_buy_points_have_a_reason(state, bis, before, true);
    law_sell_points_have_a_reason(state, bis, before, true);
    if before.len() > 0 {
        let zone = before.last();
        assert(is_central_zone(bis.drop_last(), zone));
        assert(admits(bis.drop_last()[zone.start], price));
    }
}

/// The groups that are found say of the strokes themselves what a zone is: a
/// price lies between the edges of a group if and only if the first three
/// strokes of the group have it, each further stroke reaches into that range,
/// and the stroke after the last does not.
pub proof fn law_found_groups_are_zones_of_the_strokes(
    bis: Seq<Bi>,
    groups: Seq<ZsGroup>,
    k: int,
    price: int,
    j: int,
)
    requires
        zs_views(groups) == zones(bi_views(bis)),
        0 <= k < groups.len(),
    ensures
        ({
            let group = groups[k];
            let s = group.start as int;
            let reached = |i: int|
                bis[i].high@ is Some && bis[i].low@ is Some && group.zd@->0 <= bis[i].high@->0
                    && bis[i].low@->0 <= group.zg@->0;
            let has = |i: int|
                (bis[i].low@ is Some ==> bis[i].low@->0 <= price) && (bis[i].high@ is Some ==> price
                    <= bis[i].high@->0);
            &&& s + 2 <= group.end < bis.len()
            &&& group.zd@ is Some && group.zg@ is Some
            &&& (group.zd@->0 <= price <= group.zg@->0) <==> (has(s) && has(s + 1) && has(s + 2))
            &&& s + 3 <= j <= group.end ==> reached(j)
            &&& group.end + 1 < bis.len() ==> !reached(group.end + 1)
            &&& k + 1 < groups.len() ==> group.end < groups[k + 1].start
        }),
{
    let views = bi_views(bis);
    let list = zones(views);
    law_zones_are_the_central_zones(views, list);
    assert(zs_views(groups)[k] == groups[k]@);
    assert(is_central_zone(views, list[k]));
    let s = groups[k].start as int;
    let zone = list[k];
    assert(zone == groups[k]@);
    assert(views[s] == bis[s]@ && views[s + 1] == bis[s + 1]@ && views[s + 2] == bis[s + 2]@);
    assert((zone.zd->0 <= price <= zone.zg->0) <==> (admits(views[s], price) && admits(
        views[s + 1],
        price,
    ) && admits(views[s + 2], price)));
    if groups[k].end + 1 < bis.len() {
        assert(views[groups[k].end + 1] == bis[groups[k].end + 1]@);
    }
    if s + 3 <= j <= groups[k].end {
        assert(crosses(views[j], zone.zd->0, zone.zg->0));
        assert(views[j] == bis[j]@);
    }
    if k + 1 < groups.len() {
        assert(zs_views(groups)[k + 1] == groups[k + 1]@);
        assert(list[k].end < list[k + 1].start);
    }
}

} // verus!
