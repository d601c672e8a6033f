use chan_distill::label::bsp::{find_zs_groups, Bi, BspState, Direction};
use chan_distill::number::Double;

fn d(x: f64) -> Double {
    Double { bits: x.to_bits() }
}

fn up(low: f64, high: f64) -> Bi {
    Bi { direction: Direction::Up, high: d(high), low: d(low), change: d((high - low) / low) }
}

fn down(high: f64, low: f64) -> Bi {
    Bi { direction: Direction::Down, high: d(high), low: d(low), change: d((low - high) / high) }
}

/// The strokes through a list of turning points, the first stroke upward.
fn strokes(points: &[f64]) -> Vec<Bi> {
    points
        .windows(2)
        .map(|w| if w[0] < w[1] { up(w[0], w[1]) } else { down(w[0], w[1]) })
        .collect()
}

fn zones(points: &[f64]) -> Vec<(f64, f64, usize, usize)> {
    find_zs_groups(&strokes(points))
        .iter()
        .map(|z| (f64::from_bits(z.zd.bits), f64::from_bits(z.zg.bits), z.start, z.end))
        .collect()
}

/// What a fresh search says of a list of strokes shown one by one from the
/// start.
fn points(turns: &[f64]) -> Vec<u8> {
    let all = strokes(turns);
    let mut state = BspState::new();
    (1..=all.len())
        .map(|n| {
            let (is_bsp, direction) = state.detect(&all[..n], true);
            assert_eq!(is_bsp, if direction == 0 { 0 } else { 1 });
            direction
        })
        .collect()
}

#[test]
fn three_overlapping_strokes_make_a_zone() {
    assert_eq!(zones(&[10.0, 20.0, 12.0, 18.0]), vec![(12.0, 18.0, 0, 2)]);
    assert!(zones(&[10.0, 20.0, 12.0]).is_empty());
    assert!(zones(&[]).is_empty());
}

#[test]
fn a_zone_goes_on_while_strokes_reach_into_it() {
    assert_eq!(zones(&[10.0, 20.0, 12.0, 18.0, 13.0, 25.0, 21.0]), vec![(12.0, 18.0, 0, 4)]);
}

#[test]
fn zones_follow_each_other_without_sharing_strokes() {
    let turns = [10.0, 20.0, 12.0, 40.0, 30.0, 38.0, 32.0, 37.0];
    let found = zones(&turns);
    assert_eq!(found, vec![(12.0, 20.0, 0, 2), (32.0, 38.0, 3, 6)]);
    for pair in found.windows(2) {
        assert!(pair[0].3 < pair[1].2);
    }
}

#[test]
fn strokes_that_touch_share_an_edge() {
    assert_eq!(
        find_zs_groups(&[up(10.0, 12.0), down(14.0, 12.0), up(12.0, 13.0)]).len(),
        1
    );
    assert!(find_zs_groups(&[up(10.0, 12.0), down(14.0, 12.5), up(12.5, 13.0)]).is_empty());
}

#[test]
fn a_weaker_new_low_and_a_turn_make_a_first_buy() {
    // Down from 100 to 80, up, down from 90 to 78: a lower low with less
    // strength; the next upward stroke confirms it.
    assert_eq!(points(&[95.0, 100.0, 80.0, 90.0, 78.0, 85.0]), vec![0, 0, 0, 0, 1]);
}

#[test]
fn a_stronger_new_low_makes_none() {
    assert_ne!(points(&[95.0, 100.0, 90.0, 95.0, 60.0, 65.0])[4], 1);
    assert_eq!(points(&[88.0, 100.0, 90.0, 95.0, 60.0, 91.0]), vec![0, 0, 0, 0, 0]);
}

#[test]
fn a_weaker_new_high_and_a_turn_make_a_first_sell() {
    assert_eq!(points(&[85.0, 80.0, 100.0, 95.0, 102.0, 97.0]), vec![0, 0, 0, 0, 2]);
}

#[test]
fn a_low_that_holds_after_a_first_buy_makes_a_second_buy() {
    let turns = [95.0, 100.0, 80.0, 90.0, 78.0, 85.0, 79.0];
    assert_eq!(points(&turns), vec![0, 0, 0, 0, 1, 1]);
}

#[test]
fn nothing_comes_without_a_new_stroke_or_with_few() {
    let all = strokes(&[95.0, 100.0, 80.0, 90.0, 78.0, 85.0]);
    let mut state = BspState::new();
    assert_eq!(state.detect(&all, false), (0, 0));
    assert_eq!(state.detect(&all[..3], true), (0, 0));
    assert_eq!(state.detect(&[], true), (0, 0));
}

#[test]
fn a_pullback_that_stays_above_the_zone_makes_a_third_buy() {
    let turns = [10.0, 20.0, 12.0, 18.0, 13.0, 40.0, 30.0];
    let all = strokes(&turns);
    assert_eq!(BspState::new().detect(&all, true), (1, 1));
}

#[test]
fn a_rally_that_stays_below_the_zone_makes_a_third_sell() {
    let turns = [30.0, 20.0, 28.0, 22.0, 27.0, 5.0, 10.0];
    let all = strokes(&turns);
    assert_eq!(BspState::new().detect(&all, true), (1, 2));
}

#[test]
fn sell_points_mirror_buy_points() {
    let turns = [95.0, 100.0, 80.0, 90.0, 78.0, 85.0];
    let all = strokes(&turns);
    let upside_down: Vec<Bi> = all
        .iter()
        .map(|b| Bi {
            direction: match b.direction {
                Direction::Up => Direction::Down,
                Direction::Down => Direction::Up,
            },
            high: b.low.neg(),
            low: b.high.neg(),
            change: b.change.neg(),
        })
        .collect();
    assert_eq!(BspState::new().detect(&all, true), (1, 1));
    assert_eq!(BspState::new().detect(&upside_down, true), (1, 2));
    assert_eq!(find_zs_groups(&all).len(), find_zs_groups(&upside_down).len());
}
