use chan_distill::label::outlook::{
    choose_threshold, classify_return, compute_future_return, future_index, lookahead_bars,
    sample_indices, state_returns, volatility_samples, volatility_threshold, volatility_window,
    HIGH_THRESHOLD, LOW_THRESHOLD, PLAIN_THRESHOLD,
};
use chan_distill::number::Double;

fn d(x: f64) -> Double {
    Double { bits: x.to_bits() }
}

fn closes(list: &[f64]) -> Vec<Double> {
    list.iter().map(|x| d(*x)).collect()
}

#[test]
fn thresholds_have_their_bits() {
    assert_eq!(LOW_THRESHOLD, 0.01f64.to_bits());
    assert_eq!(PLAIN_THRESHOLD, 0.02f64.to_bits());
    assert_eq!(HIGH_THRESHOLD, 0.05f64.to_bits());
}

#[test]
fn lookahead_is_a_fifth_of_the_sequence() {
    assert_eq!(lookahead_bars(60, None), 12);
    assert_eq!(lookahead_bars(10080, None), 2016);
    assert_eq!(lookahead_bars(4, None), 1);
    assert_eq!(lookahead_bars(9, None), 1);
    assert_eq!(lookahead_bars(0, None), 1);
    assert_eq!(lookahead_bars(60, Some(3)), 3);
    assert_eq!(lookahead_bars(60, Some(0)), 0);
}

#[test]
fn returns_are_measured_to_a_bar_that_is_there() {
    let list = closes(&[1.0, 2.0, 0.0, -1.0, 5.0]);
    assert_eq!(future_index(&list, 0, 4), Some(4));
    assert_eq!(future_index(&list, 0, 5), None);
    assert_eq!(future_index(&list, 2, 1), None);
    assert_eq!(future_index(&list, 3, 1), None);
    assert_eq!(future_index(&list, 1, 0), Some(1));
}

#[test]
fn windows_end_before_the_bar() {
    assert_eq!(volatility_window(100, 50, 12), Some((38, 50)));
    assert_eq!(volatility_window(100, 5, 12), Some((0, 12)));
    assert_eq!(volatility_window(8, 5, 12), Some((0, 8)));
    assert_eq!(volatility_window(100, 50, 4), None);
    assert_eq!(volatility_window(4, 2, 12), None);
}

#[test]
fn samples_follow_closes_above_zero() {
    let list = closes(&[1.0, 2.0, 0.0, 3.0, f64::NAN, 4.0, 5.0]);
    assert_eq!(sample_indices(&list, 0, 7), vec![1, 2, 4, 6]);
    assert_eq!(sample_indices(&list, 3, 4), Vec::<usize>::new());
}

#[test]
fn thresholds_are_kept_between_bounds() {
    assert_eq!(volatility_threshold(None), d(0.02));
    assert_eq!(volatility_threshold(Some(d(0.001))), d(0.01));
    assert_eq!(volatility_threshold(Some(d(0.03))), d(0.03));
    assert_eq!(volatility_threshold(Some(d(0.3))), d(0.05));
    assert_eq!(choose_threshold(Some(d(0.3)), Some(d(0.03))), d(0.3));
    assert_eq!(choose_threshold(None, Some(d(0.3))), d(0.05));
    assert_eq!(choose_threshold(None, None), d(0.02));
}

#[test]
fn returns_are_classed() {
    let threshold = d(0.02);
    assert_eq!(classify_return(d(-0.03), threshold), 0);
    assert_eq!(classify_return(d(-0.02), threshold), 1);
    assert_eq!(classify_return(d(0.0), threshold), 1);
    assert_eq!(classify_return(d(0.02), threshold), 1);
    assert_eq!(classify_return(d(0.03), threshold), 2);
    assert_eq!(classify_return(d(f64::NAN), threshold), 1);
    for x in [-0.5, -0.02, 0.0, 0.015, 0.4] {
        assert_eq!(
            classify_return(d(-x), threshold),
            2 - classify_return(d(x), threshold)
        );
    }
}

#[test]
fn a_return_without_a_bar_is_flat() {
    let list = closes(&[1.0, 2.0]);
    let none = compute_future_return(&list, 1, 1, d(9.0), d(0.02));
    assert_eq!((none.next_return, none.return_label), (d(0.0), 1));
    let some = compute_future_return(&list, 0, 1, d(1.0), d(0.02));
    assert_eq!((some.next_return, some.return_label), (d(1.0), 2));
}

#[test]
fn every_bar_has_its_own_return() {
    let list = closes(&[4.0, 2.0, 4.0, 4.0]);
    let rets = closes(&[-0.5, 1.0, 0.01, 7.0]);
    let thresholds = closes(&[0.02, 0.02, 0.02, 0.02]);
    let stated = state_returns(&list, 1, &rets, &thresholds);
    let pairs: Vec<(Double, i64)> =
        stated.iter().map(|s| (s.next_return, s.return_label)).collect();
    assert_eq!(
        pairs,
        vec![(d(-0.5), 0), (d(1.0), 2), (d(0.01f32 as f64), 1), (d(0.0), 1)]
    );
    let near = state_returns(&list, 1, &rets, &closes(&[0.6, 2.0, 0.001, 0.02]));
    let labels: Vec<i64> = near.iter().map(|s| s.return_label).collect();
    assert_eq!(labels, vec![1, 1, 2, 1]);
    assert!(state_returns(&[], 3, &[], &[]).is_empty());
}

#[test]
fn five_returns_are_needed() {
    let list = closes(&[1.0; 20]);
    assert_eq!(volatility_samples(&list, 10, 5), None);
    assert_eq!(volatility_samples(&list, 10, 6), Some(vec![5, 6, 7, 8, 9]));
    assert_eq!(choose_threshold(None, None), d(0.02));
    let mut gap = list.clone();
    gap[6] = d(0.0);
    assert_eq!(volatility_samples(&gap, 10, 6), None);
    assert_eq!(volatility_samples(&list, 10, 4), None);
}

#[test]
fn returns_are_stated_in_single_precision() {
    let list = closes(&[3.0, 3.3]);
    let stated = compute_future_return(&list, 0, 1, d(0.1), d(0.02));
    assert_eq!(stated.next_return, d(0.1f32 as f64));
    assert_eq!(stated.return_label, 2);
}
