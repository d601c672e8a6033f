use chan_distill::number::Double;
use chan_distill::train::progress::{epoch_file, Progress, BEST_FILE};
use chan_distill::train::sampling::{
    batches, order_from_draws, split_windows, window_bounds, window_count, Shuffler,
};
use chan_distill::train::targets::{
    check_columns, class_target, class_targets, fill_row, get_mtf_target, number_targets, scale_or_one,
    FEATURE_COLUMNS,
};

fn d(x: f64) -> Double {
    Double { bits: x.to_bits() }
}

#[test]
fn training_needs_forty_columns() {
    assert!(check_columns(44).is_ok());
    assert!(check_columns(40).is_ok());
    assert_eq!(
        check_columns(39).unwrap_err().message,
        "列数不足: 检测到 39 列，需要 ≥40 列（多周期标注）"
    );
}

#[test]
fn missing_cells_are_zero() {
    let row = fill_row(&[Some(d(1.5)), None, Some(d(-2.0))]);
    assert_eq!((row[0], row[1], row[2], row[43]), (d(1.5), d(0.0), d(-2.0), d(0.0)));
    let long: Vec<Option<Double>> = (0..50).map(|i| Some(d(i as f64))).collect();
    assert_eq!(fill_row(&long)[43], d(43.0));
}

#[test]
fn heads_take_their_columns() {
    let cells: Vec<Option<Double>> = (0..44).map(|i| Some(d(i as f64))).collect();
    let row = fill_row(&cells);
    let taken: Vec<f64> =
        (0..38).map(|h| f64::from_bits(get_mtf_target(&row, h).bits)).collect();
    let mut expected = vec![43.0, 7.0, 8.0, 9.0, 39.0, 10.0, 40.0, 41.0];
    expected.extend((11..39).map(|c| c as f64));
    expected.extend([0.0, 0.0]);
    assert_eq!(taken, expected);
    assert_eq!(FEATURE_COLUMNS, [1, 3, 4, 2, 5]);
}

#[test]
fn scales_are_above_zero() {
    assert_eq!(scale_or_one(d(3.5)), d(3.5));
    assert_eq!(scale_or_one(d(0.0)), d(1.0));
    assert_eq!(scale_or_one(d(-0.0)), d(1.0));
    assert_eq!(scale_or_one(d(-7.0)), d(1.0));
    assert!(scale_or_one(d(f64::NAN)).is_nan());
}

#[test]
fn windows_end_at_every_bar_that_can_end_one() {
    assert_eq!(window_count(59, 60), None);
    assert_eq!(window_count(60, 60), Some(1));
    assert_eq!(window_count(100, 60), Some(41));
    assert_eq!(window_bounds(0, 60), (0, 59));
    assert_eq!(window_bounds(40, 60), (40, 99));
    assert_eq!(window_bounds(3, 1), (3, 3));
}

#[test]
fn at_least_one_window_is_held_back() {
    assert_eq!(split_windows(100, 10), (90, 10));
    assert_eq!(split_windows(3, 0), (2, 1));
    assert_eq!(split_windows(1, 0), (0, 1));
    assert_eq!(split_windows(5, 5), (0, 5));
}

#[test]
fn draws_settle_places_from_the_end() {
    assert_eq!(order_from_draws(4, &[0, 1, 0]), vec![2, 3, 1, 0]);
    assert_eq!(order_from_draws(4, &[3, 2, 1]), vec![0, 1, 2, 3]);
    assert_eq!(order_from_draws(1, &[]), vec![0]);
    assert_eq!(order_from_draws(0, &[]), Vec::<usize>::new());
}

#[test]
fn shuffled_numbers_are_all_there() {
    let mut shuffler = Shuffler::new(42);
    for n in [0usize, 1, 2, 17, 1000] {
        let mut order = shuffler.shuffle(n);
        assert_eq!(order.len(), n);
        if n == 1000 {
            assert_ne!(order, (0..n).collect::<Vec<_>>());
        }
        order.sort();
        assert_eq!(order, (0..n).collect::<Vec<_>>());
    }
}

#[test]
fn one_seed_gives_one_order() {
    let mut a = Shuffler::new(7);
    let mut b = Shuffler::new(7);
    let mut c = Shuffler::new(8);
    for _ in 0..3 {
        let order = a.shuffle(100);
        assert_eq!(order, b.shuffle(100));
        assert_ne!(order, c.shuffle(100));
    }
    assert_ne!(Shuffler::new(7).shuffle(100), a.shuffle(100));
}

#[test]
fn class_targets_are_what_was_written() {
    let cells: Vec<Option<Double>> = (0..44).map(|i| Some(d((i % 3) as f64))).collect();
    let row = fill_row(&cells);
    assert_eq!(class_target(&row, 0), 43 % 3);
    assert_eq!(class_target(&row, 3), 9 % 3);
    assert_eq!(class_target(&row, 7), 41 % 3);
    assert_eq!(class_target(&row, 34), 37 % 3);
    assert_eq!(class_target(&row, 99), 0);
}

#[test]
fn windows_aim_at_their_last_row() {
    let rows: Vec<[Double; 44]> = (0..6)
        .map(|r| {
            let cells: Vec<Option<Double>> =
                (0..44).map(|c| Some(d(100.0 * r as f64 + c as f64 + 0.5))).collect();
            fill_row(&cells)
        })
        .collect();
    let windows = [2, 0, 3];
    assert_eq!(class_targets(&rows, &windows, 3, 0), vec![443, 243, 543]);
    assert_eq!(class_targets(&rows, &windows, 3, 99), vec![0, 0, 0]);
    assert_eq!(number_targets(&rows, &windows, 3, 4), vec![d(439.5), d(239.5), d(539.5)]);
    assert_eq!(number_targets(&rows, &windows, 1, 6), vec![d(240.5), d(40.5), d(340.5)]);
    assert_eq!(number_targets(&rows, &windows, 3, 99), vec![d(0.0), d(0.0), d(0.0)]);
    assert!(class_targets(&rows, &[], 3, 0).is_empty());
}

#[test]
fn number_targets_are_what_was_written() {
    let cells: Vec<Option<Double>> = (0..44).map(|i| Some(d(i as f64 / 4.0))).collect();
    let row = fill_row(&cells);
    assert_eq!(get_mtf_target(&row, 4), d(39.0 / 4.0));
    assert_eq!(get_mtf_target(&row, 5), d(10.0 / 4.0));
    assert_eq!(get_mtf_target(&row, 6), d(40.0 / 4.0));
    assert_eq!(get_mtf_target(&row, 11), d(14.0 / 4.0));
}

#[test]
fn batches_cover_the_list() {
    assert_eq!(batches(10, 4), vec![(0, 4), (4, 8), (8, 10)]);
    assert_eq!(batches(8, 4), vec![(0, 4), (4, 8)]);
    assert_eq!(batches(3, 64), vec![(0, 3)]);
    assert_eq!(batches(0, 4), vec![]);
}

#[test]
fn training_stops_when_losses_no_longer_improve() {
    let mut progress = Progress::new();
    let losses = [5.0, 3.0, 4.0, 2.0, 2.0, 2.5, 9.0];
    let mut verdicts = Vec::new();
    for (epoch, loss) in losses.iter().enumerate() {
        let verdict = progress.take(epoch, d(*loss), 2);
        verdicts.push((verdict.improved, verdict.stop));
    }
    assert_eq!(
        verdicts,
        vec![
            (true, false),
            (true, false),
            (false, false),
            (true, false),
            (false, false),
            (false, false),
            (false, true)
        ]
    );
    assert_eq!(progress, Progress { best_loss: d(2.0), best_epoch: 3 });
}

#[test]
fn a_loss_that_is_not_a_number_never_improves() {
    let mut progress = Progress::new();
    let verdict = progress.take(0, d(f64::NAN), 0);
    assert!(!verdict.improved && !verdict.stop);
    assert!(progress.take(1, d(f64::NAN), 0).stop);
}

#[test]
fn every_tenth_epoch_has_a_file() {
    assert_eq!(epoch_file(0), None);
    assert_eq!(epoch_file(8), None);
    assert_eq!(epoch_file(9).unwrap(), "epoch_0010.safetensors");
    assert_eq!(epoch_file(99).unwrap(), "epoch_0100.safetensors");
    assert_eq!(epoch_file(999).unwrap(), "epoch_1000.safetensors");
    assert_eq!(epoch_file(99_999).unwrap(), "epoch_100000.safetensors");
    assert_eq!(BEST_FILE, "best.safetensors");
}
