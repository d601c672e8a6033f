use chan_distill::label::czsc_label::{
    count_zs, detect_bi, detect_fractals, ChanLabel, TfCzsc, TfLabels, TIMEFRAMES,
};
use chan_distill::label::bsp::{Bi, Direction};
use chan_distill::label::czsc::{closes_of, Mark};
use chan_distill::label::outlook::FutureReturn;
use chan_distill::label::parquet_out::{build_columns, Values};
use chan_distill::label::replay::{count_points, is_replayable, label_bars};
use chan_distill::number::Double;
use chrono::Timelike;
use czsc_core::analyze::CZSC;
use czsc_core::objects::bar::{RawBar, RawBarBuilder};
use czsc_core::objects::freq::Freq;

fn d(x: f64) -> Double {
    Double { bits: x.to_bits() }
}

fn bar(id: i32, seconds: i64, open: f64, close: f64, high: f64, low: f64, vol: f64) -> RawBar {
    RawBarBuilder::default()
        .symbol("CHAN")
        .dt(chrono::DateTime::from_timestamp(seconds, 0).unwrap())
        .freq(Freq::F1)
        .id(id)
        .open(open)
        .close(close)
        .high(high)
        .low(low)
        .vol(vol)
        .amount(vol * close)
        .build()
        .unwrap()
}

/// A random walk of one-minute bars.
fn walk(n: usize, seed: u64) -> Vec<RawBar> {
    let mut state = seed;
    let mut next = || {
        state = state.wrapping_mul(6364136223846793005).wrapping_add(1442695040888963407);
        ((state >> 33) % 2001) as f64 / 1000.0 - 1.0
    };
    let mut price = 1000.0;
    (0..n)
        .map(|i| {
            let open = price;
            price += 3.0 * next();
            let close = price;
            let high = open.max(close) + 0.5 + 0.5 * next();
            let low = open.min(close) - 0.5 - 0.5 * next();
            bar(i as i32, 1_700_000_000 + 60 * i as i64, open, close, high, low, 10.0 + next())
        })
        .collect()
}

const LIMIT: usize = 5000;

fn flat(n: usize) -> Vec<FutureReturn> {
    (0..n)
        .map(|i| FutureReturn { next_return: d(i as f64), return_label: (i % 3) as i64 })
        .collect()
}

/// One bar for each whole run of `factor` bars.
fn merge(bars: &[RawBar], factor: usize) -> Vec<RawBar> {
    bars.chunks_exact(factor)
        .map(|run| {
            let mut merged = bar(
                0,
                run[0].dt.timestamp(),
                run[0].open,
                run[run.len() - 1].close,
                run.iter().map(|b| b.high).fold(f64::MIN, f64::max),
                run.iter().map(|b| b.low).fold(f64::MAX, f64::min),
                run.iter().map(|b| b.vol).sum(),
            );
            merged.amount = run.iter().map(|b| b.amount).sum();
            merged
        })
        .collect()
}

struct Expected {
    top: u8,
    bottom: u8,
    dir: u8,
    strength: f64,
    strokes: usize,
}

/// What an analyzer shows after each of some bars, the first bar first.
fn expected(bars: &[RawBar], limit: usize) -> Vec<Expected> {
    let mut analyzer: Option<CZSC> = None;
    let mut dir = 0;
    let mut strength = 0.0;
    let mut list = Vec::new();
    for b in bars {
        let (old_fx, old_bi) = match &mut analyzer {
            Some(a) => {
                let before = (a.get_fx_list().len(), a.bi_list.len());
                a.update_bar(b.clone());
                before
            }
            None => {
                analyzer = Some(CZSC::new(vec![b.clone()], limit));
                (0, 0)
            }
        };
        let a = analyzer.as_ref().unwrap();
        let fx = a.get_fx_list();
        let new_fx = fx.len() > old_fx;
        let new_bi = a.bi_list.len() > old_bi;
        if new_bi {
            let last = &a.bi_list[a.bi_list.len() - 1];
            if last.direction == czsc_core::objects::direction::Direction::Up {
                dir = 1;
                strength = last.get_change().abs();
            }
        }
        let kind = fx.last().map(|f| f.mark == czsc_core::objects::mark::Mark::G);
        list.push(Expected {
            top: (new_fx && kind == Some(true)) as u8,
            bottom: (new_fx && kind == Some(false)) as u8,
            dir,
            strength,
            strokes: a.bi_list.len(),
        });
    }
    list
}

#[test]
fn labels_show_what_the_analyzers_show() {
    let bars = walk(2500, 1);
    let labels = label_bars(&bars, &flat(bars.len()), LIMIT);
    assert_eq!(labels.len(), bars.len());
    let minute = expected(&bars, LIMIT);
    assert!(minute.last().unwrap().strokes > 20);
    for i in 1..bars.len() {
        let tf = labels[i].tf[0];
        let e = &minute[i];
        assert_eq!((tf.has_top, tf.has_bottom, tf.bi_dir), (e.top, e.bottom, e.dir), "bar {}", i);
        assert_eq!(labels[i].bi_strength, d(e.strength as f32 as f64), "bar {}", i);
        assert_eq!(labels[i].next_return, d(i as f64));
        assert_eq!(labels[i].return_label, (i % 3) as i64);
        assert_eq!(labels[i].is_bsp, (labels[i].bsp_direction != 0) as u8);
    }
    assert!(labels.iter().any(|l| l.tf[0].has_top == 1));
    assert!(labels.iter().any(|l| l.tf[0].has_bottom == 1));
    assert!(labels.iter().any(|l| l.bsp_direction == 1));
    assert!(labels.iter().any(|l| l.bsp_direction == 2));
    assert!(labels.last().unwrap().tf[0].zs > 0);
    assert_eq!(count_points(&labels), labels.iter().filter(|l| l.is_bsp == 1).count());
}

#[test]
fn analyzers_keep_as_many_strokes_as_asked_for() {
    let bars = walk(2500, 1);
    let labels = label_bars(&bars, &flat(bars.len()), 5);
    let few = expected(&bars, 5);
    let many = expected(&bars, LIMIT);
    assert!(few.iter().all(|e| e.strokes <= 5));
    assert!(many.last().unwrap().strokes > 5);
    for i in 1..bars.len() {
        let tf = labels[i].tf[0];
        let e = &few[i];
        assert_eq!((tf.has_top, tf.has_bottom, tf.bi_dir), (e.top, e.bottom, e.dir), "bar {}", i);
        assert!(tf.zs <= 1);
    }
}

#[test]
fn closes_are_taken_bar_by_bar() {
    let bars = walk(20, 3);
    let expected: Vec<Double> = bars.iter().map(|b| d(b.close)).collect();
    assert_eq!(closes_of(&bars), expected);
    assert!(closes_of(&[]).is_empty());
}

#[test]
fn the_empty_label_is_all_zeros() {
    let zero = ChanLabel::zero();
    assert!(zero.tf.iter().all(|t| *t == TfLabels { has_top: 0, has_bottom: 0, bi_dir: 0, zs: 0 }));
    assert_eq!((zero.bi_strength, zero.next_return), (d(0.0), d(0.0)));
    assert_eq!((zero.is_bsp, zero.bsp_direction, zero.return_label), (0, 0, 0));
}

#[test]
fn leap_seconds_after_any_second_are_written() {
    let mut one = vec![bar(0, 0, 1.0, 1.0, 1.0, 1.0, 1.0)];
    one[0].dt = one[0].dt.with_nanosecond(1_500_000_000).unwrap();
    assert!(is_replayable(&one));
    let columns = build_columns(&one, &[ChanLabel::zero()]);
    assert!(matches!(&columns[0].values, Values::Integers(v) if v[0] == 1_500_000_000));
}

#[test]
fn the_length_of_bars_changes_no_label() {
    let bars = walk(400, 9);
    let mut other = bars.clone();
    for b in &mut other {
        b.freq = Freq::D;
    }
    let n = bars.len();
    assert_eq!(
        label_bars(&bars, &flat(n), LIMIT),
        label_bars(&other, &flat(n), LIMIT)
    );
}

#[test]
fn longer_timeframes_see_merged_bars() {
    let bars = walk(2500, 2);
    let labels = label_bars(&bars, &flat(bars.len()), LIMIT);
    for k in 1..8 {
        let factor = TIMEFRAMES[k].1;
        let steps = expected(&merge(&bars[1..], factor), LIMIT);
        for i in 1..bars.len() {
            let tf = labels[i].tf[k];
            if i < factor {
                assert_eq!(tf, TfLabels { has_top: 0, has_bottom: 0, bi_dir: 0, zs: 0 });
                continue;
            }
            let e = &steps[i / factor - 1];
            let fresh = (i % factor == 0) as u8;
            assert_eq!(
                (tf.has_top, tf.has_bottom, tf.bi_dir),
                (e.top * fresh, e.bottom * fresh, e.dir),
                "timeframe {} bar {}",
                k,
                i
            );
            if fresh == 0 {
                assert_eq!(tf.zs, labels[i - 1].tf[k].zs);
            }
        }
    }
    assert!(labels.iter().any(|l| l.tf[1].has_top == 1));
    assert!(labels.last().unwrap().tf[1].bi_dir == 1);
}

#[test]
fn labels_do_not_look_ahead() {
    let bars = walk(900, 3);
    let all = label_bars(&bars, &flat(bars.len()), LIMIT);
    let part = label_bars(&bars[..600], &flat(600), LIMIT);
    assert_eq!(part[..], all[..600]);
    let mut other = bars[..600].to_vec();
    other.extend(walk(900, 4).into_iter().skip(600));
    let changed = label_bars(&other, &flat(900), LIMIT);
    assert_eq!(changed[..600], all[..600]);
}

#[test]
fn bars_out_of_order_or_without_a_range_cannot_be_replayed() {
    let mut bars = walk(5, 8);
    assert!(is_replayable(&bars));
    assert!(is_replayable(&[]));
    bars.swap(2, 3);
    assert!(!is_replayable(&bars));
    bars.swap(2, 3);
    bars[4] = bars[3].clone();
    assert!(!is_replayable(&bars));
    let mut bars = walk(5, 8);
    bars[1].low = f64::NAN;
    assert!(!is_replayable(&bars));
}

#[test]
fn the_first_bar_has_no_labels() {
    let bars = walk(1, 5);
    let labels = label_bars(&bars, &flat(1), LIMIT);
    assert_eq!(labels.len(), 1);
    assert_eq!(labels[0], ChanLabel { return_label: 1, ..ChanLabel::zero() });
    assert_eq!(labels[0].return_label, 1);
    assert_eq!(labels[0].next_return, d(0.0));
}

#[test]
fn a_timeframe_waits_for_a_whole_run() {
    let bars = walk(20, 6);
    let mut tf = TfCzsc::new("5m", 5);
    let complete: Vec<bool> = bars.iter().map(|b| tf.push(b)).collect();
    let whole: Vec<bool> = (1..=20).map(|i| i % 5 == 0).collect();
    assert_eq!(complete, whole);
    assert_eq!(TfCzsc::new("1w", 10080).extract(50), TfLabels::none());
}

#[test]
fn fractals_and_strokes_are_labelled_when_they_form() {
    assert_eq!(detect_fractals(&[Mark::D, Mark::G], true), (1, 0));
    assert_eq!(detect_fractals(&[Mark::G, Mark::D], true), (0, 1));
    assert_eq!(detect_fractals(&[Mark::G], false), (0, 0));
    assert_eq!(detect_fractals(&[], true), (0, 0));
    let up = Bi { direction: Direction::Up, high: d(12.0), low: d(10.0), change: d(0.2) };
    let down = Bi { direction: Direction::Down, high: d(12.0), low: d(9.0), change: d(-0.25) };
    assert_eq!(detect_bi(&[down, up], true), (1, d(0.2f32 as f64)));
    assert_eq!(detect_bi(&[up, down], true), (0, d(0.25)));
    assert_eq!(detect_bi(&[up], false), (0, d(0.0)));
    assert_eq!(detect_bi(&[], true), (0, d(0.0)));
    assert_eq!(count_zs(&[up, down, up]), 1);
    assert_eq!(count_zs(&[up, down]), 0);
}

#[test]
fn labelled_bars_fill_forty_four_columns() {
    let bars = walk(300, 7);
    let labels = label_bars(&bars, &flat(bars.len()), LIMIT);
    let columns = build_columns(&bars, &labels);
    let names: Vec<&str> = columns.iter().map(|c| c.name.as_str()).collect();
    assert_eq!(names.len(), 44);
    assert_eq!(names[..8], ["dt", "open", "close", "high", "low", "vol", "amount", "1m_has_top"]);
    assert_eq!(names[8..12], ["1m_has_bottom", "1m_bi_dir", "1m_zs", "5m_has_top"]);
    assert_eq!(names[38], "1w_zs");
    assert_eq!(
        names[39..],
        ["1m_bi_str", "1m_is_bsp", "1m_bsp_dir", "next_return", "return_label"]
    );
    for i in 0..44 {
        for j in 0..i {
            assert_ne!(names[i], names[j]);
        }
    }
    for (c, column) in columns.iter().enumerate() {
        for i in 0..bars.len() {
            let found = match &column.values {
                Values::Integers(v) => v[i] as f64,
                Values::Numbers(v) => f64::from_bits(v[i].bits),
                Values::Counts(v) => v[i] as f64,
            };
            let label = &labels[i];
            let wanted = match c {
                0 => bars[i].dt.timestamp_nanos_opt().unwrap() as f64,
                1 => bars[i].open,
                2 => bars[i].close,
                3 => bars[i].high,
                4 => bars[i].low,
                5 => bars[i].vol,
                6 => bars[i].amount,
                39 => f64::from_bits(label.bi_strength.bits),
                40 => label.is_bsp as f64,
                41 => label.bsp_direction as f64,
                42 => f64::from_bits(label.next_return.bits),
                43 => label.return_label as f64,
                _ => {
                    let tf = label.tf[(c - 7) / 4];
                    [tf.has_top as f64, tf.has_bottom as f64, tf.bi_dir as f64, tf.zs as f64]
                        [(c - 7) % 4]
                }
            };
            assert_eq!(found, wanted, "column {} bar {}", c, i);
        }
    }
}

#[test]
fn times_that_do_not_fit_are_written_as_zero() {
    for (seconds, wanted) in [
        (9_223_372_036i64, 9_223_372_036_000_000_000i64),
        (9_223_372_037, 0),
        (-9_223_372_036, -9_223_372_036_000_000_000),
        (-9_223_372_038, 0),
    ] {
        let one = vec![bar(0, seconds, 1.0, 1.0, 1.0, 1.0, 1.0)];
        let columns = build_columns(&one, &[ChanLabel::zero()]);
        match &columns[0].values {
            Values::Integers(v) => assert_eq!(v[0], wanted, "{}", seconds),
            _ => panic!("times are whole numbers"),
        }
    }
}
