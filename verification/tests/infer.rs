use chan_distill::infer::records::{read_ohlcv_csv, OhlcvRecord, TableError};
use chan_distill::infer::signal::{
    backend_for, check_length, collect_signals, decide_signal, filter_signals, find_output,
    graph_signal, Backend, Signal, BSP_OUTPUT, RETURN_OUTPUT,
};
use chan_distill::number::Double;

fn d(x: f64) -> Double {
    Double { bits: x.to_bits() }
}

fn fields(r: &OhlcvRecord) -> [&str; 6] {
    [&r.dt, &r.open, &r.high, &r.low, &r.close, &r.vol]
}

#[test]
fn records_are_read_by_name() {
    let data = "Vol, Close ,LOW,high,Open,DT\n6,5,4,3,2, 2023-06-19 12:00:00\n";
    let records = read_ohlcv_csv(data.as_bytes()).unwrap();
    assert_eq!(records.len(), 1);
    assert_eq!(fields(&records[0]), ["2023-06-19 12:00:00", "2", "3", "4", "5", "6"]);
    assert_eq!(records[0].features(), ["2", "3", "4", "5", "6"]);
}

#[test]
fn columns_without_a_name_stand_in_their_place() {
    let records = read_ohlcv_csv(b"a,b,c\nt,1,2\n").unwrap();
    assert_eq!(fields(&records[0]), ["t", "1", "2", "0", "0", "0"]);
}

#[test]
fn numbers_that_cannot_be_read_count_as_zero() {
    let data = "dt,Close,open,high,low,volume\n2023-06-19 12:00:00,1.5,1,2,0.5,abc\n";
    let records = read_ohlcv_csv(data.as_bytes()).unwrap();
    assert_eq!(fields(&records[0]), ["2023-06-19 12:00:00", "1", "2", "0.5", "1.5", "0"]);
}

#[test]
fn tables_without_records_are_errors() {
    assert!(matches!(read_ohlcv_csv(b"dt,open\n"), Err(TableError::NoData)));
    assert!(matches!(read_ohlcv_csv(b""), Err(TableError::NoData)));
    assert!(matches!(read_ohlcv_csv(b"dt,open\n1,2\n3\n"), Err(TableError::Unreadable(_))));
    assert!(matches!(read_ohlcv_csv(b"d\xfft\n1\n"), Err(TableError::Unreadable(_))));
}

#[test]
fn extensions_choose_the_backend() {
    assert_eq!(backend_for("safetensors").unwrap(), Backend::Candle);
    assert_eq!(backend_for("SafeTensors").unwrap(), Backend::Candle);
    assert_eq!(backend_for("ONNX").unwrap(), Backend::Onnx);
    assert_eq!(
        backend_for("PT").unwrap_err().message,
        "不支持: .pt，请用 .safetensors 或 .onnx"
    );
    assert!(backend_for("").is_err());
}

#[test]
fn a_series_must_have_a_window() {
    assert!(check_length(60, 60).is_ok());
    assert_eq!(
        check_length(59, 60).unwrap_err().message,
        "数据不足: 需要 >= 60 根 K 线，当前 59 根"
    );
}

fn decided(p_drop: f64, p_rise: f64, threshold: f64) -> (i64, f64) {
    let signal = decide_signal(d(p_drop), d(p_rise), d(0.25), d(threshold));
    assert_eq!(signal.is_bsp_prob, d(0.25));
    (signal.direction, f64::from_bits(signal.confidence.bits))
}

#[test]
fn the_more_probable_way_is_taken_where_it_is_probable_enough() {
    assert_eq!(decided(0.1, 0.72, 0.5), (1, 0.72));
    assert_eq!(decided(0.72, 0.1, 0.5), (2, 0.72));
    assert_eq!(decided(0.3, 0.45, 0.5), (0, 0.45));
    assert_eq!(decided(0.5, 0.5, 0.5), (0, 0.5));
    assert_eq!(decided(0.1, 0.5, 0.5), (1, 0.5));
    assert_eq!(decided(f64::NAN, 0.9, 0.5), (0, 0.9));
}

#[test]
fn graphs_without_a_return_give_no_signal() {
    let none = graph_signal(None, Some(d(0.9)), d(0.5));
    assert_eq!((none.direction, none.confidence, none.is_bsp_prob), (0, d(0.0), d(0.0)));
    let some = graph_signal(Some((d(0.8), d(0.1))), None, d(0.5));
    assert_eq!((some.direction, some.confidence, some.is_bsp_prob), (2, d(0.8), d(0.0)));
    let both = graph_signal(Some((d(0.1), d(0.8))), Some(d(0.9)), d(0.5));
    assert_eq!((both.direction, both.confidence, both.is_bsp_prob), (1, d(0.8), d(0.9)));
}

#[test]
fn outputs_are_found_by_a_part_of_their_name() {
    let names: Vec<String> =
        ["top", "head_return_logits", "return_logits", "is_bsp_2"].map(String::from).to_vec();
    assert_eq!(find_output(&names, RETURN_OUTPUT), Some(1));
    assert_eq!(find_output(&names, BSP_OUTPUT), Some(3));
    assert_eq!(find_output(&names, "bottom"), None);
    assert_eq!(find_output(&[], BSP_OUTPUT), None);
}

fn record(dt: &str) -> OhlcvRecord {
    OhlcvRecord {
        dt: dt.to_string(),
        open: "1".to_string(),
        high: "1".to_string(),
        low: "1".to_string(),
        close: "1".to_string(),
        vol: "1".to_string(),
    }
}

#[test]
fn signals_have_the_time_of_the_last_bar_of_their_window() {
    let records = [record("a"), record("b"), record("c"), record("d")];
    let buy = Signal { direction: 1, confidence: d(0.8), is_bsp_prob: d(0.9) };
    let rest = Signal { direction: 0, confidence: d(0.4), is_bsp_prob: d(0.5) };
    let signals = collect_signals(&records, 2, &[Some(buy), None, Some(rest)]);
    let times: Vec<&str> = signals.iter().map(|s| s.time.as_str()).collect();
    assert_eq!(times, vec!["b", "d"]);
    assert_eq!((signals[0].direction, signals[0].confidence), (1, d(0.8)));
    assert_eq!(filter_signals(&signals, false).len(), 2);
    let points = filter_signals(&signals, true);
    assert_eq!(points.len(), 1);
    assert_eq!(points[0].time, "b");
}
