use chan_distill::label::csv_reader::{
    col_index, col_index_in, find_layout, read_csv_to_raw_bars, validate_ohlcv, CsvError, Fault,
    Layout,
};
use chan_distill::number::Double;
use chan_distill::table::{find_col, lower_all, position};
use chan_distill::time::Timestamp;
use czsc_core::objects::freq::Freq;

fn d(x: f64) -> Double {
    Double { bits: x.to_bits() }
}

fn cols(names: &[&str]) -> Vec<String> {
    names.iter().map(|n| n.to_string()).collect()
}

const AT: Timestamp = Timestamp { seconds: 1_704_067_200, nanos: 0 };

fn verdict(open: f64, high: f64, low: f64, close: f64, vol: f64, amount: f64) -> Option<Fault> {
    match validate_ohlcv(d(open), d(high), d(low), d(close), d(vol), d(amount), AT) {
        Ok(()) => None,
        Err(e) => {
            assert_eq!(e.dt, AT);
            Some(e.fault)
        }
    }
}

#[test]
fn faults_of_bars_are_told_apart() {
    assert_eq!(verdict(2.0, 3.0, 1.0, 2.5, 10.0, 20.0), None);
    assert_eq!(verdict(2.0, 1.0, 1.5, 2.5, 10.0, 20.0), Some(Fault::HighBelowLow));
    assert_eq!(verdict(4.0, 3.0, 1.0, 2.5, 10.0, 20.0), Some(Fault::HighBelowOpenOrClose));
    assert_eq!(verdict(2.0, 3.0, 1.0, 3.5, 10.0, 20.0), Some(Fault::HighBelowOpenOrClose));
    assert_eq!(verdict(0.5, 3.0, 1.0, 2.5, 10.0, 20.0), Some(Fault::LowAboveOpenOrClose));
    assert_eq!(verdict(2.0, 3.0, 1.0, 0.5, 10.0, 20.0), Some(Fault::LowAboveOpenOrClose));
    assert_eq!(verdict(2.0, 3.0, 1.0, 2.5, -1.0, 20.0), Some(Fault::NegativeVolume));
    assert_eq!(verdict(2.0, 3.0, 1.0, 2.5, 10.0, -1.0), Some(Fault::NegativeVolume));
    assert_eq!(verdict(2.0, 3.0, 0.0, 2.5, 10.0, 20.0), Some(Fault::NonPositivePrice));
    assert_eq!(verdict(-2.0, -1.0, -3.0, -2.5, 10.0, 20.0), Some(Fault::NonPositivePrice));
}

#[test]
fn columns_are_found_by_name() {
    let list = cols(&["dt", "open", "close", "open"]);
    assert_eq!(position(&list, "open"), Some(1));
    assert_eq!(position(&list, "vol"), None);
    assert_eq!(find_col(&list, &["收盘", "close"]), Some(2));
    assert_eq!(col_index(&list, "dt").unwrap(), 0);
    assert_eq!(col_index_in(&list, &["close", "open"]).unwrap(), 2);
    assert_eq!(col_index(&list, "vol").unwrap_err().message, "CSV 缺少必需列: vol，可用列: dt, open, close, open");
    assert_eq!(
        col_index_in(&list, &["vol", "volume"]).unwrap_err().message,
        "CSV 缺少必需列 (vol/volume), 可用列: dt, open, close, open"
    );
}

#[test]
fn headers_give_layouts() {
    let list = cols(&["成交额", "dt", "收盘", "最低", "最高", "开盘", "volume"]);
    assert_eq!(
        find_layout(&list).unwrap(),
        Layout { dt: 1, open: 5, high: 4, low: 3, close: 2, vol: 6, amount: 0 }
    );
    let lacking = cols(&["dt", "open", "high", "low", "vol"]);
    assert_eq!(
        find_layout(&lacking).unwrap_err().message,
        "CSV 缺少必需列 (close/收盘), 可用列: dt, open, high, low, vol"
    );
}

#[test]
fn headers_are_put_in_lower_case() {
    assert_eq!(lower_all(&cols(&["DT", "Open", "ÄÖ", "收盘"])), cols(&["dt", "open", "äö", "收盘"]));
}

#[test]
fn bars_are_read_without_a_header() {
    let data = b"2023-01-01 00:00:00,16541.77,16544.76,16538.45,16543.67,83.08\n\
        2023-01-01 00:01:00, 16543.04 ,16544.41,16538.48,16539.31,80.45\n";
    let read = read_csv_to_raw_bars(data, Freq::F1, true).unwrap();
    assert_eq!(read.skipped, 0);
    assert_eq!(read.bars.len(), 2);
    let bar = &read.bars[1];
    assert_eq!(bar.dt.timestamp(), 1_672_531_260);
    assert_eq!((bar.open, bar.high, bar.low, bar.close), (16543.04, 16544.41, 16538.48, 16539.31));
    assert_eq!((bar.vol, bar.amount), (80.45, 80.45));
    assert_eq!(bar.freq, Freq::F1);
    assert_eq!(bar.id, 1);
    assert_eq!(&*bar.symbol, "CHAN");
}

#[test]
fn bars_are_read_with_a_header() {
    let data = "Close,DT,Open,High,Low,Volume,Amount\n2.5,1704067200,2,3,1,10,25\n";
    let read = read_csv_to_raw_bars(data.as_bytes(), Freq::D, false).unwrap();
    assert_eq!(read.bars.len(), 1);
    let bar = &read.bars[0];
    assert_eq!((bar.open, bar.high, bar.low, bar.close), (2.0, 3.0, 1.0, 2.5));
    assert_eq!((bar.vol, bar.amount), (10.0, 25.0));
    assert_eq!(bar.dt.timestamp(), 1_704_067_200);
}

#[test]
fn the_volume_stands_for_a_missing_turnover() {
    let data = "dt,open,high,low,close,vol\n\
        2023-01-01 00:00:00,16541.77,16544.76,16538.45,16543.67,83.08\n";
    let read = read_csv_to_raw_bars(data.as_bytes(), Freq::F1, false).unwrap();
    assert_eq!(read.bars.len(), 1);
    let bar = &read.bars[0];
    assert_eq!(bar.dt.timestamp(), 1_672_531_200);
    assert_eq!((bar.open, bar.high, bar.low, bar.close), (16541.77, 16544.76, 16538.45, 16543.67));
    assert_eq!((bar.vol, bar.amount), (83.08, 83.08));
}

#[test]
fn rows_that_hold_no_sound_bar_are_skipped() {
    let data = "2024-01-01 00:00,2,3,1,2.5,10\n\
        nonsense,2,3,1,2.5,10\n\
        2024-01-01 00:01,2,3,1,2.5\n\
        2024-01-01 00:02,x,3,1,2.5,10\n\
        2024-01-01 00:03,0,3,1,2.5,10\n\
        2024-01-01 00:04,2,nan,1,2.5,10\n\
        2024-01-01 00:05,2,3,1,2.5,-1\n\
        2024-01-01 00:06,2,1,3,2.5,10\n\
        2024-01-01 00:07,2,3,1,2.5,0\n";
    let read = read_csv_to_raw_bars(data.as_bytes(), Freq::F1, true).unwrap();
    assert_eq!(read.bars.len(), 2);
    assert_eq!(read.skipped, 7);
    assert_eq!(read.bars[1].dt.timestamp() - read.bars[0].dt.timestamp(), 7 * 60);
    assert_eq!(read.bars[1].id, 1);
}

#[test]
fn a_row_must_be_later_than_every_time_before_it() {
    let data = "2024-01-01 00:02,2,3,1,2.5,10\n\
        2024-01-01 00:01,2,3,1,2.5,10\n\
        2024-01-01 00:02,2,3,1,2.5,10\n\
        2024-01-01 00:09,bad,3,1,2.5,10\n\
        2024-01-01 00:05,2,3,1,2.5,10\n\
        2024-01-01 00:10,2,3,1,2.5,10\n";
    let read = read_csv_to_raw_bars(data.as_bytes(), Freq::F1, true).unwrap();
    let minutes: Vec<i64> =
        read.bars.iter().map(|b| (b.dt.timestamp() - 1_704_067_200) / 60).collect();
    assert_eq!(minutes, vec![2, 10]);
    assert_eq!(read.skipped, 4);
}

#[test]
fn tables_without_bars_are_errors() {
    assert!(matches!(read_csv_to_raw_bars(b"", Freq::F1, true), Err(CsvError::NoData)));
    assert!(matches!(
        read_csv_to_raw_bars(b"dt,open,high,low,close,vol,amount\n", Freq::F1, false),
        Err(CsvError::NoData)
    ));
    assert!(matches!(
        read_csv_to_raw_bars(b"d\xfft,open\n", Freq::F1, false),
        Err(CsvError::Unreadable(_))
    ));
    match read_csv_to_raw_bars(b"dt,open,high,low,close\n", Freq::F1, false) {
        Err(CsvError::MissingColumn(e)) => assert_eq!(
            e.message,
            "CSV 缺少必需列 (vol/volume/成交量), 可用列: dt, open, high, low, close"
        ),
        _ => panic!("a table without a volume"),
    }
}
