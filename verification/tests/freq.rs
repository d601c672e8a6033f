use chan_distill::label::freq::{find_freq, parse_freq};
use czsc_core::objects::freq::Freq;

#[test]
fn english_names_are_read_in_any_case() {
    for (text, freq) in [
        ("tick", Freq::Tick),
        ("TICK", Freq::Tick),
        ("1m", Freq::F1),
        ("5m", Freq::F5),
        ("15m", Freq::F15),
        ("30M", Freq::F30),
        ("60m", Freq::F60),
        ("1h", Freq::F60),
        (" 1H ", Freq::F60),
        ("120m", Freq::F120),
        ("2h", Freq::F120),
        ("240m", Freq::F240),
        ("4h", Freq::F240),
        ("360m", Freq::F360),
        ("6h", Freq::F360),
        ("1d", Freq::D),
        ("1W", Freq::W),
        ("1s", Freq::S),
        ("1Y", Freq::Y),
        ("1M", Freq::M),
    ] {
        assert_eq!(parse_freq(text).unwrap(), freq, "{:?}", text);
    }
}

#[test]
fn chinese_names_are_read() {
    for (text, freq) in [
        ("1分钟", Freq::F1),
        ("5分钟", Freq::F5),
        ("15分钟", Freq::F15),
        ("30分钟", Freq::F30),
        ("60分钟", Freq::F60),
        ("240分钟", Freq::F240),
        ("日线", Freq::D),
        ("周线", Freq::W),
        ("月线", Freq::M),
    ] {
        assert_eq!(parse_freq(text).unwrap(), freq, "{:?}", text);
    }
}

#[test]
fn numbers_count_minutes() {
    for (text, freq) in [
        ("1", Freq::F1),
        ("5", Freq::F5),
        ("60", Freq::F60),
        ("120", Freq::F120),
        ("+240", Freq::F240),
        ("0015", Freq::F15),
        ("360", Freq::F360),
    ] {
        assert_eq!(parse_freq(text).unwrap(), freq, "{:?}", text);
    }
    for text in ["2", "4", "6", "7", "-5", "99999999999"] {
        assert!(parse_freq(text).is_err(), "{:?}", text);
    }
}

#[test]
fn case_matters_only_between_a_minute_and_a_month() {
    for (a, b) in [("1H", "1h"), ("tIcK", "TiCk"), ("3X", "3x"), ("120", "120"), ("1y", "1Y")] {
        assert_eq!(parse_freq(a).ok(), parse_freq(b).ok());
    }
    assert_eq!(find_freq("1m", "1m"), Some(Freq::F1));
    assert_eq!(find_freq("1M", "1m"), Some(Freq::M));
    assert_eq!(find_freq("30M", "30m"), Some(Freq::F30));
}

#[test]
fn other_texts_name_no_length() {
    assert_eq!(
        parse_freq(" 7M ").unwrap_err().message,
        "不支持的时间周期: 7m，支持格式: 1m/5m/15m/30m/1h/4h/1d/1w/1M/日线/周线 等"
    );
    assert!(parse_freq("").is_err());
    assert!(parse_freq("7分钟").is_err());
}
