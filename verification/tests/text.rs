use chan_distill::text::{
    are_digits, characters, contains, join, join_names, parse_integer, read_digits, same,
    same_ignoring_case, write_decimal,
};

fn chars(text: &str) -> Vec<char> {
    characters(text)
}

#[test]
fn characters_are_taken_one_by_one() {
    assert_eq!(chars("1分钟"), vec!['1', '分', '钟']);
    assert!(chars("").is_empty());
}

#[test]
fn texts_are_compared() {
    assert!(same("收盘", "收盘"));
    assert!(!same("close", "Close"));
    assert!(same_ignoring_case(&chars("cLoSe"), &chars("CLOSE")));
    assert!(!same_ignoring_case(&chars("close"), &chars("closed")));
    assert!(!same_ignoring_case(&chars("Ä"), &chars("ä")));
}

#[test]
fn texts_stand_in_others() {
    for (text, part) in [
        ("signal_output", "signal"),
        ("signal_output", "output"),
        ("signal_output", "l_o"),
        ("aaab", "aab"),
        ("收盘价", "盘价"),
        ("close", ""),
        ("", ""),
        ("", "a"),
        ("close", "closed"),
        ("close", "Close"),
        ("abab", "ba b"),
    ] {
        assert_eq!(contains(text, part), text.contains(part), "{} in {}", part, text);
    }
}

#[test]
fn digits_are_read() {
    assert!(are_digits(&chars("0123456789")));
    assert!(!are_digits(&chars("12a")));
    assert!(!are_digits(&chars("１２")));
    assert_eq!(read_digits(&chars("1704067200000")), 1_704_067_200_000);
}

#[test]
fn integers_are_read_as_the_standard_library_reads_them() {
    let samples = [
        "0", "-0", "+0", "120", "+5", "-7", "005", "", "+", "-", "--1", "1 ", " 1", "1_0", "12a",
        "2147483647", "2147483648", "-2147483648", "-2147483649", "00000000000000000000000000060",
        "99999999999999999999999999999999999999", "٣",
    ];
    for text in samples {
        assert_eq!(parse_integer(&chars(text)), text.parse::<i32>().ok(), "{:?}", text);
    }
}

#[test]
fn lists_are_joined() {
    let cols = vec!["dt".to_string(), "open".to_string(), "vol".to_string()];
    assert_eq!(join(&cols, ", "), "dt, open, vol");
    assert_eq!(join(&[], ", "), "");
    assert_eq!(join_names(&["vol", "volume", "成交量"], "/"), "vol/volume/成交量");
}

#[test]
fn decimals_are_written() {
    for n in [0usize, 7, 9, 10, 11, 44, 99, 100, 10080, usize::MAX] {
        assert_eq!(write_decimal(n), n.to_string());
    }
}
