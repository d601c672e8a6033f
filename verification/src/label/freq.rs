//! The lengths of bars and their names.
use crate::text::{
    all_ascii, ascii_lower, ascii_lowered, characters, integer_of, is_digit, lower, lowercase,
    parse_integer, same, same_but_case, same_ignoring_case, trim, trimmed, unsigned_part,
};
use czsc_core::objects::freq::Freq;
use vstd::prelude::*;
use vstd::string::StringExecFns;

verus! {

/// The lengths that bars may have, by name.
pub const FREQ_MAP: [(&'static str, Freq); 18] = [
    ("Tick", Freq::Tick),
    ("1m", Freq::F1),
    ("5m", Freq::F5),
    ("15m", Freq::F15),
    ("30m", Freq::F30),
    ("60m", Freq::F60),
    ("1h", Freq::F60),
    ("120m", Freq::F120),
    ("2h", Freq::F120),
    ("240m", Freq::F240),
    ("4h", Freq::F240),
    ("360m", Freq::F360),
    ("6h", Freq::F360),
    ("1d", Freq::D),
    ("1w", Freq::W),
    ("1M", Freq::M),
    ("1S", Freq::S),
    ("1Y", Freq::Y),
];

/// The Chinese names, and what each stands for.
pub const CN_MAP: [(&'static str, &'static str); 9] = [
    ("1分钟", "1m"),
    ("5分钟", "5m"),
    ("15分钟", "15m"),
    ("30分钟", "30m"),
    ("60分钟", "1h"),
    ("240分钟", "4h"),
    ("日线", "1d"),
    ("周线", "1w"),
    ("月线", "1M"),
];

/// What a name stands for: what the Chinese names stand for, and any other
/// name for itself. The Chinese names from `k` on are looked through.
pub open spec fn plain_name(name: Seq<char>, k: int) -> Seq<char>
    decreases CN_MAP@.len() - k,
{
    if k >= CN_MAP@.len() {
        name
    } else if CN_MAP@[k].0@ == name {
        CN_MAP@[k].1@
    } else {
        plain_name(name, k + 1)
    }
}

/// The first length from `k` on with a name, case and all.
pub open spec fn spelled_from(name: Seq<char>, k: int) -> Option<Freq>
    decreases FREQ_MAP@.len() - k,
{
    if k >= FREQ_MAP@.len() {
        None
    } else if FREQ_MAP@[k].0@ == name {
        Some(FREQ_MAP@[k].1)
    } else {
        spelled_from(name, k + 1)
    }
}

/// The first length from `k` on that a name is that of, whatever its case.
pub open spec fn named_from(name: Seq<char>, k: int) -> Option<Freq>
    decreases FREQ_MAP@.len() - k,
{
    if k >= FREQ_MAP@.len() {
        None
    } else if same_but_case(FREQ_MAP@[k].0@, name) {
        Some(FREQ_MAP@[k].1)
    } else {
        named_from(name, k + 1)
    }
}

/// Whether a name is a number of minutes.
pub open spec fn counts_minutes(name: Seq<char>, number: int) -> bool {
    name.len() > 0 && name.last() == 'm' && integer_of(name.drop_last()) == Some(number)
}

/// The first length from `k` on that is a number of minutes.
pub open spec fn minutes_from(number: int, k: int) -> Option<Freq>
    decreases FREQ_MAP@.len() - k,
{
    if k >= FREQ_MAP@.len() {
        None
    } else if counts_minutes(FREQ_MAP@[k].0@, number) {
        Some(FREQ_MAP@[k].1)
    } else {
        minutes_from(number, k + 1)
    }
}

/// The length that a name stands for, of which the lower case is given too:
/// the length of that name, case and all, as a month and a minute differ in
/// nothing else; or else whatever its case; or else as a number of minutes.
pub open spec fn freq_of(name: Seq<char>, low: Seq<char>) -> Option<Freq> {
    if spelled_from(name, 0) is Some {
        spelled_from(name, 0)
    } else if named_from(low, 0) is Some {
        named_from(low, 0)
    } else {
        match integer_of(name) {
            Some(number) => minutes_from(number, 0),
            None => None,
        }
    }
}

/// What a name stands for.
fn to_plain_name(name: &str) -> (plain: String)
    ensures
        plain@ == plain_name(name@, 0),
{
    let mut k: usize = 0;
    while k < 9
        invariant
            k <= 9,
            plain_name(name@, 0) == plain_name(name@, k as int),
        decreases 9 - k,
    {
        let (chinese, english) = CN_MAP[k];
        if same(chinese, name) {
            return english.to_owned();
        }
        k += 1;
    }
    name.to_owned()
}

fn find_spelled(name: &str) -> (found: Option<Freq>)
    ensures
        found == spelled_from(name@, 0),
{
    let mut k: usize = 0;
    while k < 18
        invariant
            k <= 18,
            spelled_from(name@, 0) == spelled_from(name@, k as int),
        decreases 18 - k,
    {
        let (key, freq) = FREQ_MAP[k];
        if same(key, name) {
            return Some(freq);
        }
        k += 1;
    }
    None
}

fn find_named(name: &str) -> (found: Option<Freq>)
    ensures
        found == named_from(name@, 0),
{
    let chars = characters(name);
    let mut k: usize = 0;
    while k < 18
        invariant
            k <= 18,
            chars@ == name@,
            named_from(name@, 0) == named_from(name@, k as int),
        decreases 18 - k,
    {
        let (key, freq) = FREQ_MAP[k];
        let letters = characters(key);
        if same_ignoring_case(letters.as_slice(), chars.as_slice()) {
            return Some(freq);
        }
        k += 1;
    }
    None
}

fn find_minutes(number: i32) -> (found: Option<Freq>)
    ensures
        found == minutes_from(number as int, 0),
{
    let mut k: usize = 0;
    while k < 18
        invariant
            k <= 18,
            minutes_from(number as int, 0) == minutes_from(number as int, k as int),
        decreases 18 - k,
    {
        let (key, freq) = FREQ_MAP[k];
        let letters = characters(key);
        if letters.len() > 0 && letters[letters.len() - 1] == 'm' {
            let digits = vstd::slice::slice_subrange(letters.as_slice(), 0, letters.len() - 1);
            assert(digits@ =~= key@.drop_last());
            if let Some(n) = parse_integer(digits) {
                if n == number {
                    return Some(freq);
                }
            }
        }
        k += 1;
    }
    None
}

/// The length that a name stands for, of which the lower case is given too.
pub fn find_freq(name: &str, low: &str) -> (found: Option<Freq>)
    ensures
        found == freq_of(name@, low@),
{
    if let Some(freq) = find_spelled(name) {
        return Some(freq);
    }
    if let Some(freq) = find_named(low) {
        return Some(freq);
    }
    let chars = characters(name);
    match parse_integer(chars.as_slice()) {
        Some(number) => find_minutes(number),
        None => None,
    }
}

/// A text that names no length.
#[derive(Debug)]
pub struct UnsupportedFreq {
    pub message: String,
}

/// Reads the length of bars: a Chinese name, an English name, whose case
/// matters only between a minute and a month, or a number of minutes.
pub fn parse_freq(text: &str) -> (freq: Result<Freq, UnsupportedFreq>)
    ensures
        ({
            let name = plain_name(trimmed(text@), 0);
            &&& all_ascii(name) ==> lowercase(name) == ascii_lowered(name)
            &&& match freq {
                Ok(f) => freq_of(name, lowercase(name)) == Some(f),
                Err(e) => {
                    &&& freq_of(name, lowercase(name)) is None
                    &&& e.message@ == "不支持的时间周期: "@ + lowercase(name)
                        + "，支持格式: 1m/5m/15m/30m/1h/4h/1d/1w/1M/日线/周线 等"@
                },
            }
        }),
{
    let name = to_plain_name(trim(text));
    let low = lower(name.as_str());
    match find_freq(name.as_str(), low.as_str()) {
        Some(f) => Ok(f),
        None => {
            let mut message: String = "不支持的时间周期: ".to_owned();
            message.append(low.as_str());
            message.append("，支持格式: 1m/5m/15m/30m/1h/4h/1d/1w/1M/日线/周线 等");
            Err(UnsupportedFreq { message })
        },
    }
}

/// The letters of the names, each in lower case.
spec fn key_letters(k: int) -> Seq<char> {
    seq![
        seq!['t', 'i', 'c', 'k'],
        seq!['1', 'm'],
        seq!['5', 'm'],
        seq!['1', '5', 'm'],
        seq!['3', '0', 'm'],
        seq!['6', '0', 'm'],
        seq!['1', 'h'],
        seq!['1', '2', '0', 'm'],
        seq!['2', 'h'],
        seq!['2', '4', '0', 'm'],
        seq!['4', 'h'],
        seq!['3', '6', '0', 'm'],
        seq!['6', 'h'],
        seq!['1', 'd'],
        seq!['1', 'w'],
        seq!['1', 'm'],
        seq!['1', 's'],
        seq!['1', 'y'],
    ][k]
}

proof fn lemma_keys(k: int)
    requires
        0 <= k < 18,
    ensures
        ascii_lowered(FREQ_MAP@[k].0@) == key_letters(k),
{
    reveal_strlit("Tick");
    reveal_strlit("1m");
    reveal_strlit("5m");
    reveal_strlit("15m");
    reveal_strlit("30m");
    reveal_strlit("60m");
    reveal_strlit("1h");
    reveal_strlit("120m");
    reveal_strlit("2h");
    reveal_strlit("240m");
    reveal_strlit("4h");
    reveal_strlit("360m");
    reveal_strlit("6h");
    reveal_strlit("1d");
    reveal_strlit("1w");
    reveal_strlit("1M");
    reveal_strlit("1S");
    reveal_strlit("1Y");
    assert(ascii_lowered(FREQ_MAP@[k].0@) =~= key_letters(k));
}

proof fn lemma_keys_differ(j: int, k: int)
    requires
        0 <= j < k < 18,
        !(j == 1 && k == 15),
    ensures
        key_letters(j) != key_letters(k),
{
    let a = key_letters(j);
    let b = key_letters(k);
    if a == b {
        assert(a.len() == b.len());
        assert(a[0] == b[0] && a[1] == b[1]);
        assert(a.len() >= 3 ==> a[2] == b[2]);
    }
}

proof fn lemma_same_but_case(a: Seq<char>, b: Seq<char>)
    ensures
        same_but_case(a, b) <==> ascii_lowered(a) == ascii_lowered(b),
{
    if ascii_lowered(a) == ascii_lowered(b) {
        assert(ascii_lowered(a).len() == a.len() && ascii_lowered(b).len() == b.len());
        assert forall|i: int| 0 <= i < a.len() implies ascii_lower(#[trigger] a[i]) == ascii_lower(
            b[i],
        ) by {
            assert(ascii_lowered(a)[i] == ascii_lowered(b)[i]);
        }
    } else if same_but_case(a, b) {
        assert(ascii_lowered(a) =~= ascii_lowered(b));
    }
}

proof fn lemma_spelled_is_named(name: Seq<char>, low: Seq<char>, k: int)
    requires
        0 <= k,
        same_but_case(name, low),
        ascii_lowered(name) != key_letters(1),
        spelled_from(name, k) is Some,
    ensures
        named_from(low, k) == spelled_from(name, k),
    decreases 18 - k,
{
    lemma_same_but_case(name, low);
    if k < 18 {
        let key = FREQ_MAP@[k].0@;
        lemma_same_but_case(key, low);
        lemma_keys(k);
        if key != name {
            lemma_spelled_is_named(name, low, k + 1);
            if same_but_case(key, low) {
                let j = lemma_spelled_place(name, k + 1);
                lemma_keys(j);
                lemma_keys_differ(k, j);
            }
        }
    }
}

proof fn lemma_spelled_place(name: Seq<char>, k: int) -> (j: int)
    requires
        0 <= k,
        spelled_from(name, k) is Some,
    ensures
        k <= j < 18,
        FREQ_MAP@[j].0@ == name,
    decreases 18 - k,
{
    if FREQ_MAP@[k].0@ == name {
        k
    } else {
        lemma_spelled_place(name, k + 1)
    }
}

proof fn lemma_names_without_case(a: Seq<char>, b: Seq<char>, k: int)
    requires
        same_but_case(a, b),
        0 <= k,
    ensures
        named_from(a, k) == named_from(b, k),
    decreases 18 - k,
{
    lemma_same_but_case(a, b);
    if k < 18 {
        lemma_same_but_case(FREQ_MAP@[k].0@, a);
        lemma_same_but_case(FREQ_MAP@[k].0@, b);
        lemma_names_without_case(a, b, k + 1);
    }
}

proof fn lemma_numeral_without_case(a: Seq<char>, b: Seq<char>)
    requires
        same_but_case(a, b),
        integer_of(a) is Some,
    ensures
        a == b,
{
    let digits = unsigned_part(a);
    assert forall|i: int| 0 <= i < a.len() implies a[i] == b[i] by {
        assert(ascii_lower(a[i]) == ascii_lower(b[i]));
        if digits.len() == a.len() {
            assert(is_digit(digits[i]));
        } else if i > 0 {
            assert(is_digit(digits[i - 1]));
            assert(digits[i - 1] == a[i]);
        }
    }
    assert(a =~= b);
}

/// The case of a name's ASCII letters does not matter, but for that of a
/// minute and a month.
pub proof fn law_case_does_not_matter(a: Seq<char>, b: Seq<char>)
    requires
        same_but_case(a, b),
        !same_but_case(a, "1m"@),
    ensures
        freq_of(a, ascii_lowered(a)) == freq_of(b, ascii_lowered(b)),
{
    let low = ascii_lowered(a);
    lemma_same_but_case(a, b);
    lemma_same_but_case(a, "1m"@);
    lemma_keys(1);
    assert(ascii_lowered(low) =~= low);
    lemma_same_but_case(a, low);
    lemma_same_but_case(b, low);
    if spelled_from(a, 0) is Some {
        lemma_spelled_is_named(a, low, 0);
    }
    if spelled_from(b, 0) is Some {
        lemma_spelled_is_named(b, low, 0);
    }
    if integer_of(a) is Some {
        lemma_numeral_without_case(a, b);
    } else if integer_of(b) is Some {
        lemma_same_but_case(b, a);
        lemma_numeral_without_case(b, a);
    }
}

proof fn lemma_spelled_at(k: int, from: int)
    requires
        0 <= from <= k < 18,
    ensures
        spelled_from(FREQ_MAP@[k].0@, from) == Some(FREQ_MAP@[k].1),
    decreases k - from,
{
    if from < k {
        lemma_keys(from);
        lemma_keys(k);
        if from == 1 && k == 15 {
            reveal_strlit("1m");
            reveal_strlit("1M");
            assert("1m"@[1] != "1M"@[1]);
        } else {
            lemma_keys_differ(from, k);
        }
        lemma_spelled_at(k, from + 1);
    }
}

/// Every name of the table, spelled as there, is read as its length: a month as
/// a month and a minute as a minute.
pub proof fn law_names_are_read_as_spelled(k: int, low: Seq<char>)
    requires
        0 <= k < FREQ_MAP@.len(),
    ensures
        freq_of(FREQ_MAP@[k].0@, low) == Some(FREQ_MAP@[k].1),
{
    lemma_spelled_at(k, 0);
}

proof fn lemma_chinese_letters(k: int)
    requires
        0 <= k < 9,
    ensures
        CN_MAP@[k].0@.len() == seq![3int, 3, 4, 4, 4, 5, 2, 2, 2][k],
        CN_MAP@[k].0@[0] == seq!['1', '5', '1', '3', '6', '2', '日', '周', '月'][k],
{
    reveal_strlit("1分钟");
    reveal_strlit("5分钟");
    reveal_strlit("15分钟");
    reveal_strlit("30分钟");
    reveal_strlit("60分钟");
    reveal_strlit("240分钟");
    reveal_strlit("日线");
    reveal_strlit("周线");
    reveal_strlit("月线");
}

proof fn lemma_chinese_at(k: int, from: int)
    requires
        0 <= from <= k < 9,
    ensures
        plain_name(CN_MAP@[k].0@, from) == CN_MAP@[k].1@,
    decreases k - from,
{
    if from < k {
        lemma_chinese_letters(from);
        lemma_chinese_letters(k);
        lemma_chinese_at(k, from + 1);
    }
}

/// Every Chinese name stands for the English name beside it.
pub proof fn law_chinese_names_stand_for_english_ones(k: int)
    requires
        0 <= k < CN_MAP@.len(),
    ensures
        plain_name(CN_MAP@[k].0@, 0) == CN_MAP@[k].1@,
{
    lemma_chinese_at(k, 0);
}

proof fn lemma_spelled_reason(name: Seq<char>, from: int)
    requires
        0 <= from,
    ensures
        spelled_from(name, from) is Some ==> exists|k: int|
            from <= k < 18 && (#[trigger] FREQ_MAP@[k]).0@ == name && spelled_from(name, from)
                == Some(FREQ_MAP@[k].1),
    decreases 18 - from,
{
    if from < 18 && FREQ_MAP@[from].0@ != name {
        lemma_spelled_reason(name, from + 1);
    }
}

proof fn lemma_named_reason(name: Seq<char>, from: int)
    requires
        0 <= from,
    ensures
        named_from(name, from) is Some ==> exists|k: int|
            from <= k < 18 && same_but_case((#[trigger] FREQ_MAP@[k]).0@, name) && named_from(
                name,
                from,
            ) == Some(FREQ_MAP@[k].1),
        named_from(name, from) is None ==> forall|k: int|
            from <= k < 18 ==> !same_but_case((#[trigger] FREQ_MAP@[k]).0@, name),
    decreases 18 - from,
{
    if from < 18 && !same_but_case(FREQ_MAP@[from].0@, name) {
        lemma_named_reason(name, from + 1);
    }
}

proof fn lemma_minutes_reason(number: int, from: int)
    requires
        0 <= from,
    ensures
        minutes_from(number, from) is Some ==> exists|k: int|
            from <= k < 18 && counts_minutes((#[trigger] FREQ_MAP@[k]).0@, number) && minutes_from(
                number,
                from,
            ) == Some(FREQ_MAP@[k].1),
        minutes_from(number, from) is None ==> forall|k: int|
            from <= k < 18 ==> !counts_minutes((#[trigger] FREQ_MAP@[k]).0@, number),
    decreases 18 - from,
{
    if from < 18 && !counts_minutes(FREQ_MAP@[from].0@, number) {
        lemma_minutes_reason(number, from + 1);
    }
}

/// A name that stands for a length does so by an entry of the table: by its
/// spelling, by its letters whatever their case, or as the number before the
/// letter of the minutes.
pub proof fn law_every_length_has_an_entry(name: Seq<char>, low: Seq<char>)
    ensures
        freq_of(name, low) is Some ==> exists|k: int|
            0 <= k < 18 && freq_of(name, low) == Some((#[trigger] FREQ_MAP@[k]).1) && (
            FREQ_MAP@[k].0@ == name || same_but_case(FREQ_MAP@[k].0@, low) || (integer_of(
                name,
            ) is Some && FREQ_MAP@[k].0@.len() > 0 && FREQ_MAP@[k].0@.last() == 'm' && integer_of(
                FREQ_MAP@[k].0@.drop_last(),
            ) == integer_of(name))),
        freq_of(name, low) is None ==> forall|k: int|
            0 <= k < 18 ==> !same_but_case((#[trigger] FREQ_MAP@[k]).0@, low) && !(integer_of(
                name,
            ) is Some && FREQ_MAP@[k].0@.len() > 0 && FREQ_MAP@[k].0@.last() == 'm' && integer_of(
                FREQ_MAP@[k].0@.drop_last(),
            ) == integer_of(name)),
{
    lemma_spelled_reason(name, 0);
    lemma_named_reason(low, 0);
    if integer_of(name) is Some {
        lemma_minutes_reason(integer_of(name)->0, 0);
    }
}

proof fn lemma_plain_names(name: Seq<char>, from: int)
    requires
        0 <= from,
        forall|k: int| from <= k < 9 ==> (#[trigger] CN_MAP@[k]).0@ != name,
    ensures
        plain_name(name, from) == name,
    decreases 9 - from,
{
    if from < 9 {
        assert(CN_MAP@[from].0@ != name);
        lemma_plain_names(name, from + 1);
    }
}

/// A name that is none of the Chinese ones stands for itself.
pub proof fn law_other_names_stand_for_themselves(name: Seq<char>)
    requires
        forall|k: int| 0 <= k < 9 ==> (#[trigger] CN_MAP@[k]).0@ != name,
    ensures
        plain_name(name, 0) == name,
{
    lemma_plain_names(name, 0);
}

} // verus!
