//! Text: trimming, case, numerals and lists.
use vstd::prelude::*;
use vstd::string::StringExecFns;

verus! {

/// A character of Unicode's `White_Space` property.
pub open spec fn white_space(c: char) -> bool {
    let u = c as u32;
    ||| 0x9 <= u <= 0xd
    ||| u == 0x20
    ||| u == 0x85
    ||| u == 0xa0
    ||| u == 0x1680
    ||| 0x2000 <= u <= 0x200a
    ||| u == 0x2028
    ||| u == 0x2029
    ||| u == 0x202f
    ||| u == 0x205f
    ||| u == 0x3000
}

/// A text without the white space at its front.
pub open spec fn trimmed_front(text: Seq<char>) -> Seq<char>
    decreases text.len(),
{
    if text.len() > 0 && white_space(text.first()) {
        trimmed_front(text.drop_first())
    } else {
        text
    }
}

/// A text without the white space at its back.
pub open spec fn trimmed_back(text: Seq<char>) -> Seq<char>
    decreases text.len(),
{
    if text.len() > 0 && white_space(text.last()) {
        trimmed_back(text.drop_last())
    } else {
        text
    }
}

/// A text without the white space around it.
pub open spec fn trimmed(text: Seq<char>) -> Seq<char> {
    trimmed_back(trimmed_front(text))
}

proof fn lemma_trimmed_front(text: Seq<char>)
    ensures
        trimmed_front(text).len() > 0 ==> !white_space(trimmed_front(text).first()),
        text.len() == 0 || !white_space(text.first()) ==> trimmed_front(text) == text,
    decreases text.len(),
{
    if text.len() > 0 && white_space(text.first()) {
        lemma_trimmed_front(text.drop_first());
    }
}

proof fn lemma_trimmed_back(text: Seq<char>)
    ensures
        trimmed_back(text).len() > 0 ==> !white_space(trimmed_back(text).last()),
        trimmed_back(text).len() > 0 ==> trimmed_back(text).first() == text.first(),
        text.len() == 0 || !white_space(text.last()) ==> trimmed_back(text) == text,
    decreases text.len(),
{
    if text.len() > 0 && white_space(text.last()) {
        lemma_trimmed_back(text.drop_last());
    }
}

/// A trimmed text has nothing to trim, and neither has a text that begins and
/// ends with what is not white space.
pub proof fn law_trimmed_stays(text: Seq<char>)
    ensures
        trimmed(trimmed(text)) == trimmed(text),
        text.len() > 0 && !white_space(text.first()) && !white_space(text.last()) ==> trimmed(text)
            == text,
{
    lemma_trimmed_front(text);
    lemma_trimmed_back(trimmed_front(text));
    lemma_trimmed_front(trimmed(text));
    lemma_trimmed_back(trimmed(text));
}

/// `str::trim`: the text without leading and trailing white space, which is
/// what has Unicode's `White_Space` property.
#[verifier::external_body]
pub(crate) fn trim<'a>(text: &'a str) -> (inner: &'a str)
    ensures
        inner@ == trimmed(text@),
{
    text.trim()
}

/// A letter of the ASCII range in lower case; any other character as it is.
pub open spec fn ascii_lower(c: char) -> char {
    if 'A' <= c <= 'Z' {
        (c as u32 + 32) as char
    } else {
        c
    }
}

/// Whether every character is within ASCII.
pub open spec fn all_ascii(text: Seq<char>) -> bool {
    forall|i: int| 0 <= i < text.len() ==> (#[trigger] text[i] as u32) < 128
}

/// A text with its ASCII letters in lower case.
pub open spec fn ascii_lowered(text: Seq<char>) -> Seq<char> {
    Seq::new(text.len(), |i: int| ascii_lower(text[i]))
}

/// What `str::to_lowercase` makes of a text.
pub uninterp spec fn lowercase(text: Seq<char>) -> Seq<char>;

/// `str::to_lowercase`: a function of the text alone. Of a text within ASCII
/// it changes the letters `A` to `Z` and nothing else.
#[verifier::external_body]
pub(crate) fn lower(text: &str) -> (low: String)
    ensures
        low@ == lowercase(text@),
        all_ascii(text@) ==> low@ == ascii_lowered(text@),
{
    text.to_lowercase()
}

/// Whether `part` stands somewhere in `text`.
pub open spec fn has_part(text: Seq<char>, part: Seq<char>) -> bool {
    exists|i: int|
        0 <= i <= text.len() - part.len() && #[trigger] text.subrange(i, i + part.len()) == part
}

fn stands_at(text: &[char], part: &[char], at: usize) -> (yes: bool)
    requires
        at + part@.len() <= text@.len(),
    ensures
        yes == (text@.subrange(at as int, at + part@.len()) == part@),
{
    let n: usize = text.len();
    let mut j: usize = 0;
    while j < part.len()
        invariant
            j <= part@.len(),
            at + part@.len() <= text@.len(),
            n == text@.len(),
            forall|k: int| 0 <= k < j ==> text@[at + k] == #[trigger] part@[k],
        decreases part@.len() - j,
    {
        if text[at + j] != part[j] {
            assert(text@.subrange(at as int, at + part@.len())[j as int] != part@[j as int]);
            return false;
        }
        j += 1;
    }
    assert(text@.subrange(at as int, at + part@.len()) =~= part@);
    true
}

/// Whether a text stands somewhere in another.
pub fn contains(text: &str, part: &str) -> (yes: bool)
    ensures
        yes == has_part(text@, part@),
{
    let chars = characters(text);
    let wanted = characters(part);
    if wanted.len() > chars.len() {
        return false;
    }
    let mut i: usize = 0;
    while i <= chars.len() - wanted.len()
        invariant
            i <= chars@.len() - wanted@.len() + 1,
            chars@ == text@,
            wanted@ == part@,
            wanted@.len() <= chars@.len() <= usize::MAX,
            forall|k: int|
                0 <= k < i ==> #[trigger] text@.subrange(k, k + part@.len()) != part@,
        decreases chars@.len() + 1 - i,
    {
        if stands_at(chars.as_slice(), wanted.as_slice(), i) {
            return true;
        }
        if i == chars.len() - wanted.len() {
            return false;
        }
        i += 1;
    }
    false
}

/// Whether two texts are the same.
pub fn same(a: &str, b: &str) -> (yes: bool)
    ensures
        yes == (a@ == b@),
{
    a.to_owned() == b.to_owned()
}

/// The characters of a text.
pub fn characters(text: &str) -> (chars: Vec<char>)
    ensures
        chars@ == text@,
{
    let mut chars: Vec<char> = Vec::new();
    for c in it: text.chars()
        invariant
            it.seq() == text@,
            chars@ == text@.take(it.index()),
    {
        chars.push(c);
    }
    assert(text@.take(text@.len() as int) =~= text@);
    chars
}

/// An ASCII digit.
pub open spec fn is_digit(c: char) -> bool {
    '0' <= c <= '9'
}

/// What a digit counts.
pub open spec fn digit_value(c: char) -> int {
    c as int - '0' as int
}

/// Whether every character is an ASCII digit.
pub open spec fn all_digits(text: Seq<char>) -> bool {
    forall|i: int| 0 <= i < text.len() ==> is_digit(#[trigger] text[i])
}

/// What a run of digits counts.
pub open spec fn digits_value(text: Seq<char>) -> int
    decreases text.len(),
{
    if text.len() == 0 {
        0
    } else {
        10 * digits_value(text.drop_last()) + digit_value(text.last())
    }
}

/// Ten to the power of a number.
pub open spec fn ten_to(n: nat) -> int
    decreases n,
{
    if n == 0 {
        1
    } else {
        10 * ten_to((n - 1) as nat)
    }
}

pub proof fn lemma_digits_bound(text: Seq<char>)
    requires
        all_digits(text),
    ensures
        0 <= digits_value(text) < ten_to(text.len()),
    decreases text.len(),
{
    if text.len() > 0 {
        assert(is_digit(text[text.len() - 1]));
        assert forall|i: int| 0 <= i < text.drop_last().len() implies is_digit(
            #[trigger] text.drop_last()[i],
        ) by {
            assert(is_digit(text[i]));
        }
        lemma_digits_bound(text.drop_last());
    }
}

/// Whether every character is an ASCII digit.
pub fn are_digits(chars: &[char]) -> (yes: bool)
    ensures
        yes == all_digits(chars@),
{
    let mut i: usize = 0;
    while i < chars.len()
        invariant
            i <= chars@.len(),
            forall|j: int| 0 <= j < i ==> is_digit(#[trigger] chars@[j]),
        decreases chars@.len() - i,
    {
        let c = chars[i];
        if !('0' <= c && c <= '9') {
            assert(!is_digit(chars@[i as int]));
            return false;
        }
        i += 1;
    }
    true
}

/// What a run of at most eighteen digits counts.
pub fn read_digits(chars: &[char]) -> (value: i64)
    requires
        chars@.len() <= 18,
        all_digits(chars@),
    ensures
        value == digits_value(chars@),
{
    let mut value: i64 = 0;
    let mut i: usize = 0;
    assert(chars@.take(0) =~= Seq::empty());
    while i < chars.len()
        invariant
            i <= chars@.len() <= 18,
            all_digits(chars@),
            value == digits_value(chars@.take(i as int)),
        decreases chars@.len() - i,
    {
        assert(is_digit(chars@[i as int]));
        let ghost next = chars@.take(i + 1);
        proof {
            assert(next.drop_last() =~= chars@.take(i as int));
            assert(next.last() == chars@[i as int]);
            assert forall|j: int| 0 <= j < next.drop_last().len() implies is_digit(
                #[trigger] next.drop_last()[j],
            ) by {
                assert(is_digit(chars@[j]));
            }
            lemma_digits_bound(next.drop_last());
            lemma_ten_to_18(i as nat);
        }
        let digit: i64 = (chars[i] as u32 - '0' as u32) as i64;
        value = 10 * value + digit;
        i += 1;
    }
    assert(chars@.take(chars@.len() as int) =~= chars@);
    value
}

proof fn lemma_ten_to_18(n: nat)
    requires
        n < 18,
    ensures
        ten_to(n) <= 100_000_000_000_000_000,
{
    reveal_with_fuel(ten_to, 19);
}

/// The digits of a numeral, without its sign.
pub open spec fn unsigned_part(text: Seq<char>) -> Seq<char> {
    if text.len() > 0 && (text[0] == '+' || text[0] == '-') {
        text.skip(1)
    } else {
        text
    }
}

/// The number that a numeral without its sign counts, with the sign put back.
pub open spec fn signed_value(text: Seq<char>) -> int {
    if text.len() > 0 && text[0] == '-' {
        -digits_value(unsigned_part(text))
    } else {
        digits_value(unsigned_part(text))
    }
}

/// The number that a text writes: digits with or without a sign before them,
/// where the number fits in 32 bits.
pub open spec fn integer_of(text: Seq<char>) -> Option<int> {
    let digits = unsigned_part(text);
    if digits.len() > 0 && all_digits(digits) && i32::MIN <= signed_value(text) <= i32::MAX {
        Some(signed_value(text))
    } else {
        None
    }
}

proof fn lemma_digits_grow(text: Seq<char>, i: int)
    requires
        all_digits(text),
        0 <= i <= text.len(),
    ensures
        digits_value(text.take(i)) <= digits_value(text),
        0 <= digits_value(text.take(i)),
    decreases text.len() - i,
{
    assert forall|j: int| 0 <= j < text.take(i).len() implies is_digit(
        #[trigger] text.take(i)[j],
    ) by {
        assert(is_digit(text[j]));
    }
    lemma_digits_bound(text.take(i));
    if i < text.len() {
        lemma_digits_grow(text, i + 1);
        assert(text.take(i + 1).drop_last() =~= text.take(i));
        assert(is_digit(text[i]));
        assert(text.take(i + 1).last() == text[i]);
    } else {
        assert(text.take(i) =~= text);
    }
}

/// What a run of digits counts, or nothing where that is more than a bound of
/// 32 bits.
fn read_bounded(chars: &[char], bound: u32) -> (value: Option<i64>)
    requires
        all_digits(chars@),
    ensures
        match value {
            Some(v) => v == digits_value(chars@) && 0 <= v <= bound,
            None => digits_value(chars@) > bound,
        },
{
    let mut value: i64 = 0;
    let mut i: usize = 0;
    assert(chars@.take(0) =~= Seq::empty());
    while i < chars.len()
        invariant
            i <= chars@.len(),
            all_digits(chars@),
            0 <= value <= bound,
            value == digits_value(chars@.take(i as int)),
        decreases chars@.len() - i,
    {
        assert(is_digit(chars@[i as int]));
        proof {
            assert(chars@.take(i + 1).drop_last() =~= chars@.take(i as int));
            assert(chars@.take(i + 1).last() == chars@[i as int]);
            lemma_digits_grow(chars@, i + 1);
        }
        let digit: i64 = (chars[i] as u32 - '0' as u32) as i64;
        value = 10 * value + digit;
        if value > bound as i64 {
            return None;
        }
        i += 1;
    }
    assert(chars@.take(chars@.len() as int) =~= chars@);
    Some(value)
}

/// Reads an integer of 32 bits.
pub fn parse_integer(chars: &[char]) -> (value: Option<i32>)
    ensures
        match value {
            Some(v) => integer_of(chars@) == Some(v as int),
            None => integer_of(chars@) is None,
        },
{
    let signed = chars.len() > 0 && (chars[0] == '+' || chars[0] == '-');
    let negative = chars.len() > 0 && chars[0] == '-';
    let start: usize = if signed { 1 } else { 0 };
    let digits = vstd::slice::slice_subrange(chars, start, chars.len());
    assert(digits@ =~= unsigned_part(chars@));
    if digits.len() == 0 || !are_digits(digits) {
        return None;
    }
    if negative {
        match read_bounded(digits, 2_147_483_648) {
            Some(v) => Some((-v) as i32),
            None => None,
        }
    } else {
        match read_bounded(digits, 2_147_483_647) {
            Some(v) => Some(v as i32),
            None => None,
        }
    }
}

/// Whether two texts are the same but for the case of their ASCII letters.
pub open spec fn same_but_case(a: Seq<char>, b: Seq<char>) -> bool {
    a.len() == b.len() && forall|i: int|
        0 <= i < a.len() ==> ascii_lower(#[trigger] a[i]) == ascii_lower(b[i])
}

fn to_ascii_lower(c: char) -> (low: char)
    ensures
        low == ascii_lower(c),
{
    if 'A' <= c && c <= 'Z' {
        ((c as u8) + 32) as char
    } else {
        c
    }
}

/// Whether two texts are the same but for the case of their ASCII letters.
pub fn same_ignoring_case(a: &[char], b: &[char]) -> (yes: bool)
    ensures
        yes == same_but_case(a@, b@),
{
    if a.len() != b.len() {
        return false;
    }
    let mut i: usize = 0;
    while i < a.len()
        invariant
            i <= a@.len() == b@.len(),
            forall|j: int| 0 <= j < i ==> ascii_lower(#[trigger] a@[j]) == ascii_lower(b@[j]),
        decreases a@.len() - i,
    {
        if to_ascii_lower(a[i]) != to_ascii_lower(b[i]) {
            assert(ascii_lower(a@[i as int]) != ascii_lower(b@[i as int]));
            return false;
        }
        i += 1;
    }
    true
}

/// The texts of a list with a separator between each two.
pub open spec fn joined(parts: Seq<Seq<char>>, separator: Seq<char>) -> Seq<char>
    decreases parts.len(),
{
    if parts.len() == 0 {
        Seq::empty()
    } else if parts.len() == 1 {
        parts[0]
    } else {
        joined(parts.drop_last(), separator) + separator + parts.last()
    }
}

/// The texts that a list of strings holds.
pub open spec fn texts(list: Seq<String>) -> Seq<Seq<char>> {
    Seq::new(list.len(), |i: int| list[i]@)
}

/// The texts of a list of literals.
pub open spec fn names(list: Seq<&str>) -> Seq<Seq<char>> {
    Seq::new(list.len(), |i: int| list[i]@)
}

/// Joins the strings of a list.
pub fn join(parts: &[String], separator: &str) -> (whole: String)
    ensures
        whole@ == joined(texts(parts@), separator@),
{
    let mut whole: String = String::new();
    let ghost all = texts(parts@);
    let mut i: usize = 0;
    while i < parts.len()
        invariant
            i <= parts@.len(),
            all == texts(parts@),
            whole@ == joined(all.take(i as int), separator@),
        decreases parts@.len() - i,
    {
        if i > 0 {
            whole.append(separator);
        }
        whole.append(parts[i].as_str());
        assert(all.take(i + 1).drop_last() =~= all.take(i as int));
        i += 1;
    }
    assert(all.take(all.len() as int) =~= all);
    whole
}

/// Joins the literals of a list.
pub fn join_names(parts: &[&str], separator: &str) -> (whole: String)
    ensures
        whole@ == joined(names(parts@), separator@),
{
    let mut whole: String = String::new();
    let ghost all = names(parts@);
    let mut i: usize = 0;
    while i < parts.len()
        invariant
            i <= parts@.len(),
            all == names(parts@),
            whole@ == joined(all.take(i as int), separator@),
        decreases parts@.len() - i,
    {
        if i > 0 {
            whole.append(separator);
        }
        whole.append(parts[i]);
        assert(all.take(i + 1).drop_last() =~= all.take(i as int));
        i += 1;
    }
    assert(all.take(all.len() as int) =~= all);
    whole
}

/// The character of a digit.
pub open spec fn digit_char(d: int) -> char {
    ('0' as int + d) as char
}

/// A number written in decimal.
pub open spec fn decimal(n: int) -> Seq<char>
    decreases n,
{
    if n < 10 {
        seq![digit_char(n)]
    } else {
        decimal(n / 10).push(digit_char(n % 10))
    }
}

/// A number is written in digits, and no two numbers are written the same.
pub proof fn law_decimals_are_distinct(a: int, b: int)
    requires
        0 <= a,
        0 <= b,
    ensures
        decimal(a).len() > 0,
        all_digits(decimal(a)),
        decimal(a) == decimal(b) ==> a == b,
    decreases a,
{
    if a >= 10 {
        law_decimals_are_distinct(a / 10, if b >= 10 { b / 10 } else { 0 });
        assert forall|i: int| 0 <= i < decimal(a).len() implies is_digit(
            #[trigger] decimal(a)[i],
        ) by {
            if i < decimal(a / 10).len() {
                assert(decimal(a)[i] == decimal(a / 10)[i]);
            }
        }
    }
    if decimal(a) == decimal(b) {
        assert(decimal(a).last() == digit_char(a % 10));
        if b < 10 {
            assert(decimal(b).len() == 1);
        } else {
            lemma_two_digits(b);
            assert(decimal(b).last() == digit_char(b % 10));
            if a >= 10 {
                assert(decimal(a).drop_last() =~= decimal(a / 10));
                assert(decimal(b).drop_last() =~= decimal(b / 10));
            }
        }
    }
}

/// A number from ten on has more than one digit.
pub proof fn lemma_two_digits(n: int)
    requires
        n >= 10,
    ensures
        decimal(n).len() >= 2,
    decreases n,
{
    if n / 10 >= 10 {
        lemma_two_digits(n / 10);
    } else {
        assert(decimal(n / 10).len() == 1);
    }
}

fn digit_text(d: usize) -> (text: &'static str)
    requires
        d < 10,
    ensures
        text@ == seq![digit_char(d as int)],
{
    proof {
        reveal_strlit("0");
        reveal_strlit("1");
        reveal_strlit("2");
        reveal_strlit("3");
        reveal_strlit("4");
        reveal_strlit("5");
        reveal_strlit("6");
        reveal_strlit("7");
        reveal_strlit("8");
        reveal_strlit("9");
    }
    match d {
        0 => "0",
        1 => "1",
        2 => "2",
        3 => "3",
        4 => "4",
        5 => "5",
        6 => "6",
        7 => "7",
        8 => "8",
        _ => "9",
    }
}

/// Writes a number in decimal.
pub fn write_decimal(n: usize) -> (text: String)
    ensures
        text@ == decimal(n as int),
    decreases n,
{
    if n < 10 {
        digit_text(n).to_owned()
    } else {
        let mut text: String = write_decimal(n / 10);
        text.append(digit_text(n % 10));
        assert(text@ =~= decimal(n as int));
        text
    }
}

/// A text stands in another if and only if the other is it with something before
/// it and something after it, each perhaps empty.
pub proof fn law_parts_stand_between(before: Seq<char>, part: Seq<char>, after: Seq<char>)
    ensures
        has_part(before + part + after, part),
{
    let text = before + part + after;
    let i = before.len() as int;
    assert(text.subrange(i, i + part.len()) =~= part);
}

/// A text that stands in another leaves something before it and something after
/// it.
pub proof fn law_a_part_has_a_place(text: Seq<char>, part: Seq<char>)
    requires
        has_part(text, part),
    ensures
        exists|before: Seq<char>, after: Seq<char>| text == #[trigger] (before + part + after),
{
    let i = choose|i: int|
        0 <= i <= text.len() - part.len() && #[trigger] text.subrange(i, i + part.len()) == part;
    let before = text.take(i);
    let after = text.skip(i + part.len());
    assert(text =~= before + part + after) by {
        assert forall|j: int| 0 <= j < text.len() implies text[j] == (before + part + after)[j] by {
            if i <= j < i + part.len() {
                assert(text.subrange(i, i + part.len())[j - i] == part[j - i]);
            }
        }
    }
}

proof fn lemma_front_is_white(text: Seq<char>)
    ensures
        trimmed_front(text).len() <= text.len(),
        trimmed_front(text) == text.skip(text.len() - trimmed_front(text).len()),
        forall|i: int|
            0 <= i < text.len() - trimmed_front(text).len() ==> white_space(#[trigger] text[i]),
    decreases text.len(),
{
    let inner = trimmed_front(text);
    if text.len() > 0 && white_space(text.first()) {
        let rest = text.drop_first();
        lemma_front_is_white(rest);
        assert(inner =~= text.skip(text.len() - inner.len()));
        assert forall|i: int| 0 <= i < text.len() - inner.len() implies white_space(
            #[trigger] text[i],
        ) by {
            if i > 0 {
                assert(white_space(rest[i - 1]));
            }
        }
    } else {
        assert(text.skip(0) =~= text);
    }
}

proof fn lemma_back_is_white(text: Seq<char>)
    ensures
        trimmed_back(text).len() <= text.len(),
        trimmed_back(text) == text.take(trimmed_back(text).len() as int),
        forall|i: int|
            trimmed_back(text).len() <= i < text.len() ==> white_space(#[trigger] text[i]),
    decreases text.len(),
{
    let inner = trimmed_back(text);
    if text.len() > 0 && white_space(text.last()) {
        let rest = text.drop_last();
        lemma_back_is_white(rest);
        assert(inner =~= text.take(inner.len() as int));
        assert forall|i: int| inner.len() <= i < text.len() implies white_space(
            #[trigger] text[i],
        ) by {
            if i < text.len() - 1 {
                assert(white_space(rest[i]));
            }
        }
    } else {
        assert(text.take(text.len() as int) =~= text);
    }
}

/// Trimming takes white space from both ends of a text and nothing else: what is
/// left stands in the text with white space around it, and neither begins nor
/// ends with any.
pub proof fn law_trimming_takes_white_space_alone(text: Seq<char>)
    ensures
        exists|a: int, b: int|
            0 <= a <= b <= text.len() && trimmed(text) == #[trigger] text.subrange(a, b) && (forall|
                i: int,
            |
                0 <= i < text.len() && !(a <= i < b) ==> white_space(#[trigger] text[i])),
        trimmed(text).len() > 0 ==> !white_space(trimmed(text).first()) && !white_space(
            trimmed(text).last(),
        ),
{
    let front = trimmed_front(text);
    let inner = trimmed(text);
    lemma_trimmed_front(text);
    lemma_trimmed_back(front);
    lemma_front_is_white(text);
    lemma_back_is_white(front);
    let a = text.len() - front.len();
    let b = a + inner.len();
    assert(inner =~= text.subrange(a, b));
    assert forall|i: int| 0 <= i < text.len() && !(a <= i < b) implies white_space(
        #[trigger] text[i],
    ) by {
        if i >= b {
            assert(front[i - a] == text[i]);
        }
    }
}

/// What a number is written as counts that number, in digits, and no more of
/// them than it needs.
pub proof fn law_decimals_count_their_number(n: int)
    requires
        0 <= n,
    ensures
        digits_value(decimal(n)) == n,
        all_digits(decimal(n)),
        n > 0 ==> decimal(n)[0] != '0',
        n == 0 ==> decimal(n) == seq!['0'],
    decreases n,
{
    law_decimals_are_distinct(n, n);
    if n >= 10 {
        law_decimals_count_their_number(n / 10);
        assert(decimal(n).drop_last() =~= decimal(n / 10));
        law_decimals_are_distinct(n / 10, n / 10);
        assert(decimal(n)[0] == decimal(n / 10)[0]);
    } else {
        assert(decimal(n).drop_last() =~= Seq::empty());
        assert(digits_value(decimal(n).drop_last()) == 0);
        if n == 0 {
            assert(decimal(n) =~= seq!['0']);
        }
    }
}

/// A digit more makes ten times the number and the digit.
pub proof fn law_digits_count_in_tens(digits: Seq<char>, d: int)
    requires
        0 <= d < 10,
    ensures
        digits_value(digits.push(digit_char(d))) == 10 * digits_value(digits) + d,
        digits_value(Seq::<char>::empty()) == 0,
        is_digit(digit_char(d)),
{
    assert(digits.push(digit_char(d)).drop_last() =~= digits);
}

/// An integer of 32 bits is read back as it was written, with or without its
/// sign.
pub proof fn law_integers_are_read_back(n: i32)
    ensures
        n >= 0 ==> integer_of(decimal(n as int)) == Some(n as int),
        n >= 0 ==> integer_of(seq!['+'] + decimal(n as int)) == Some(n as int),
        n <= 0 ==> integer_of(seq!['-'] + decimal(-n as int)) == Some(n as int),
{
    let size = if n < 0 { -n } else { n as int };
    let digits = decimal(size);
    law_decimals_count_their_number(size);
    law_decimals_are_distinct(size, size);
    assert(is_digit(digits[0]));
    assert((seq!['+'] + digits).skip(1) =~= digits);
    assert((seq!['-'] + digits).skip(1) =~= digits);
}

/// What is read as an integer of 32 bits is made of digits, at least one, after
/// at most one sign; it counts what the digits count, and fits.
pub proof fn law_only_digits_are_integers(text: Seq<char>, number: int)
    requires
        integer_of(text) == Some(number),
    ensures
        i32::MIN <= number <= i32::MAX,
        exists|sign: Seq<char>, digits: Seq<char>|
            text == #[trigger] (sign + digits) && digits.len() > 0 && all_digits(digits) && ((number
                == digits_value(digits) && (sign.len() == 0 || sign == seq!['+'])) || (number
                == -digits_value(digits) && sign == seq!['-'])),
{
    let digits = unsigned_part(text);
    let sign = if text[0] == '+' || text[0] == '-' {
        seq![text[0]]
    } else {
        Seq::empty()
    };
    assert(text =~= sign + digits);
}

/// Lists are joined piece by piece: one more part comes after a separator, one
/// alone stands as it is, and none gives nothing.
pub proof fn law_lists_are_joined_part_by_part(
    parts: Seq<Seq<char>>,
    separator: Seq<char>,
    more: Seq<char>,
)
    ensures
        joined(Seq::empty(), separator).len() == 0,
        joined(seq![more], separator) == more,
        parts.len() > 0 ==> joined(parts.push(more), separator) == joined(parts, separator)
            + separator + more,
{
    assert(parts.push(more).drop_last() =~= parts);
}

/// A text is the same as another but for case if and only if each letter is the
/// same, or one is a capital and the other the small letter of it, which stands
/// 32 places after it.
pub proof fn law_case_is_thirty_two_places(a: char, b: char)
    ensures
        ascii_lower(a) == ascii_lower(b) <==> a == b || ('A' <= a <= 'Z' && b as u32 == a as u32
            + 32) || ('A' <= b <= 'Z' && a as u32 == b as u32 + 32),
{
}

/// Digits after at most one sign are read as what they count, as long as that fits
/// in 32 bits, zeros before them or not; anything else is no integer.
pub proof fn law_digits_are_read_where_they_fit(digits: Seq<char>, text: Seq<char>)
    requires
        digits.len() > 0,
        all_digits(digits),
    ensures
        digits_value(digits) <= i32::MAX ==> integer_of(digits) == Some(digits_value(digits)),
        digits_value(digits) > i32::MAX ==> integer_of(digits) is None,
        digits_value(digits) <= 0x8000_0000 ==> integer_of(seq!['-'] + digits) == Some(
            -digits_value(digits),
        ),
        digits_value(digits) > 0x8000_0000 ==> integer_of(seq!['-'] + digits) is None,
        text.len() == 0 ==> integer_of(text) is None,
{
    lemma_digits_bound(digits);
    assert(is_digit(digits[0]));
    assert((seq!['-'] + digits).skip(1) =~= digits);
}

/// Two texts are the same but for case if and only if they are the same in lower
/// case.
pub proof fn law_case_alone_is_lowered(a: Seq<char>, b: Seq<char>)
    ensures
        same_but_case(a, b) <==> ascii_lowered(a) == ascii_lowered(b),
        ascii_lowered(a).len() == a.len(),
{
    if ascii_lowered(a) == ascii_lowered(b) {
        assert(ascii_lowered(a).len() == a.len() && ascii_lowered(b).len() == b.len());
        assert forall|i: int| 0 <= i < a.len() implies ascii_lower(#[trigger] a[i]) == ascii_lower(
            b[i],
        ) by {
            assert(ascii_lowered(a)[i] == ascii_lowered(b)[i]);
        }
    } else if same_but_case(a, b) {
        assert(ascii_lowered(a) =~= ascii_lowered(b));
    }
}

/// The ten digits follow one another from that of zero on, and count so many.
pub proof fn law_there_are_ten_digits(c: char)
    ensures
        is_digit(c) <==> 48 <= c as int <= 57,
        is_digit(c) ==> digit_value(c) == c as int - 48,
        is_digit(c) ==> digit_char(digit_value(c)) == c,
{
}

} // verus!
