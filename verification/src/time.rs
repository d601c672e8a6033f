//! Points in time and the ways in which a file may write them.
use crate::text::{
    all_digits, are_digits, characters, digits_value, is_digit, law_trimmed_stays,
    lemma_digits_bound, read_digits, ten_to, trim, trimmed,
};
use vstd::prelude::*;
use vstd::string::StringExecFns;

verus! {

/// The first second of the calendar, that of the year -262143.
pub const MIN_SECONDS: i64 = -8_334_601_228_800;

/// The last second of the calendar, that of the year 262142.
pub const MAX_SECONDS: i64 = 8_210_266_876_799;

/// A point in time: the seconds since the start of 1970 in UTC, and the
/// nanoseconds past the second. A leap second has a billion nanoseconds more
/// than the second before it.
#[derive(Clone, Copy, Debug, PartialEq, Eq, Structural)]
pub struct Timestamp {
    pub seconds: i64,
    pub nanos: u32,
}

impl Timestamp {
    /// Whether the calendar has this point.
    pub open spec fn valid(self) -> bool {
        &&& MIN_SECONDS <= self.seconds <= MAX_SECONDS
        &&& self.nanos < 2_000_000_000
        &&& self.nanos >= 1_000_000_000 ==> self.seconds % 60 == 59
    }

    /// Whether this point lies before another.
    pub open spec fn before(self, other: Timestamp) -> bool {
        self.seconds < other.seconds || (self.seconds == other.seconds && self.nanos < other.nanos)
    }

    /// Whether this point lies before another.
    pub fn is_before(self, other: Timestamp) -> (yes: bool)
        ensures
            yes == self.before(other),
    {
        self.seconds < other.seconds || (self.seconds == other.seconds && self.nanos < other.nanos)
    }
}

/// `chrono::DateTime::from_timestamp`: the point with these seconds and
/// nanoseconds, where the calendar has it.
#[verifier::external_body]
fn from_timestamp(seconds: i64, nanos: u32) -> (point: Option<Timestamp>)
    ensures
        point == (if (Timestamp { seconds, nanos }).valid() {
            Some(Timestamp { seconds, nanos })
        } else {
            None
        }),
{
    chrono::DateTime::from_timestamp(seconds, nanos).map(
        |t| Timestamp { seconds: t.timestamp(), nanos: t.timestamp_subsec_nanos() },
    )
}

/// What `chrono::DateTime::parse_from_rfc3339` reads from a text, in UTC.
pub uninterp spec fn rfc3339_time(text: Seq<char>) -> Option<Timestamp>;

/// `chrono::DateTime::parse_from_rfc3339`: the point that a text in that
/// format names, taken in UTC; nothing for a text in another format.
#[verifier::external_body]
fn parse_rfc3339(text: &str) -> (point: Option<Timestamp>)
    ensures
        point == rfc3339_time(text@),
        point matches Some(t) ==> t.valid(),
{
    chrono::DateTime::parse_from_rfc3339(text).ok().map(
        |t| Timestamp { seconds: t.timestamp(), nanos: t.timestamp_subsec_nanos() },
    )
}

/// What `chrono::NaiveDateTime::parse_from_str` reads from a text by a format,
/// taken as UTC.
pub uninterp spec fn naive_time(text: Seq<char>, format: Seq<char>) -> Option<Timestamp>;

/// `chrono::NaiveDateTime::parse_from_str`: the date and time that a text
/// holds in a format, taken as UTC; nothing for a text that does not fit.
#[verifier::external_body]
fn parse_naive(text: &str, format: &str) -> (point: Option<Timestamp>)
    ensures
        point == naive_time(text@, format@),
        point matches Some(t) ==> t.valid(),
{
    chrono::NaiveDateTime::parse_from_str(text, format).ok().map(
        |t| Timestamp {
            seconds: t.and_utc().timestamp(),
            nanos: t.and_utc().timestamp_subsec_nanos(),
        },
    )
}

/// What `chrono::NaiveDate::parse_from_str` reads from a text by a format: the
/// number of the day, where the first day of the year 1 is day 1.
pub uninterp spec fn naive_day(text: Seq<char>, format: Seq<char>) -> Option<i32>;

/// `chrono::NaiveDate::parse_from_str`: the date that a text holds in a
/// format, as chrono counts its day; nothing for a text that does not fit. A
/// date that chrono holds lies within its calendar.
#[verifier::external_body]
fn parse_day(text: &str, format: &str) -> (day: Option<i32>)
    ensures
        day == naive_day(text@, format@),
        day matches Some(d) ==> midnight(d).valid(),
{
    chrono::NaiveDate::parse_from_str(text, format).ok().map(
        |d| chrono::Datelike::num_days_from_ce(&d),
    )
}

/// The start of a day.
pub open spec fn midnight(day: i32) -> Timestamp {
    Timestamp { seconds: ((day - 719_163) * 86_400) as i64, nanos: 0 }
}

/// The nanoseconds between the start of 1970 and a point, or nothing where
/// they do not fit.
pub open spec fn nanos_since_epoch(point: Timestamp) -> Option<i64> {
    let total = point.seconds * 1_000_000_000 + point.nanos;
    let whole = (if point.seconds < 0 { point.seconds + 1 } else { point.seconds as int })
        * 1_000_000_000;
    if i64::MIN <= whole <= i64::MAX && i64::MIN <= total <= i64::MAX {
        Some(total as i64)
    } else {
        None
    }
}

/// A text that no known format fits.
#[derive(Debug)]
pub struct UnsupportedTime {
    /// The text, without the white space around it.
    pub text: String,
}

/// The point that a text holds in a format of dates with times or, failing
/// that, of dates alone.
pub open spec fn formatted_time(text: Seq<char>, format: Seq<char>) -> Option<Timestamp> {
    match naive_time(text, format) {
        Some(t) => Some(t),
        None => match naive_day(text, format) {
            Some(d) => Some(midnight(d)),
            None => None,
        },
    }
}

/// The first of two points that is there.
pub open spec fn first_of(a: Option<Timestamp>, b: Option<Timestamp>) -> Option<Timestamp> {
    if a is Some {
        a
    } else {
        b
    }
}

/// The point that a trimmed text names by a format, the formats tried in turn.
pub open spec fn written_time(text: Seq<char>) -> Option<Timestamp> {
    first_of(
        rfc3339_time(text),
        first_of(
            rfc3339_time(text + "Z"@),
            first_of(
                naive_time(text, "%Y-%m-%dT%H:%M:%S"@),
                first_of(
                    formatted_time(text, "%Y-%m-%d %H:%M:%S"@),
                    first_of(
                        formatted_time(text, "%Y/%m/%d %H:%M:%S"@),
                        first_of(
                            formatted_time(text, "%Y-%m-%d %H:%M"@),
                            formatted_time(text, "%Y-%m-%d"@),
                        ),
                    ),
                ),
            ),
        ),
    )
}

/// The point that a text names: thirteen digits count milliseconds and ten
/// digits seconds since the start of 1970; any other text is tried by format.
pub open spec fn time_of(text: Seq<char>) -> Option<Timestamp> {
    let inner = trimmed(text);
    if inner.len() == 13 && all_digits(inner) {
        let millis = digits_value(inner);
        Some(
            Timestamp { seconds: (millis / 1000) as i64, nanos: ((millis % 1000) * 1_000_000) as u32 },
        )
    } else if inner.len() == 10 && all_digits(inner) {
        Some(Timestamp { seconds: digits_value(inner) as i64, nanos: 0 })
    } else {
        written_time(inner)
    }
}

fn parse_formatted(text: &str, format: &str) -> (point: Option<Timestamp>)
    ensures
        point == formatted_time(text@, format@),
        point matches Some(t) ==> t.valid(),
{
    if let Some(t) = parse_naive(text, format) {
        return Some(t);
    }
    if let Some(d) = parse_day(text, format) {
        let seconds: i64 = (d as i64 - 719_163) * 86_400;
        return Some(Timestamp { seconds, nanos: 0 });
    }
    None
}

fn parse_written(text: &str) -> (point: Option<Timestamp>)
    ensures
        point == written_time(text@),
        point matches Some(t) ==> t.valid(),
{
    if let Some(t) = parse_rfc3339(text) {
        return Some(t);
    }
    let mut zoned: String = text.to_owned();
    zoned.append("Z");
    if let Some(t) = parse_rfc3339(zoned.as_str()) {
        return Some(t);
    }
    if let Some(t) = parse_naive(text, "%Y-%m-%dT%H:%M:%S") {
        return Some(t);
    }
    if let Some(t) = parse_formatted(text, "%Y-%m-%d %H:%M:%S") {
        return Some(t);
    }
    if let Some(t) = parse_formatted(text, "%Y/%m/%d %H:%M:%S") {
        return Some(t);
    }
    if let Some(t) = parse_formatted(text, "%Y-%m-%d %H:%M") {
        return Some(t);
    }
    parse_formatted(text, "%Y-%m-%d")
}

/// Reads a point in time in any of the formats that files are known to use.
pub fn parse_datetime(text: &str) -> (point: Result<Timestamp, UnsupportedTime>)
    ensures
        match point {
            Ok(t) => time_of(text@) == Some(t) && t.valid(),
            Err(e) => time_of(text@) is None && e.text@ == trimmed(text@),
        },
{
    let inner = trim(text);
    let chars = characters(inner);
    let numeral = are_digits(chars.as_slice());
    proof {
        if all_digits(inner@) {
            lemma_digits_bound(inner@);
            reveal_with_fuel(ten_to, 14);
        }
    }
    let found: Option<Timestamp> = if chars.len() == 13 && numeral {
        let millis: i64 = read_digits(chars.as_slice());
        from_timestamp(millis / 1000, ((millis % 1000) * 1_000_000) as u32)
    } else if chars.len() == 10 && numeral {
        from_timestamp(read_digits(chars.as_slice()), 0)
    } else {
        parse_written(inner)
    };
    match found {
        Some(t) => Ok(t),
        None => Err(UnsupportedTime { text: inner.to_owned() }),
    }
}

/// White space around a time does not matter.
pub proof fn law_white_space_does_not_matter(text: Seq<char>)
    ensures
        time_of(trimmed(text)) == time_of(text),
{
    law_trimmed_stays(text);
}

/// A time in seconds and the same time in milliseconds are one.
pub proof fn law_milliseconds_agree_with_seconds(seconds: Seq<char>)
    requires
        seconds.len() == 10,
        all_digits(seconds),
    ensures
        time_of(seconds + "000"@) == time_of(seconds),
        time_of(seconds) == Some(Timestamp { seconds: digits_value(seconds) as i64, nanos: 0 }),
{
    reveal_strlit("000");
    let millis = seconds + "000"@;
    assert forall|i: int| 0 <= i < millis.len() implies is_digit(#[trigger] millis[i]) by {
        if i < 10 {
            assert(is_digit(seconds[i]));
        }
    }
    assert(is_digit(seconds[0]) && is_digit(seconds[9]));
    law_trimmed_stays(seconds);
    law_trimmed_stays(millis);
    let two = millis.drop_last();
    let one = two.drop_last();
    assert(one.drop_last() =~= seconds);
    assert(millis.last() == '0' && two.last() == '0' && one.last() == '0');
    assert(digits_value(one) == 10 * digits_value(seconds));
    assert(digits_value(two) == 10 * digits_value(one));
    assert(digits_value(millis) == 1000 * digits_value(seconds));
}

/// Points in time are ordered by their seconds, and within a second by the
/// nanoseconds past it.
pub proof fn law_points_are_in_order(a: Timestamp, b: Timestamp)
    requires
        a.nanos < 2_000_000_000,
        b.nanos < 2_000_000_000,
    ensures
        a.before(b) <==> a.seconds * 2_000_000_000 + a.nanos < b.seconds * 2_000_000_000 + b.nanos,
        !(a.before(b) && b.before(a)),
        a.before(b) || b.before(a) || a == b,
{
}

/// Days follow one another by 86400 seconds, and 1970 starts with day 719163.
pub proof fn law_days_have_as_many_seconds(day: i32)
    requires
        day < i32::MAX,
    ensures
        midnight(719_163) == (Timestamp { seconds: 0, nanos: 0 }),
        midnight((day + 1) as i32).seconds == midnight(day).seconds + 86_400,
        midnight(day).nanos == 0,
{
}

/// The nanoseconds of a point count its seconds and what is past them; a point
/// whose nanoseconds do not fit in 64 bits has none, and one within 292 years of
/// 1970 has them.
pub proof fn law_nanoseconds_count_from_the_epoch(point: Timestamp)
    ensures
        nanos_since_epoch(point) is Some ==> nanos_since_epoch(point)->0 == point.seconds
            * 1_000_000_000 + point.nanos,
        -9_223_372_036 <= point.seconds < 9_223_372_036 && point.nanos < 1_000_000_000
            ==> nanos_since_epoch(point) is Some,
        point.seconds * 1_000_000_000 + point.nanos > i64::MAX ==> nanos_since_epoch(point) is None,
        point.seconds * 1_000_000_000 + point.nanos < i64::MIN ==> nanos_since_epoch(point) is None,
{
}

/// Thirteen digits are a time in milliseconds since 1970, ten are one in
/// seconds, whatever else they may be.
pub proof fn law_long_numerals_count_since_the_epoch(text: Seq<char>)
    requires
        all_digits(text),
    ensures
        text.len() == 10 ==> time_of(text) is Some && time_of(text)->0.seconds == digits_value(text)
            && time_of(text)->0.nanos == 0,
        text.len() == 13 ==> time_of(text) is Some && time_of(text)->0.seconds * 1000
            + time_of(text)->0.nanos / 1_000_000 == digits_value(text) && time_of(text)->0.nanos
            % 1_000_000 == 0 && time_of(text)->0.nanos < 1_000_000_000,
{
    if text.len() >= 10 {
        assert(is_digit(text[0]) && is_digit(text[text.len() - 1]));
        law_trimmed_stays(text);
        lemma_digits_bound(text);
        reveal_with_fuel(ten_to, 14);
    }
}

/// The formats of a text that is no such numeral, in the order in which they are
/// tried: the first that fits gives the time, and there is none only where none
/// fits.
pub proof fn law_formats_are_tried_in_turn(text: Seq<char>, k: int)
    requires
        trimmed(text) == text,
        !(all_digits(text) && (text.len() == 10 || text.len() == 13)),
        0 <= k < 7,
    ensures
        ({
            let tries = seq![
                rfc3339_time(text),
                rfc3339_time(text + "Z"@),
                naive_time(text, "%Y-%m-%dT%H:%M:%S"@),
                formatted_time(text, "%Y-%m-%d %H:%M:%S"@),
                formatted_time(text, "%Y/%m/%d %H:%M:%S"@),
                formatted_time(text, "%Y-%m-%d %H:%M"@),
                formatted_time(text, "%Y-%m-%d"@),
            ];
            &&& tries[k] is Some && (forall|j: int| 0 <= j < k ==> #[trigger] tries[j] is None)
                ==> time_of(text) == tries[k]
            &&& time_of(text) is None ==> tries[k] is None
        }),
{
    let tries = seq![
        rfc3339_time(text),
        rfc3339_time(text + "Z"@),
        naive_time(text, "%Y-%m-%dT%H:%M:%S"@),
        formatted_time(text, "%Y-%m-%d %H:%M:%S"@),
        formatted_time(text, "%Y/%m/%d %H:%M:%S"@),
        formatted_time(text, "%Y-%m-%d %H:%M"@),
        formatted_time(text, "%Y-%m-%d"@),
    ];
    if tries[k] is Some && (forall|j: int| 0 <= j < k ==> #[trigger] tries[j] is None) {
        assert(k > 0 ==> tries[0] is None);
        assert(k > 1 ==> tries[1] is None);
        assert(k > 2 ==> tries[2] is None);
        assert(k > 3 ==> tries[3] is None);
        assert(k > 4 ==> tries[4] is None);
        assert(k > 5 ==> tries[5] is None);
    }
}

/// A format of dates and times reads a text as one of those where it can, and
/// else as a date alone, at its first moment.
pub proof fn law_dates_alone_are_midnights(text: Seq<char>, format: Seq<char>)
    ensures
        naive_time(text, format) is Some ==> formatted_time(text, format) == naive_time(text, format),
        naive_time(text, format) is None && naive_day(text, format) is Some ==> formatted_time(
            text,
            format,
        ) == Some(midnight(naive_day(text, format)->0)),
        naive_time(text, format) is None && naive_day(text, format) is None ==> formatted_time(
            text,
            format,
        ) is None,
{
}

} // verus!
