//! Bars from a table of comma-separated values.
use super::czsc::{
    bar_from_texts, bar_tag, bar_view, bar_views, number_of, numbered_bar, read_bar, Bar, BarTag,
    BarView,
};
use super::replay::replayable;
use crate::number::{at_most, less, Double};
use crate::table::{
    any_position, find_col, header_fields, lower_all, lowered, position, position_of, read_header,
    read_rows, row_fields, row_view, row_views,
};
use crate::text::{join, join_names, joined, names, texts, trim, trimmed};
use crate::time::{parse_datetime, time_of, Timestamp};
use czsc_core::objects::bar::RawBar;
use czsc_core::objects::freq::Freq;
use vstd::prelude::*;
use vstd::string::StringExecFns;

verus! {

/// What is wrong with the numbers of a bar.
#[derive(Clone, Copy, Debug, PartialEq, Eq, Structural)]
pub enum Fault {
    /// The high is below the low.
    HighBelowLow,
    /// The high is below the open or the close.
    HighBelowOpenOrClose,
    /// The low is above the open or the close.
    LowAboveOpenOrClose,
    /// The volume or the turnover is negative.
    NegativeVolume,
    /// A price is zero or negative.
    NonPositivePrice,
}

/// A bar whose numbers contradict each other.
#[derive(Clone, Copy, Debug, PartialEq, Eq, Structural)]
pub struct InvalidBar {
    pub dt: Timestamp,
    pub fault: Fault,
}

/// What is wrong with the numbers of a bar, the faults looked for in turn.
pub open spec fn fault_of(bar: BarView) -> Option<Fault> {
    let zero = Some(0int);
    if less(bar.high, bar.low) {
        Some(Fault::HighBelowLow)
    } else if less(bar.high, bar.open) || less(bar.high, bar.close) {
        Some(Fault::HighBelowOpenOrClose)
    } else if less(bar.open, bar.low) || less(bar.close, bar.low) {
        Some(Fault::LowAboveOpenOrClose)
    } else if less(bar.vol, zero) || less(bar.amount, zero) {
        Some(Fault::NegativeVolume)
    } else if at_most(bar.open, zero) || at_most(bar.close, zero) || at_most(bar.high, zero)
        || at_most(bar.low, zero) {
        Some(Fault::NonPositivePrice)
    } else {
        None
    }
}

/// Whether the numbers of a bar fit each other.
pub fn validate_ohlcv(
    open: Double,
    high: Double,
    low: Double,
    close: Double,
    vol: Double,
    amount: Double,
    dt: Timestamp,
) -> (verdict: Result<(), InvalidBar>)
    ensures
        match verdict {
            Ok(_) => fault_of((Bar { time: dt, open, close, high, low, vol, amount })@) is None,
            Err(e) => e.dt == dt && fault_of(
                (Bar { time: dt, open, close, high, low, vol, amount })@,
            ) == Some(e.fault),
        },
{
    let zero = Double::zero();
    if high.lt(low) {
        return Err(InvalidBar { dt, fault: Fault::HighBelowLow });
    }
    if high.lt(open) || high.lt(close) {
        return Err(InvalidBar { dt, fault: Fault::HighBelowOpenOrClose });
    }
    if open.lt(low) || close.lt(low) {
        return Err(InvalidBar { dt, fault: Fault::LowAboveOpenOrClose });
    }
    if vol.lt(zero) || amount.lt(zero) {
        return Err(InvalidBar { dt, fault: Fault::NegativeVolume });
    }
    if open.le(zero) || close.le(zero) || high.le(zero) || low.le(zero) {
        return Err(InvalidBar { dt, fault: Fault::NonPositivePrice });
    }
    Ok(())
}

/// A column that a table must have and has not.
#[derive(Debug)]
pub struct MissingColumn {
    pub message: String,
}

/// What is said of a missing column with one name.
pub open spec fn missing_one(cols: Seq<Seq<char>>, name: Seq<char>) -> Seq<char> {
    "CSV 缺少必需列: "@ + name + "，可用列: "@ + joined(cols, ", "@)
}

/// What is said of a missing column with several names.
pub open spec fn missing_any(cols: Seq<Seq<char>>, wanted: Seq<Seq<char>>) -> Seq<char> {
    "CSV 缺少必需列 ("@ + joined(wanted, "/"@) + "), 可用列: "@ + joined(cols, ", "@)
}

/// Where the column with a name stands.
pub fn col_index(cols: &[String], name: &str) -> (place: Result<usize, MissingColumn>)
    ensures
        match place {
            Ok(p) => position_of(texts(cols@), name@) == Some(p as int),
            Err(e) => position_of(texts(cols@), name@) is None && e.message@ == missing_one(
                texts(cols@),
                name@,
            ),
        },
{
    match position(cols, name) {
        Some(p) => Ok(p),
        None => {
            let mut message: String = "CSV 缺少必需列: ".to_owned();
            message.append(name);
            message.append("，可用列: ");
            let available = join(cols, ", ");
            message.append(available.as_str());
            Err(MissingColumn { message })
        },
    }
}

/// Where the column with one of some names stands, the names tried in turn.
pub fn col_index_in(cols: &[String], wanted: &[&str]) -> (place: Result<usize, MissingColumn>)
    ensures
        match place {
            Ok(p) => any_position(texts(cols@), names(wanted@)) == Some(p as int),
            Err(e) => any_position(texts(cols@), names(wanted@)) is None && e.message@
                == missing_any(texts(cols@), names(wanted@)),
        },
{
    match find_col(cols, wanted) {
        Some(p) => Ok(p),
        None => {
            let mut message: String = "CSV 缺少必需列 (".to_owned();
            let tried = join_names(wanted, "/");
            message.append(tried.as_str());
            message.append("), 可用列: ");
            let available = join(cols, ", ");
            message.append(available.as_str());
            Err(MissingColumn { message })
        },
    }
}

/// The names of the columns.
pub const DT_NAME: &'static str = "dt";

pub const OPEN_NAMES: [&'static str; 2] = ["open", "开盘"];

pub const HIGH_NAMES: [&'static str; 2] = ["high", "最高"];

pub const LOW_NAMES: [&'static str; 2] = ["low", "最低"];

pub const CLOSE_NAMES: [&'static str; 2] = ["close", "收盘"];

pub const VOL_NAMES: [&'static str; 3] = ["vol", "volume", "成交量"];

pub const AMOUNT_NAMES: [&'static str; 2] = ["amount", "成交额"];

/// Where the columns of a table stand.
#[derive(Clone, Copy, Debug, PartialEq, Eq, Structural)]
pub struct Layout {
    pub dt: usize,
    pub open: usize,
    pub high: usize,
    pub low: usize,
    pub close: usize,
    pub vol: usize,
    pub amount: usize,
}

/// The layout of a table without a header: the volume stands for the turnover.
pub open spec fn plain_layout() -> Layout {
    Layout { dt: 0, open: 1, high: 2, low: 3, close: 4, vol: 5, amount: 5 }
}

/// The first column that a header lacks, by what is said of it. It may lack one
/// for the turnover.
pub open spec fn lacking(cols: Seq<Seq<char>>) -> Option<Seq<char>> {
    if position_of(cols, DT_NAME@) is None {
        Some(missing_one(cols, DT_NAME@))
    } else if any_position(cols, names(OPEN_NAMES@)) is None {
        Some(missing_any(cols, names(OPEN_NAMES@)))
    } else if any_position(cols, names(HIGH_NAMES@)) is None {
        Some(missing_any(cols, names(HIGH_NAMES@)))
    } else if any_position(cols, names(LOW_NAMES@)) is None {
        Some(missing_any(cols, names(LOW_NAMES@)))
    } else if any_position(cols, names(CLOSE_NAMES@)) is None {
        Some(missing_any(cols, names(CLOSE_NAMES@)))
    } else if any_position(cols, names(VOL_NAMES@)) is None {
        Some(missing_any(cols, names(VOL_NAMES@)))
    } else {
        None
    }
}

/// The layout that a header gives which lacks no column. Where it has none for
/// the turnover, the volume stands for it.
pub open spec fn layout_in(cols: Seq<Seq<char>>) -> Layout {
    Layout {
        dt: position_of(cols, DT_NAME@)->0 as usize,
        open: any_position(cols, names(OPEN_NAMES@))->0 as usize,
        high: any_position(cols, names(HIGH_NAMES@))->0 as usize,
        low: any_position(cols, names(LOW_NAMES@))->0 as usize,
        close: any_position(cols, names(CLOSE_NAMES@))->0 as usize,
        vol: any_position(cols, names(VOL_NAMES@))->0 as usize,
        amount: match any_position(cols, names(AMOUNT_NAMES@)) {
            Some(p) => p as usize,
            None => any_position(cols, names(VOL_NAMES@))->0 as usize,
        },
    }
}

/// The layout that a header in lower case gives.
pub fn find_layout(cols: &[String]) -> (found: Result<Layout, MissingColumn>)
    ensures
        match found {
            Ok(layout) => lacking(texts(cols@)) is None && layout == layout_in(texts(cols@)),
            Err(e) => lacking(texts(cols@)) == Some(e.message@),
        },
{
    let dt: usize = match col_index(cols, DT_NAME) {
        Ok(p) => p,
        Err(e) => return Err(e),
    };
    let open: usize = match col_index_in(cols, &OPEN_NAMES) {
        Ok(p) => p,
        Err(e) => return Err(e),
    };
    let high: usize = match col_index_in(cols, &HIGH_NAMES) {
        Ok(p) => p,
        Err(e) => return Err(e),
    };
    let low: usize = match col_index_in(cols, &LOW_NAMES) {
        Ok(p) => p,
        Err(e) => return Err(e),
    };
    let close: usize = match col_index_in(cols, &CLOSE_NAMES) {
        Ok(p) => p,
        Err(e) => return Err(e),
    };
    let vol: usize = match col_index_in(cols, &VOL_NAMES) {
        Ok(p) => p,
        Err(e) => return Err(e),
    };
    let amount: usize = match find_col(cols, &AMOUNT_NAMES) {
        Some(p) => p,
        None => vol,
    };
    Ok(Layout { dt, open, high, low, close, vol, amount })
}

/// The time of a row.
pub open spec fn row_time(row: Option<Seq<Seq<char>>>, layout: Layout) -> Option<Timestamp> {
    match row {
        Some(fields) => if layout.dt < fields.len() {
            time_of(fields[layout.dt as int])
        } else {
            None
        },
        None => None,
    }
}

/// The texts of the numbers of a row: open, close, high, low, volume and
/// turnover.
pub open spec fn row_numerals(fields: Seq<Seq<char>>, layout: Layout) -> Seq<Seq<char>> {
    seq![
        trimmed(fields[layout.open as int]),
        trimmed(fields[layout.close as int]),
        trimmed(fields[layout.high as int]),
        trimmed(fields[layout.low as int]),
        trimmed(fields[layout.vol as int]),
        trimmed(fields[layout.amount as int]),
    ]
}

/// Whether a row has every column.
pub open spec fn has_columns(fields: Seq<Seq<char>>, layout: Layout) -> bool {
    &&& layout.open < fields.len()
    &&& layout.high < fields.len()
    &&& layout.low < fields.len()
    &&& layout.close < fields.len()
    &&& layout.vol < fields.len()
    &&& layout.amount < fields.len()
}

/// Whether the numbers of a bar are fit to be kept: prices above zero, volume
/// and turnover not below it, and no contradiction.
pub open spec fn is_sound(bar: BarView) -> bool {
    let zero = Some(0int);
    &&& less(zero, bar.open)
    &&& less(zero, bar.high)
    &&& less(zero, bar.low)
    &&& less(zero, bar.close)
    &&& at_most(zero, bar.vol)
    &&& at_most(zero, bar.amount)
    &&& fault_of(bar) is None
}

/// The bar that a row holds, whatever the rows before it: a time, and numbers
/// that are fit to be kept.
pub open spec fn row_bar(row: Option<Seq<Seq<char>>>, layout: Layout) -> Option<BarView> {
    match (row, row_time(row, layout)) {
        (Some(fields), Some(time)) => {
            let numerals = row_numerals(fields, layout);
            if has_columns(fields, layout) && (forall|k: int|
                0 <= k < 6 ==> number_of(#[trigger] numerals[k]) is Some) && is_sound(
                numbered_bar(time, numerals),
            ) {
                Some(numbered_bar(time, numerals))
            } else {
                None
            }
        },
        _ => None,
    }
}

/// Whether a row is later than every row before it that has a time.
pub open spec fn is_later(rows: Seq<Option<Seq<Seq<char>>>>, layout: Layout, i: int) -> bool {
    &&& row_time(rows[i], layout) is Some
    &&& forall|j: int|
        0 <= j < i ==> (row_time(#[trigger] rows[j], layout) matches Some(t) ==> t.before(
            row_time(rows[i], layout)->0,
        ))
}

/// The bars that the first rows of a table give: each row that is later than
/// all before it and holds a bar gives it; the others are skipped.
pub open spec fn table_bars(rows: Seq<Option<Seq<Seq<char>>>>, layout: Layout, n: int) -> Seq<
    BarView,
>
    decreases n,
{
    if n <= 0 {
        Seq::empty()
    } else if is_later(rows, layout, n - 1) && row_bar(rows[n - 1], layout) is Some {
        table_bars(rows, layout, n - 1).push(row_bar(rows[n - 1], layout)->0)
    } else {
        table_bars(rows, layout, n - 1)
    }
}

/// What the bars of tables are called.
pub const SYMBOL: &'static str = "CHAN";

/// Whether bars carry what those of a table do: its symbol, the length asked
/// for, and their place among the bars that were kept.
pub open spec fn are_tagged(bars: Seq<RawBar>, freq: Freq) -> bool {
    forall|i: int|
        0 <= i < bars.len() ==> bar_tag(#[trigger] bars[i]) == (BarTag {
            symbol: SYMBOL@,
            freq,
            id: i as i32,
        })
}

/// The bars of a table, and how many of its rows were skipped.
pub struct ReadBars {
    pub bars: Vec<RawBar>,
    pub skipped: usize,
}

fn is_sound_bar(bar: Bar) -> (yes: bool)
    ensures
        yes == is_sound(bar@),
{
    let zero = Double::zero();
    let priced = zero.lt(bar.open) && zero.lt(bar.high) && zero.lt(bar.low) && zero.lt(bar.close);
    priced && zero.le(bar.vol) && zero.le(bar.amount) && validate_ohlcv(
        bar.open,
        bar.high,
        bar.low,
        bar.close,
        bar.vol,
        bar.amount,
        bar.time,
    ).is_ok()
}

fn bar_from_row(fields: &Vec<String>, layout: Layout, time: Timestamp, freq: Freq, id: i32) -> (bar:
    Option<RawBar>)
    requires
        time.valid(),
        layout.dt < fields@.len(),
        time_of(fields@[layout.dt as int]@) == Some(time),
    ensures
        match bar {
            Some(b) => row_bar(Some(texts(fields@)), layout) == Some(bar_view(b)) && bar_tag(b)
                == (BarTag { symbol: SYMBOL@, freq, id }),
            None => row_bar(Some(texts(fields@)), layout) is None,
        },
{
    let n: usize = fields.len();
    if layout.open >= n || layout.high >= n || layout.low >= n || layout.close >= n || layout.vol
        >= n || layout.amount >= n {
        return None;
    }
    let ghost all = texts(fields@);
    let ghost numerals = row_numerals(all, layout);
    let built = bar_from_texts(
        SYMBOL,
        time,
        freq,
        id,
        trim(fields[layout.open].as_str()),
        trim(fields[layout.close].as_str()),
        trim(fields[layout.high].as_str()),
        trim(fields[layout.low].as_str()),
        trim(fields[layout.vol].as_str()),
        trim(fields[layout.amount].as_str()),
    );
    proof {
        assert(row_time(Some(all), layout) == Some(time));
        assert(number_of(numerals[0]) is Some && number_of(numerals[1]) is Some && number_of(
            numerals[2],
        ) is Some && number_of(numerals[3]) is Some && number_of(numerals[4]) is Some && number_of(
            numerals[5],
        ) is Some <==> built is Some);
    }
    match built {
        Some(bar) => if is_sound_bar(read_bar(&bar)) {
            Some(bar)
        } else {
            None
        },
        None => None,
    }
}

/// The bars that the rows of a table give.
pub fn bars_from_rows(
    rows: &[Result<Vec<String>, csv::Error>],
    layout: Layout,
    freq: Freq,
) -> (read: ReadBars)
    ensures
        bar_views(read.bars@) == table_bars(row_views(rows@), layout, rows@.len() as int),
        read.bars@.len() + read.skipped == rows@.len(),
        are_tagged(read.bars@, freq),
{
    let ghost all = row_views(rows@);
    let mut bars: Vec<RawBar> = Vec::new();
    let mut skipped: usize = 0;
    let mut last: Option<Timestamp> = None;
    let mut i: usize = 0;
    proof {
        assert(bar_views(bars@) =~= table_bars(all, layout, 0));
    }
    while i < rows.len()
        invariant
            i <= rows@.len(),
            all == row_views(rows@),
            bar_views(bars@) == table_bars(all, layout, i as int),
            bars@.len() + skipped == i,
            are_tagged(bars@, freq),
            match last {
                Some(t) => (exists|j: int|
                    0 <= j < i && row_time(#[trigger] all[j], layout) == Some(t)) && (forall|j: int|
                    0 <= j < i ==> (row_time(#[trigger] all[j], layout) matches Some(u)
                        ==> !t.before(u))),
                None => forall|j: int|
                    0 <= j < i ==> row_time(#[trigger] all[j], layout) is None,
            },
        decreases rows@.len() - i,
    {
        let ghost before = bars@;
        assert(all[i as int] == row_view(rows@[i as int]));
        let mut kept: Option<RawBar> = None;
        if let Ok(fields) = &rows[i] {
            assert(all[i as int] == Some(texts(fields@)));
            if layout.dt < fields.len() {
                if let Ok(time) = parse_datetime(fields[layout.dt].as_str()) {
                    let later = match last {
                        Some(t) => t.is_before(time),
                        None => true,
                    };
                    assert(row_time(all[i as int], layout) == Some(time));
                    assert(later == is_later(all, layout, i as int));
                    if later {
                        last = Some(time);
                        kept = bar_from_row(fields, layout, time, freq, bars.len() as i32);
                    }
                }
            }
        }
        match kept {
            Some(bar) => {
                bars.push(bar);
                assert(bar_views(bars@) =~= bar_views(before).push(bar_view(bar)));
            },
            None => {
                skipped += 1;
            },
        }
        i += 1;
    }
    ReadBars { bars, skipped }
}

/// Why a table gives no bars.
#[derive(Debug)]
pub enum CsvError {
    /// The header is not text.
    Unreadable(csv::Error),
    /// The header lacks a column.
    MissingColumn(MissingColumn),
    /// No row holds a bar.
    NoData,
}

/// The columns of a table, in lower case; nothing where the header is not text.
pub open spec fn table_columns(data: Seq<u8>) -> Option<Seq<Seq<char>>> {
    match header_fields(data) {
        Some(header) => Some(lowered(header)),
        None => None,
    }
}

/// The layout of a table, where it has one.
pub open spec fn table_layout(data: Seq<u8>, no_header: bool) -> Option<Layout> {
    if no_header {
        Some(plain_layout())
    } else {
        match table_columns(data) {
            Some(cols) => if lacking(cols) is None {
                Some(layout_in(cols))
            } else {
                None
            },
            None => None,
        }
    }
}

/// The bars that all rows of a table give.
pub open spec fn all_bars(data: Seq<u8>, no_header: bool, layout: Layout) -> Seq<BarView> {
    let rows = row_fields(data, !no_header);
    table_bars(rows, layout, rows.len() as int)
}

/// Reads the bars of a table, with or without a header.
pub fn read_csv_to_raw_bars(data: &[u8], freq: Freq, no_header: bool) -> (read: Result<
    ReadBars,
    CsvError,
>)
    ensures
        match read {
            Ok(table) => {
                &&& table_layout(data@, no_header) matches Some(layout)
                &&& bar_views(table.bars@) == all_bars(data@, no_header, layout)
                &&& replayable(bar_views(table.bars@))
                &&& are_tagged(table.bars@, freq)
                &&& table.bars@.len() > 0
                &&& table.bars@.len() + table.skipped == row_fields(data@, !no_header).len()
            },
            Err(CsvError::Unreadable(_)) => !no_header && table_columns(data@) is None,
            Err(CsvError::MissingColumn(e)) => {
                &&& !no_header
                &&& table_columns(data@) matches Some(cols)
                &&& lacking(cols) == Some(e.message@)
            },
            Err(CsvError::NoData) => {
                &&& table_layout(data@, no_header) matches Some(layout)
                &&& all_bars(data@, no_header, layout).len() == 0
            },
        },
{
    let layout: Layout = if no_header {
        Layout { dt: 0, open: 1, high: 2, low: 3, close: 4, vol: 5, amount: 5 }
    } else {
        let header = match read_header(data) {
            Ok(h) => h,
            Err(e) => return Err(CsvError::Unreadable(e)),
        };
        let cols = lower_all(header.as_slice());
        match find_layout(cols.as_slice()) {
            Ok(layout) => layout,
            Err(e) => return Err(CsvError::MissingColumn(e)),
        }
    };
    let rows = read_rows(data, !no_header);
    let read = bars_from_rows(rows.as_slice(), layout, freq);
    proof {
        assert(row_views(rows@).len() == rows@.len());
        assert(bar_views(read.bars@).len() == read.bars@.len());
        law_table_bars_are_replayable(row_views(rows@), layout, rows@.len() as int);
    }
    if read.bars.len() == 0 {
        return Err(CsvError::NoData);
    }
    Ok(read)
}

proof fn lemma_bar_times(rows: Seq<Option<Seq<Seq<char>>>>, layout: Layout, n: int, b: int)
    requires
        0 <= n <= rows.len(),
        0 <= b < table_bars(rows, layout, n).len(),
    ensures
        is_sound(table_bars(rows, layout, n)[b]),
        exists|j: int|
            0 <= j < n && row_time(#[trigger] rows[j], layout) == Some(
                table_bars(rows, layout, n)[b].time,
            ),
    decreases n,
{
    let list = table_bars(rows, layout, n);
    let shorter = table_bars(rows, layout, n - 1);
    if b < shorter.len() {
        lemma_bar_times(rows, layout, n - 1, b);
        assert(list[b] == shorter[b]);
        let j = choose|j: int|
            0 <= j < n - 1 && row_time(#[trigger] rows[j], layout) == Some(shorter[b].time);
        assert(row_time(rows[j], layout) == Some(list[b].time));
    } else {
        assert(row_time(rows[n - 1], layout) == Some(list[b].time));
    }
}

/// The bars of a table can be replayed: each is later than the one before,
/// and every one is sound.
pub proof fn law_table_bars_are_replayable(
    rows: Seq<Option<Seq<Seq<char>>>>,
    layout: Layout,
    n: int,
)
    requires
        0 <= n <= rows.len(),
    ensures
        replayable(table_bars(rows, layout, n)),
        forall|b: int|
            0 <= b < table_bars(rows, layout, n).len() ==> is_sound(
                #[trigger] table_bars(rows, layout, n)[b],
            ),
        table_bars(rows, layout, n).len() <= n,
    decreases n,
{
    if n > 0 {
        law_table_bars_are_replayable(rows, layout, n - 1);
        let shorter = table_bars(rows, layout, n - 1);
        assert forall|b: int|
            0 <= b < shorter.len() && is_later(rows, layout, n - 1) implies (
        #[trigger] shorter[b]).time.before(row_time(rows[n - 1], layout)->0) by {
            lemma_bar_times(rows, layout, n - 1, b);
        }
    }
}

/// A row that holds no sound bar, or is not later than all rows before it,
/// leaves the bars of the table that it is added to as they are.
pub proof fn law_skipped_row_leaves_the_bars(
    rows: Seq<Option<Seq<Seq<char>>>>,
    layout: Layout,
    row: Option<Seq<Seq<char>>>,
)
    requires
        row_bar(row, layout) is None || !is_later(rows.push(row), layout, rows.len() as int),
    ensures
        table_bars(rows.push(row), layout, rows.len() as int + 1) == table_bars(
            rows,
            layout,
            rows.len() as int,
        ),
{
    lemma_prefix_bars(rows, rows.push(row), layout, rows.len() as int);
}

proof fn lemma_prefix_bars(
    rows: Seq<Option<Seq<Seq<char>>>>,
    longer: Seq<Option<Seq<Seq<char>>>>,
    layout: Layout,
    n: int,
)
    requires
        n <= rows.len() <= longer.len(),
        forall|i: int| 0 <= i < rows.len() ==> #[trigger] longer[i] == rows[i],
    ensures
        table_bars(rows, layout, n) == table_bars(longer, layout, n),
    decreases n,
{
    if n > 0 {
        lemma_prefix_bars(rows, longer, layout, n - 1);
        assert(longer[n - 1] == rows[n - 1]);
        assert(is_later(rows, layout, n - 1) == is_later(longer, layout, n - 1)) by {
            assert forall|j: int| 0 <= j < n - 1 implies #[trigger] rows[j] == longer[j] by {}
        }
    }
}

/// A bar is fit to be kept if and only if all its numbers are numbers, the low is
/// above zero, open and close lie between low and high, and neither the volume
/// nor the turnover is below zero.
pub proof fn law_sound_bars(bar: BarView)
    ensures
        is_sound(bar) <==> {
            &&& bar.open is Some && bar.close is Some && bar.high is Some && bar.low is Some
            &&& bar.vol is Some && bar.amount is Some
            &&& 0 < bar.low->0
            &&& bar.low->0 <= bar.open->0 <= bar.high->0
            &&& bar.low->0 <= bar.close->0 <= bar.high->0
            &&& 0 <= bar.vol->0 && 0 <= bar.amount->0
        },
{
}

/// Which fault the numbers of a bar have, and that they have none only where they
/// fit. A fault that comes earlier in the list hides a later one.
pub proof fn law_faults_of_numbers(
    time: Timestamp,
    open: int,
    close: int,
    high: int,
    low: int,
    vol: int,
    amount: int,
)
    ensures
        ({
            let fault = fault_of(
                BarView {
                    time,
                    open: Some(open),
                    close: Some(close),
                    high: Some(high),
                    low: Some(low),
                    vol: Some(vol),
                    amount: Some(amount),
                },
            );
            let ordered = low <= high;
            let topped = ordered && open <= high && close <= high;
            let bottomed = topped && low <= open && low <= close;
            let filled = bottomed && vol >= 0 && amount >= 0;
            &&& fault == Some(Fault::HighBelowLow) <==> !ordered
            &&& fault == Some(Fault::HighBelowOpenOrClose) <==> ordered && !topped
            &&& fault == Some(Fault::LowAboveOpenOrClose) <==> topped && !bottomed
            &&& fault == Some(Fault::NegativeVolume) <==> bottomed && !filled
            &&& fault == Some(Fault::NonPositivePrice) <==> filled && low <= 0
            &&& fault is None <==> filled && low > 0
        }),
{
}

/// What is not a number contradicts nothing: a bar of such numbers has no fault,
/// and one such number beside a sound bar brings none.
pub proof fn law_what_is_no_number_is_no_fault(bar: BarView)
    requires
        fault_of(bar) is None,
    ensures
        fault_of(BarView { open: None, ..bar }) is None,
        fault_of(BarView { close: None, ..bar }) is None,
        fault_of(BarView { high: None, ..bar }) is None,
        fault_of(BarView { low: None, ..bar }) is None,
        fault_of(BarView { vol: None, ..bar }) is None,
        fault_of(BarView { amount: None, ..bar }) is None,
{
}

/// The bar of a row has its time and its numbers from the columns of the layout,
/// each from its own; a row has one where they can be read and fit.
pub proof fn law_rows_hold_their_columns(fields: Seq<Seq<char>>, layout: Layout)
    ensures
        ({
            let places = seq![
                layout.open as int,
                layout.close as int,
                layout.high as int,
                layout.low as int,
                layout.vol as int,
                layout.amount as int,
            ];
            let read = |c: int| number_of(trimmed(fields[c]));
            let there = layout.dt < fields.len() && layout.open < fields.len() && layout.close
                < fields.len() && layout.high < fields.len() && layout.low < fields.len()
                && layout.vol < fields.len() && layout.amount < fields.len();
            let known = there && time_of(fields[layout.dt as int]) is Some && read(places[0]) is Some
                && read(places[1]) is Some && read(places[2]) is Some && read(places[3]) is Some
                && read(places[4]) is Some && read(places[5]) is Some;
            let bar = BarView {
                time: time_of(fields[layout.dt as int])->0,
                open: read(places[0])->0,
                close: read(places[1])->0,
                high: read(places[2])->0,
                low: read(places[3])->0,
                vol: read(places[4])->0,
                amount: read(places[5])->0,
            };
            &&& known && is_sound(bar) ==> row_bar(Some(fields), layout) == Some(bar)
            &&& !(known && is_sound(bar)) ==> row_bar(Some(fields), layout) is None
            &&& row_bar(None, layout) is None
        }),
{
    let numerals = row_numerals(fields, layout);
    assert(numerals[0] == trimmed(fields[layout.open as int]));
    assert(numerals[1] == trimmed(fields[layout.close as int]));
    assert(numerals[2] == trimmed(fields[layout.high as int]));
    assert(numerals[3] == trimmed(fields[layout.low as int]));
    assert(numerals[4] == trimmed(fields[layout.vol as int]));
    assert(numerals[5] == trimmed(fields[layout.amount as int]));
}

/// The time that a row holds, where it holds one.
pub open spec fn time_in_row(row: Option<Seq<Seq<char>>>, dt: int) -> Option<Timestamp> {
    if row is Some && dt < row->0.len() {
        time_of(row->0[dt])
    } else {
        None
    }
}

/// Whether a row of a table gives a bar: it holds one, and every earlier row that
/// has a time has an earlier one.
pub open spec fn gives_a_bar(rows: Seq<Option<Seq<Seq<char>>>>, layout: Layout, r: int) -> bool {
    &&& row_bar(rows[r], layout) is Some
    &&& forall|j: int|
        0 <= j < r && time_in_row(#[trigger] rows[j], layout.dt as int) is Some ==> time_in_row(
            rows[j],
            layout.dt as int,
        )->0.before(time_in_row(rows[r], layout.dt as int)->0)
}

/// How many of the first rows give a bar.
pub open spec fn rows_with_bars(rows: Seq<Option<Seq<Seq<char>>>>, layout: Layout, n: int) -> int
    decreases n,
{
    if n <= 0 {
        0
    } else {
        rows_with_bars(rows, layout, n - 1) + (if gives_a_bar(rows, layout, n - 1) {
            1int
        } else {
            0int
        })
    }
}

/// Every row that gives a bar has it in the table, in the order of the rows, and
/// no other row has one.
pub proof fn law_bars_come_row_by_row(
    rows: Seq<Option<Seq<Seq<char>>>>,
    layout: Layout,
    n: int,
    r: int,
)
    requires
        0 <= r < n <= rows.len(),
    ensures
        ({
            let bars = table_bars(rows, layout, n);
            let place = rows_with_bars(rows, layout, r);
            &&& bars.len() == rows_with_bars(rows, layout, n)
            &&& gives_a_bar(rows, layout, r) ==> 0 <= place < bars.len() && bars[place] == row_bar(
                rows[r],
                layout,
            )->0
        }),
    decreases n,
{
    let last = n - 1;
    assert(gives_a_bar(rows, layout, last) == (is_later(rows, layout, last) && row_bar(
        rows[last],
        layout,
    ) is Some)) by {
        if gives_a_bar(rows, layout, last) {
            assert forall|j: int| 0 <= j < last implies (row_time(#[trigger] rows[j], layout) matches Some(
                t,
            ) ==> t.before(row_time(rows[last], layout)->0)) by {
                assert(time_in_row(rows[j], layout.dt as int) == row_time(rows[j], layout));
            }
        }
        if is_later(rows, layout, last) {
            assert forall|j: int|
                0 <= j < last && time_in_row(
                    #[trigger] rows[j],
                    layout.dt as int,
                ) is Some implies time_in_row(rows[j], layout.dt as int)->0.before(
                time_in_row(rows[last], layout.dt as int)->0,
            ) by {
                assert(time_in_row(rows[j], layout.dt as int) == row_time(rows[j], layout));
            }
        }
    }
    if n > 1 {
        law_bars_come_row_by_row(rows, layout, n - 1, if r < last { r } else { 0 });
    } else {
        assert(table_bars(rows, layout, 0).len() == 0);
        assert(rows_with_bars(rows, layout, 0) == 0);
    }
    lemma_rows_with_bars(rows, layout, r);
}

proof fn lemma_rows_with_bars(rows: Seq<Option<Seq<Seq<char>>>>, layout: Layout, n: int)
    ensures
        rows_with_bars(rows, layout, n) >= 0,
    decreases n,
{
    if n > 0 {
        lemma_rows_with_bars(rows, layout, n - 1);
    }
}

/// Whether a place of a header has one of two names.
pub open spec fn is_named(cols: Seq<Seq<char>>, place: int, a: Seq<char>, b: Seq<char>) -> bool {
    0 <= place < cols.len() && (cols[place] == a || cols[place] == b)
}

/// Whether a header has a column of one of two names.
pub open spec fn has_named(cols: Seq<Seq<char>>, a: Seq<char>, b: Seq<char>) -> bool {
    exists|place: int| 0 <= place < cols.len() && (#[trigger] cols[place] == a || cols[place] == b)
}

proof fn lemma_two_names(cols: Seq<Seq<char>>, wanted: Seq<Seq<char>>)
    requires
        wanted.len() == 2,
    ensures
        any_position(cols, wanted) is Some <==> has_named(cols, wanted[0], wanted[1]),
        any_position(cols, wanted) is Some ==> is_named(
            cols,
            any_position(cols, wanted)->0,
            wanted[0],
            wanted[1],
        ),
{
    crate::table::law_first_name_counts(cols, wanted, 0, 0);
    if has_named(cols, wanted[0], wanted[1]) && any_position(cols, wanted) is None {
        let place = choose|place: int|
            0 <= place < cols.len() && (#[trigger] cols[place] == wanted[0] || cols[place]
                == wanted[1]);
        assert(cols[place] != wanted[0]);
        assert(cols[place] != wanted[1]);
    }
}

/// A header lacks no column if and only if it names a time, the four prices and a
/// volume, each in English or in Chinese. Then every column of the layout has one
/// of its names; where none is named for the turnover, the volume stands for it.
pub proof fn law_layouts_go_by_names(cols: Seq<Seq<char>>)
    requires
        cols.len() <= usize::MAX,
    ensures
        lacking(cols) is None <==> {
            &&& has_named(cols, "dt"@, "dt"@)
            &&& has_named(cols, "open"@, "开盘"@)
            &&& has_named(cols, "high"@, "最高"@)
            &&& has_named(cols, "low"@, "最低"@)
            &&& has_named(cols, "close"@, "收盘"@)
            &&& has_named(cols, "vol"@, "volume"@) || has_named(cols, "成交量"@, "成交量"@)
        },
        lacking(cols) is None ==> ({
            let layout = layout_in(cols);
            &&& is_named(cols, layout.dt as int, "dt"@, "dt"@)
            &&& is_named(cols, layout.open as int, "open"@, "开盘"@)
            &&& is_named(cols, layout.high as int, "high"@, "最高"@)
            &&& is_named(cols, layout.low as int, "low"@, "最低"@)
            &&& is_named(cols, layout.close as int, "close"@, "收盘"@)
            &&& is_named(cols, layout.vol as int, "vol"@, "volume"@) || is_named(
                cols,
                layout.vol as int,
                "成交量"@,
                "成交量"@,
            )
            &&& has_named(cols, "amount"@, "成交额"@) ==> is_named(
                cols,
                layout.amount as int,
                "amount"@,
                "成交额"@,
            )
            &&& !has_named(cols, "amount"@, "成交额"@) ==> layout.amount == layout.vol
        }),
{
    crate::table::law_position_is_the_first(cols, DT_NAME@);
    assert(has_named(cols, "dt"@, "dt"@) <==> position_of(cols, DT_NAME@) is Some) by {
        if position_of(cols, DT_NAME@) is Some {
            assert(cols[position_of(cols, DT_NAME@)->0] == "dt"@);
        }
    }
    lemma_two_names(cols, names(OPEN_NAMES@));
    lemma_two_names(cols, names(HIGH_NAMES@));
    lemma_two_names(cols, names(LOW_NAMES@));
    lemma_two_names(cols, names(CLOSE_NAMES@));
    lemma_two_names(cols, names(AMOUNT_NAMES@));
    let wanted = names(VOL_NAMES@);
    crate::table::law_first_name_counts(cols, wanted, 0, 0);
    assert(wanted[0] == "vol"@ && wanted[1] == "volume"@ && wanted[2] == "成交量"@);
    if any_position(cols, wanted) is None {
        assert forall|place: int| 0 <= place < cols.len() implies #[trigger] cols[place] != "vol"@
            && cols[place] != "volume"@ && cols[place] != "成交量"@ by {
            assert(cols[place] != wanted[0]);
            assert(cols[place] != wanted[1]);
            assert(cols[place] != wanted[2]);
        }
    } else {
        let p = any_position(cols, wanted)->0;
        assert(cols[p] == wanted[0] || cols[p] == wanted[1] || cols[p] == wanted[2]);
    }
}

/// The layout of a table: with a header, the one that its names in lower case
/// give, where it lacks none; without one, time, open, high, low, close and
/// volume in this order.
pub proof fn law_tables_have_a_layout(data: Seq<u8>)
    ensures
        table_layout(data, true) == Some(
            Layout { dt: 0, open: 1, high: 2, low: 3, close: 4, vol: 5, amount: 5 },
        ),
        header_fields(data) is None ==> table_layout(data, false) is None,
        header_fields(data) is Some ==> table_layout(data, false) == (if lacking(
            lowered(header_fields(data)->0),
        ) is None {
            Some(layout_in(lowered(header_fields(data)->0)))
        } else {
            None
        }),
{
}

/// All rows of a table count, after the header where it has one: each that gives a
/// bar has it among those of the table, at the place of its turn.
pub proof fn law_all_rows_of_a_table_count(
    data: Seq<u8>,
    no_header: bool,
    layout: Layout,
    r: int,
)
    requires
        0 <= r < row_fields(data, !no_header).len(),
    ensures
        ({
            let rows = row_fields(data, !no_header);
            let bars = all_bars(data, no_header, layout);
            let place = rows_with_bars(rows, layout, r);
            &&& bars.len() == rows_with_bars(rows, layout, rows.len() as int)
            &&& gives_a_bar(rows, layout, r) ==> 0 <= place < bars.len() && bars[place] == row_bar(
                rows[r],
                layout,
            )->0
        }),
        table_columns(data) is Some <==> header_fields(data) is Some,
        table_columns(data) is Some ==> table_columns(data)->0 == lowered(header_fields(data)->0),
{
    let rows = row_fields(data, !no_header);
    law_bars_come_row_by_row(rows, layout, rows.len() as int, r);
}

/// Of the columns that a header lacks, the first is told, in the order of time,
/// open, high, low, close and volume, with its names and with the columns that
/// are there.
pub proof fn law_first_missing_column_is_told(cols: Seq<Seq<char>>)
    ensures
        ({
            let dt = has_named(cols, "dt"@, "dt"@);
            let open = dt && has_named(cols, "open"@, "开盘"@);
            let high = open && has_named(cols, "high"@, "最高"@);
            let low = high && has_named(cols, "low"@, "最低"@);
            let close = low && has_named(cols, "close"@, "收盘"@);
            let told = |wanted: Seq<Seq<char>>|
                Some("CSV 缺少必需列 ("@ + joined(wanted, "/"@) + "), 可用列: "@ + joined(cols, ", "@));
            &&& !dt ==> lacking(cols) == Some(
                "CSV 缺少必需列: "@ + "dt"@ + "，可用列: "@ + joined(cols, ", "@),
            )
            &&& dt && !open ==> lacking(cols) == told(seq!["open"@, "开盘"@])
            &&& open && !high ==> lacking(cols) == told(seq!["high"@, "最高"@])
            &&& high && !low ==> lacking(cols) == told(seq!["low"@, "最低"@])
            &&& low && !close ==> lacking(cols) == told(seq!["close"@, "收盘"@])
            &&& close && lacking(cols) is Some ==> lacking(cols) == told(
                seq!["vol"@, "volume"@, "成交量"@],
            )
        }),
{
    crate::table::law_position_is_the_first(cols, DT_NAME@);
    assert(has_named(cols, "dt"@, "dt"@) <==> position_of(cols, DT_NAME@) is Some) by {
        if position_of(cols, DT_NAME@) is Some {
            assert(cols[position_of(cols, DT_NAME@)->0] == "dt"@);
        }
    }
    lemma_two_names(cols, names(OPEN_NAMES@));
    lemma_two_names(cols, names(HIGH_NAMES@));
    lemma_two_names(cols, names(LOW_NAMES@));
    lemma_two_names(cols, names(CLOSE_NAMES@));
    assert(names(OPEN_NAMES@) =~= seq!["open"@, "开盘"@]);
    assert(names(HIGH_NAMES@) =~= seq!["high"@, "最高"@]);
    assert(names(LOW_NAMES@) =~= seq!["low"@, "最低"@]);
    assert(names(CLOSE_NAMES@) =~= seq!["close"@, "收盘"@]);
    assert(names(VOL_NAMES@) =~= seq!["vol"@, "volume"@, "成交量"@]);
}

/// The bars of a table carry its symbol, the length asked for and their place.
pub proof fn law_bars_carry_their_place(bars: Seq<RawBar>, freq: Freq, i: int)
    requires
        are_tagged(bars, freq),
        0 <= i < bars.len(),
    ensures
        bar_tag(bars[i]).symbol == "CHAN"@,
        bar_tag(bars[i]).freq == freq,
        bar_tag(bars[i]).id == i as i32,
{
    assert(bar_tag(bars[i]) == (BarTag { symbol: SYMBOL@, freq, id: i as i32 }));
}

} // verus!
