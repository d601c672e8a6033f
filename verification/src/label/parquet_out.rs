//! The columns that labelled bars are written as.
use super::czsc::{bar_nanos, bar_views, read_bar, BarView};
use super::czsc_label::{ChanLabel, TIMEFRAMES};
use crate::number::Double;
use crate::time::nanos_since_epoch;
use czsc_core::objects::bar::RawBar;
use vstd::prelude::*;
use vstd::string::StringExecFns;

verus! {

/// How many columns there are.
pub const COLUMNS: usize = 44;

/// The first of the columns of the timeframes.
pub const FIRST_TF_COLUMN: usize = 7;

/// The column after those of the timeframes.
pub const END_TF_COLUMN: usize = 39;

/// The columns of a bar.
pub const BAR_COLUMNS: [&'static str; 7] = ["dt", "open", "close", "high", "low", "vol", "amount"];

/// The columns that every timeframe has.
pub const TF_FIELDS: [&'static str; 4] = ["has_top", "has_bottom", "bi_dir", "zs"];

/// The columns after those of the timeframes.
pub const LAST_COLUMNS: [&'static str; 5] = [
    "1m_bi_str",
    "1m_is_bsp",
    "1m_bsp_dir",
    "next_return",
    "return_label",
];

/// The name of a column.
pub open spec fn column_name(c: int) -> Seq<char> {
    if c < FIRST_TF_COLUMN {
        BAR_COLUMNS@[c]@
    } else if c < END_TF_COLUMN {
        TIMEFRAMES@[(c - FIRST_TF_COLUMN) / 4].0@ + "_"@ + TF_FIELDS@[(c - FIRST_TF_COLUMN) % 4]@
    } else {
        LAST_COLUMNS@[c - END_TF_COLUMN]@
    }
}

/// What a column holds in one row.
pub enum Cell {
    /// A whole number.
    Integer(i64),
    /// A number with fractions.
    Number(Option<int>),
    /// A count or a flag, written as a number with fractions.
    Count(int),
}

/// One of the four labels of a timeframe.
pub open spec fn tf_field(label: ChanLabel, k: int, field: int) -> int {
    if field == 0 {
        label.tf@[k].has_top as int
    } else if field == 1 {
        label.tf@[k].has_bottom as int
    } else if field == 2 {
        label.tf@[k].bi_dir as int
    } else {
        label.tf@[k].zs as int
    }
}

/// What a column holds of a bar and its label. A time that does not fit is
/// written as 0.
pub open spec fn cell(bar: BarView, label: ChanLabel, c: int) -> Cell {
    if c == 0 {
        Cell::Integer(
            match nanos_since_epoch(bar.time) {
                Some(n) => n,
                None => 0,
            },
        )
    } else if c == 1 {
        Cell::Number(bar.open)
    } else if c == 2 {
        Cell::Number(bar.close)
    } else if c == 3 {
        Cell::Number(bar.high)
    } else if c == 4 {
        Cell::Number(bar.low)
    } else if c == 5 {
        Cell::Number(bar.vol)
    } else if c == 6 {
        Cell::Number(bar.amount)
    } else if c < END_TF_COLUMN {
        Cell::Count(tf_field(label, (c - FIRST_TF_COLUMN) / 4, (c - FIRST_TF_COLUMN) % 4))
    } else if c == 39 {
        Cell::Number(label.bi_strength@)
    } else if c == 40 {
        Cell::Count(label.is_bsp as int)
    } else if c == 41 {
        Cell::Count(label.bsp_direction as int)
    } else if c == 42 {
        Cell::Number(label.next_return@)
    } else {
        Cell::Integer(label.return_label)
    }
}

/// The values of a column.
#[derive(Debug)]
pub enum Values {
    Integers(Vec<i64>),
    Numbers(Vec<Double>),
    Counts(Vec<u64>),
}

/// A column: its name and its values, one for each row.
#[derive(Debug)]
pub struct Column {
    pub name: String,
    pub values: Values,
}

/// Whether values are those of a column.
pub open spec fn are_values(
    values: Values,
    bars: Seq<BarView>,
    labels: Seq<ChanLabel>,
    c: int,
) -> bool {
    match values {
        Values::Integers(v) => v@.len() == bars.len() && forall|i: int|
            0 <= i < bars.len() ==> cell(bars[i], labels[i], c) == Cell::Integer(#[trigger] v@[i]),
        Values::Numbers(v) => v@.len() == bars.len() && forall|i: int|
            0 <= i < bars.len() ==> cell(bars[i], labels[i], c) == Cell::Number(
                (#[trigger] v@[i])@,
            ),
        Values::Counts(v) => v@.len() == bars.len() && forall|i: int|
            0 <= i < bars.len() ==> cell(bars[i], labels[i], c) == Cell::Count(
                #[trigger] v@[i] as int,
            ),
    }
}

fn name_column(c: usize) -> (name: String)
    requires
        c < COLUMNS,
    ensures
        name@ == column_name(c as int),
{
    if c < FIRST_TF_COLUMN {
        BAR_COLUMNS[c].to_owned()
    } else if c < END_TF_COLUMN {
        let (tf, _) = TIMEFRAMES[(c - FIRST_TF_COLUMN) / 4];
        let mut name: String = tf.to_owned();
        name.append("_");
        name.append(TF_FIELDS[(c - FIRST_TF_COLUMN) % 4]);
        name
    } else {
        LAST_COLUMNS[c - END_TF_COLUMN].to_owned()
    }
}

fn integer_values(bars: &[RawBar], labels: &[ChanLabel], c: usize) -> (values: Vec<i64>)
    requires
        bars@.len() == labels@.len(),
        c == 0 || c == 43,
    ensures
        are_values(Values::Integers(values), bar_views(bars@), labels@, c as int),
{
    let mut values: Vec<i64> = Vec::new();
    let mut i: usize = 0;
    while i < bars.len()
        invariant
            i <= bars@.len() == labels@.len(),
            c == 0 || c == 43,
            values@.len() == i,
            forall|j: int|
                0 <= j < i ==> cell(bar_views(bars@)[j], labels@[j], c as int) == Cell::Integer(
                    #[trigger] values@[j],
                ),
        decreases bars@.len() - i,
    {
        let value: i64 = if c == 0 {
            match bar_nanos(&bars[i]) {
                Some(n) => n,
                None => 0,
            }
        } else {
            labels[i].return_label
        };
        values.push(value);
        i += 1;
    }
    values
}

fn number_values(bars: &[RawBar], labels: &[ChanLabel], c: usize) -> (values: Vec<Double>)
    requires
        bars@.len() == labels@.len(),
        1 <= c <= 6 || c == 39 || c == 42,
    ensures
        are_values(Values::Numbers(values), bar_views(bars@), labels@, c as int),
{
    let mut values: Vec<Double> = Vec::new();
    let mut i: usize = 0;
    while i < bars.len()
        invariant
            i <= bars@.len() == labels@.len(),
            1 <= c <= 6 || c == 39 || c == 42,
            values@.len() == i,
            forall|j: int|
                0 <= j < i ==> cell(bar_views(bars@)[j], labels@[j], c as int) == Cell::Number(
                    (#[trigger] values@[j])@,
                ),
        decreases bars@.len() - i,
    {
        let bar = read_bar(&bars[i]);
        let value: Double = match c {
            1 => bar.open,
            2 => bar.close,
            3 => bar.high,
            4 => bar.low,
            5 => bar.vol,
            6 => bar.amount,
            39 => labels[i].bi_strength,
            _ => labels[i].next_return,
        };
        values.push(value);
        i += 1;
    }
    values
}

fn count_values(labels: &[ChanLabel], c: usize, Ghost(bars): Ghost<Seq<BarView>>) -> (values: Vec<
    u64,
>)
    requires
        bars.len() == labels@.len(),
        FIRST_TF_COLUMN <= c < END_TF_COLUMN || c == 40 || c == 41,
    ensures
        are_values(Values::Counts(values), bars, labels@, c as int),
{
    let mut values: Vec<u64> = Vec::new();
    let mut i: usize = 0;
    while i < labels.len()
        invariant
            i <= labels@.len() == bars.len(),
            FIRST_TF_COLUMN <= c < END_TF_COLUMN || c == 40 || c == 41,
            values@.len() == i,
            forall|j: int|
                0 <= j < i ==> cell(bars[j], labels@[j], c as int) == Cell::Count(
                    #[trigger] values@[j] as int,
                ),
        decreases labels@.len() - i,
    {
        let value: u64 = if c < END_TF_COLUMN {
            let tf = labels[i].tf[(c - FIRST_TF_COLUMN) / 4];
            match (c - FIRST_TF_COLUMN) % 4 {
                0 => tf.has_top as u64,
                1 => tf.has_bottom as u64,
                2 => tf.bi_dir as u64,
                _ => tf.zs as u64,
            }
        } else if c == 40 {
            labels[i].is_bsp as u64
        } else {
            labels[i].bsp_direction as u64
        };
        values.push(value);
        i += 1;
    }
    values
}

/// The columns of labelled bars, in the order in which they are written.
pub fn build_columns(bars: &[RawBar], labels: &[ChanLabel]) -> (columns: Vec<Column>)
    requires
        bars@.len() == labels@.len(),
    ensures
        columns@.len() == COLUMNS,
        forall|c: int|
            0 <= c < COLUMNS ==> (#[trigger] columns@[c]).name@ == column_name(c) && are_values(
                columns@[c].values,
                bar_views(bars@),
                labels@,
                c,
            ),
{
    let mut columns: Vec<Column> = Vec::new();
    let mut c: usize = 0;
    while c < COLUMNS
        invariant
            c <= COLUMNS,
            bars@.len() == labels@.len(),
            columns@.len() == c,
            forall|d: int|
                0 <= d < c ==> (#[trigger] columns@[d]).name@ == column_name(d) && are_values(
                    columns@[d].values,
                    bar_views(bars@),
                    labels@,
                    d,
                ),
        decreases COLUMNS - c,
    {
        let values = if c == 0 || c == 43 {
            Values::Integers(integer_values(bars, labels, c))
        } else if c < FIRST_TF_COLUMN || c == 39 || c == 42 {
            Values::Numbers(number_values(bars, labels, c))
        } else {
            Values::Counts(count_values(labels, c, Ghost(bar_views(bars@))))
        };
        columns.push(Column { name: name_column(c), values });
        c += 1;
    }
    columns
}

/// The names of the timeframes and what distinguishes them: their length and
/// their first two letters.
proof fn lemma_tf_letters(k: int)
    requires
        0 <= k < 8,
    ensures
        TIMEFRAMES@[k].0@.len() == (if k == 2 || k == 3 { 3int } else { 2int }),
        TIMEFRAMES@[k].0@[0] == seq!['1', '5', '1', '3', '1', '4', '1', '1'][k],
        TIMEFRAMES@[k].0@[1] == seq!['m', 'm', '5', '0', 'h', 'h', 'd', 'w'][k],
{
    reveal_strlit("1m");
    reveal_strlit("5m");
    reveal_strlit("15m");
    reveal_strlit("30m");
    reveal_strlit("1h");
    reveal_strlit("4h");
    reveal_strlit("1d");
    reveal_strlit("1w");
}

proof fn lemma_field_letters(f: int)
    requires
        0 <= f < 4,
    ensures
        TF_FIELDS@[f]@.len() == seq![7int, 10, 6, 2][f],
        TF_FIELDS@[f]@.last() == seq!['p', 'm', 'r', 's'][f],
        f == 2 ==> TF_FIELDS@[f]@[3] == 'd',
{
    reveal_strlit("has_top");
    reveal_strlit("has_bottom");
    reveal_strlit("bi_dir");
    reveal_strlit("zs");
}

proof fn lemma_tf_name_letters(c: int)
    requires
        FIRST_TF_COLUMN <= c < END_TF_COLUMN,
    ensures
        column_name(c).len() == TIMEFRAMES@[(c - FIRST_TF_COLUMN) / 4].0@.len() + 1
            + TF_FIELDS@[(c - FIRST_TF_COLUMN) % 4]@.len(),
        column_name(c)[0] == TIMEFRAMES@[(c - FIRST_TF_COLUMN) / 4].0@[0],
        column_name(c)[1] == TIMEFRAMES@[(c - FIRST_TF_COLUMN) / 4].0@[1],
        column_name(c).last() == TF_FIELDS@[(c - FIRST_TF_COLUMN) % 4]@.last(),
        (c - FIRST_TF_COLUMN) % 4 == 2 ==> column_name(c)[column_name(c).len() - 3] == 'd',
{
    lemma_tf_letters((c - FIRST_TF_COLUMN) / 4);
    lemma_field_letters((c - FIRST_TF_COLUMN) % 4);
    reveal_strlit("_");
}

proof fn lemma_plain_name_letters(c: int)
    requires
        0 <= c < FIRST_TF_COLUMN || END_TF_COLUMN <= c < COLUMNS,
    ensures
        c < FIRST_TF_COLUMN ==> column_name(c).len() == seq![2int, 4, 5, 4, 3, 3, 6][c]
            && column_name(c)[0] == seq!['d', 'o', 'c', 'h', 'l', 'v', 'a'][c],
        c >= END_TF_COLUMN ==> column_name(c).len() == seq![9int, 9, 10, 11, 12][c - END_TF_COLUMN]
            && column_name(c)[0] == seq!['1', '1', '1', 'n', 'r'][c - END_TF_COLUMN]
            && column_name(c)[1] == seq!['m', 'm', 'm', 'e', 'e'][c - END_TF_COLUMN]
            && column_name(c).last() == seq!['r', 'p', 'r', 'n', 'l'][c - END_TF_COLUMN],
        c == END_TF_COLUMN ==> column_name(c)[6] == 's',
{
    reveal_strlit("dt");
    reveal_strlit("open");
    reveal_strlit("close");
    reveal_strlit("high");
    reveal_strlit("low");
    reveal_strlit("vol");
    reveal_strlit("amount");
    reveal_strlit("1m_bi_str");
    reveal_strlit("1m_is_bsp");
    reveal_strlit("1m_bsp_dir");
    reveal_strlit("next_return");
    reveal_strlit("return_label");
}

/// No two columns have the same name.
pub proof fn law_column_names_are_distinct(c: int, d: int)
    requires
        0 <= c < d < COLUMNS,
    ensures
        column_name(c) != column_name(d),
{
    if FIRST_TF_COLUMN <= c < END_TF_COLUMN {
        lemma_tf_name_letters(c);
        lemma_tf_letters((c - FIRST_TF_COLUMN) / 4);
        lemma_field_letters((c - FIRST_TF_COLUMN) % 4);
    } else {
        lemma_plain_name_letters(c);
    }
    if FIRST_TF_COLUMN <= d < END_TF_COLUMN {
        lemma_tf_name_letters(d);
        lemma_tf_letters((d - FIRST_TF_COLUMN) / 4);
        lemma_field_letters((d - FIRST_TF_COLUMN) % 4);
    } else {
        lemma_plain_name_letters(d);
    }
}

/// The columns of a bar hold what their names say.
pub proof fn law_bar_columns_hold_the_bar(bar: BarView, label: ChanLabel)
    ensures
        column_name(0) == "dt"@ && cell(bar, label, 0) == Cell::Integer(
            if nanos_since_epoch(bar.time) is Some {
                nanos_since_epoch(bar.time)->0
            } else {
                0
            },
        ),
        column_name(1) == "open"@ && cell(bar, label, 1) == Cell::Number(bar.open),
        column_name(2) == "close"@ && cell(bar, label, 2) == Cell::Number(bar.close),
        column_name(3) == "high"@ && cell(bar, label, 3) == Cell::Number(bar.high),
        column_name(4) == "low"@ && cell(bar, label, 4) == Cell::Number(bar.low),
        column_name(5) == "vol"@ && cell(bar, label, 5) == Cell::Number(bar.vol),
        column_name(6) == "amount"@ && cell(bar, label, 6) == Cell::Number(bar.amount),
{
}

/// Every timeframe has four columns, named after it, that hold its four labels.
pub proof fn law_timeframe_columns_hold_its_labels(bar: BarView, label: ChanLabel, k: int)
    requires
        0 <= k < 8,
    ensures
        ({
            let name = TIMEFRAMES@[k].0@ + "_"@;
            let c = 7 + 4 * k;
            let tf = label.tf@[k];
            &&& column_name(c) == name + "has_top"@ && cell(bar, label, c) == Cell::Count(
                tf.has_top as int,
            )
            &&& column_name(c + 1) == name + "has_bottom"@ && cell(bar, label, c + 1)
                == Cell::Count(tf.has_bottom as int)
            &&& column_name(c + 2) == name + "bi_dir"@ && cell(bar, label, c + 2) == Cell::Count(
                tf.bi_dir as int,
            )
            &&& column_name(c + 3) == name + "zs"@ && cell(bar, label, c + 3) == Cell::Count(
                tf.zs as int,
            )
        }),
{
    let c = 7 + 4 * k;
    assert((c - 7) / 4 == k && (c - 7) % 4 == 0);
    assert((c + 1 - 7) / 4 == k && (c + 1 - 7) % 4 == 1);
    assert((c + 2 - 7) / 4 == k && (c + 2 - 7) % 4 == 2);
    assert((c + 3 - 7) / 4 == k && (c + 3 - 7) % 4 == 3);
}

/// The last five columns hold the strength, the point, which way it asks to
/// trade, the return and its class.
pub proof fn law_last_columns_hold_the_label(bar: BarView, label: ChanLabel)
    ensures
        column_name(39) == "1m_bi_str"@ && cell(bar, label, 39) == Cell::Number(label.bi_strength@),
        column_name(40) == "1m_is_bsp"@ && cell(bar, label, 40) == Cell::Count(label.is_bsp as int),
        column_name(41) == "1m_bsp_dir"@ && cell(bar, label, 41) == Cell::Count(
            label.bsp_direction as int,
        ),
        column_name(42) == "next_return"@ && cell(bar, label, 42) == Cell::Number(
            label.next_return@,
        ),
        column_name(43) == "return_label"@ && cell(bar, label, 43) == Cell::Integer(
            label.return_label,
        ),
{
}

/// The values of a column are the cells of its rows, one for each bar.
pub proof fn law_values_are_the_cells(
    values: Values,
    bars: Seq<BarView>,
    labels: Seq<ChanLabel>,
    c: int,
    i: int,
)
    requires
        are_values(values, bars, labels, c),
        0 <= i < bars.len(),
    ensures
        match values {
            Values::Integers(v) => v@.len() == bars.len() && cell(bars[i], labels[i], c)
                == Cell::Integer(v@[i]),
            Values::Numbers(v) => v@.len() == bars.len() && cell(bars[i], labels[i], c)
                == Cell::Number(v@[i]@),
            Values::Counts(v) => v@.len() == bars.len() && cell(bars[i], labels[i], c)
                == Cell::Count(v@[i] as int),
        },
{
    match values {
        Values::Integers(v) => {
            assert(cell(bars[i], labels[i], c) == Cell::Integer(v@[i]));
        },
        Values::Numbers(v) => {
            assert(cell(bars[i], labels[i], c) == Cell::Number(v@[i]@));
        },
        Values::Counts(v) => {
            assert(cell(bars[i], labels[i], c) == Cell::Count(v@[i] as int));
        },
    }
}

} // verus!
