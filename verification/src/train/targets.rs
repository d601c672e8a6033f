//! Rows of labelled bars, and which of their columns the model is shown and
//! which it is to give back.
use crate::label::czsc::BarView;
use crate::label::czsc_label::{no_labels, ChanLabel, TIMEFRAMES};
use crate::label::outlook::FutureReturn;
use crate::label::parquet_out::{
    cell, column_name, tf_field, Cell, COLUMNS, END_TF_COLUMN, FIRST_TF_COLUMN, TF_FIELDS,
};
use crate::label::replay::{is_label, tf_label};
use crate::model::multi_tf::{is_class_head, loss_kind_of, LossKind, DEFAULT_STRIDES};
use crate::number::{
    at_most, law_whole_numbers_stay, lemma_magnitude_order, truncated, unit, whole, Double,
};
use crate::text::{decimal, write_decimal};
use crate::train::sampling::window_bounds;
use vstd::prelude::*;
use vstd::string::StringExecFns;

verus! {

/// How many columns training needs.
pub const MIN_COLUMNS: usize = 40;

/// A file with too few columns.
#[derive(Debug)]
pub struct TooFewColumns {
    pub message: String,
}

/// Whether a file has enough columns to train on.
pub fn check_columns(columns: usize) -> (verdict: Result<(), TooFewColumns>)
    ensures
        match verdict {
            Ok(_) => columns >= MIN_COLUMNS,
            Err(e) => columns < MIN_COLUMNS && e.message@ == "列数不足: 检测到 "@ + decimal(
                columns as int,
            ) + " 列，需要 ≥40 列（多周期标注）"@,
        },
{
    if columns < MIN_COLUMNS {
        let mut message: String = "列数不足: 检测到 ".to_owned();
        message.append(write_decimal(columns).as_str());
        message.append(" 列，需要 ≥40 列（多周期标注）");
        return Err(TooFewColumns { message });
    }
    Ok(())
}

/// A row: the value of every column, with zero for one that is missing or
/// empty.
pub fn fill_row(cells: &[Option<Double>]) -> (row: [Double; 44])
    ensures
        forall|c: int|
            0 <= c < COLUMNS ==> #[trigger] row@[c] == (if c < cells@.len() && cells@[c] is Some {
                cells@[c]->0
            } else {
                Double { bits: 0 }
            }),
{
    let mut row: [Double; 44] = [Double::zero();44];
    let mut c: usize = 0;
    while c < COLUMNS && c < cells.len()
        invariant
            c <= COLUMNS,
            c <= cells@.len(),
            forall|d: int|
                0 <= d < c ==> #[trigger] row@[d] == (if cells@[d] is Some {
                    cells@[d]->0
                } else {
                    Double { bits: 0 }
                }),
            forall|d: int| c <= d < COLUMNS ==> (#[trigger] row@[d]).bits == 0,
        decreases COLUMNS - c,
    {
        if let Some(value) = cells[c] {
            row[c] = value;
        }
        c += 1;
    }
    row
}

/// The columns that the model is shown: open, high, low, close and volume.
pub const FEATURE_COLUMNS: [usize; 5] = [1, 3, 4, 2, 5];

/// The column that prices are divided by, in the last row of a window.
pub const BASE_COLUMN: usize = 2;

/// The column that is divided by its mean over a window.
pub const VOLUME_COLUMN: usize = 5;

/// What values are divided by.
pub open spec fn scale_of(number: Double) -> Double {
    if at_most(number@, Some(0int)) {
        Double { bits: crate::number::ONE_BITS }
    } else {
        number
    }
}

/// What values are divided by: the number itself, or one for a number that is
/// not above zero.
pub fn scale_or_one(number: Double) -> (scale: Double)
    ensures
        scale == scale_of(number),
        scale == (if at_most(number@, Some(0int)) {
            Double { bits: crate::number::ONE_BITS }
        } else {
            number
        }),
{
    if number.le(Double::zero()) {
        Double::one()
    } else {
        number
    }
}

/// The column that a head is to give back.
pub open spec fn target_column(head: int) -> Option<int> {
    if head == 0 {
        Some(43int)
    } else if 1 <= head <= 3 {
        Some(head + 6)
    } else if head == 4 {
        Some(39int)
    } else if head == 5 {
        Some(10int)
    } else if 6 <= head <= 7 {
        Some(head + 34)
    } else if 8 <= head <= 35 {
        Some(head + 3)
    } else {
        None
    }
}

/// What a head is to give back of a row; zero for a head without a column.
pub fn get_mtf_target(row: &[Double; 44], head: usize) -> (target: Double)
    ensures
        target == match target_column(head as int) {
            Some(c) => row@[c],
            None => Double { bits: 0 },
        },
{
    match head {
        0 => row[43],
        1 => row[7],
        2 => row[8],
        3 => row[9],
        4 => row[39],
        5 => row[10],
        6 => row[40],
        7 => row[41],
        _ => {
            if head > 35 {
                return Double::zero();
            }
            let tf: usize = (head - 8) / 4;
            let field: usize = (head - 8) % 4;
            row[11 + tf * 4 + field]
        },
    }
}

/// The class that a head is to give back of a row: the whole part of its
/// target.
pub fn class_target(row: &[Double; 44], head: usize) -> (class: i64)
    ensures
        class == match target_column(head as int) {
            Some(c) => truncated(row@[c]@),
            None => 0,
        },
{
    proof {
        lemma_magnitude_order(0, 0);
        law_whole_numbers_stay(0);
        assert(0 * unit() == 0);
    }
    get_mtf_target(row, head).to_integer()
}

/// Whether a row read back holds what was written of a label.
pub open spec fn holds_labels(row: Seq<Double>, bar: BarView, label: ChanLabel) -> bool {
    forall|c: int|
        FIRST_TF_COLUMN <= c < COLUMNS ==> match cell(bar, label, c) {
            Cell::Integer(v) => (#[trigger] row[c])@ == whole(v as int),
            Cell::Count(v) => row[c]@ == whole(v),
            Cell::Number(x) => row[c]@ == x,
        }
}

/// What a head over classes is to give back is the label that was written: for
/// the first head the return label, and for the others a direction.
pub proof fn law_class_targets_are_what_was_written(
    row: Seq<Double>,
    bar: BarView,
    label: ChanLabel,
    head: int,
)
    requires
        row.len() == COLUMNS,
        holds_labels(row, bar, label),
        0 <= head < 8 + 4 * DEFAULT_STRIDES@.len(),
        is_class_head(head),
    ensures
        truncated(row[target_column(head)->0]@) == (if head == 0 {
            label.return_label as int
        } else if head == 7 {
            label.bsp_direction as int
        } else if head == 3 {
            label.tf@[0].bi_dir as int
        } else {
            label.tf@[1 + (head - 8) / 4].bi_dir as int
        }),
{
    let c = target_column(head)->0;
    assert(row[c]@ == match cell(bar, label, c) {
        Cell::Integer(v) => whole(v as int),
        Cell::Count(v) => whole(v),
        Cell::Number(x) => x,
    });
    if head >= 8 {
        assert((c - FIRST_TF_COLUMN) / 4 == 1 + (head - 8) / 4);
        assert((c - FIRST_TF_COLUMN) % 4 == 2);
    }
    if head == 0 {
        law_whole_numbers_stay(label.return_label);
    } else if head == 7 {
        law_whole_numbers_stay(label.bsp_direction as i64);
    } else if head == 3 {
        law_whole_numbers_stay(label.tf@[0].bi_dir as i64);
    } else {
        law_whole_numbers_stay(label.tf@[1 + (head - 8) / 4].bi_dir as i64);
    }
}

/// What a head over a yes or a no, or over a number, is to give back is what was
/// written: the strength, a flag, or a number of zones.
pub proof fn law_number_targets_are_what_was_written(
    row: Seq<Double>,
    bar: BarView,
    label: ChanLabel,
    head: int,
)
    requires
        row.len() == COLUMNS,
        holds_labels(row, bar, label),
        0 <= head < 8 + 4 * DEFAULT_STRIDES@.len(),
        !is_class_head(head),
    ensures
        row[target_column(head)->0]@ == (if head == 4 {
            label.bi_strength@
        } else if head == 6 {
            whole(label.is_bsp as int)
        } else if head == 5 {
            whole(label.tf@[0].zs as int)
        } else if head < 8 {
            whole(tf_field(label, 0, head - 1))
        } else {
            whole(tf_field(label, 1 + (head - 8) / 4, (head - 8) % 4))
        }),
{
    let c = target_column(head)->0;
    assert(row[c]@ == match cell(bar, label, c) {
        Cell::Integer(v) => whole(v as int),
        Cell::Count(v) => whole(v),
        Cell::Number(x) => x,
    });
    if head >= 8 {
        assert((c - FIRST_TF_COLUMN) / 4 == 1 + (head - 8) / 4);
        assert((c - FIRST_TF_COLUMN) % 4 == (head - 8) % 4);
    }
}

/// The row that the targets of a window come from: its last.
pub open spec fn target_row(rows: Seq<[Double; 44]>, window: usize, seq_len: usize) -> Seq<Double> {
    rows[window + seq_len - 1]@
}

/// Whether windows lie within so many rows.
pub open spec fn are_windows(windows: Seq<usize>, seq_len: usize, rows: int) -> bool {
    forall|w: int| 0 <= w < windows.len() ==> #[trigger] windows[w] + seq_len <= rows
}

/// What a head is to give back for some windows: for each that of its last row.
pub fn number_targets(
    rows: &[[Double; 44]],
    windows: &[usize],
    seq_len: usize,
    head: usize,
) -> (targets: Vec<Double>)
    requires
        seq_len > 0,
        are_windows(windows@, seq_len, rows@.len() as int),
    ensures
        targets@.len() == windows@.len(),
        forall|w: int|
            0 <= w < targets@.len() ==> #[trigger] targets@[w] == match target_column(head as int) {
                Some(c) => target_row(rows@, windows@[w], seq_len)[c],
                None => Double { bits: 0 },
            },
{
    let mut targets: Vec<Double> = Vec::new();
    let n: usize = rows.len();
    let mut w: usize = 0;
    while w < windows.len()
        invariant
            w <= windows@.len(),
            n == rows@.len(),
            seq_len > 0,
            are_windows(windows@, seq_len, rows@.len() as int),
            targets@.len() == w,
            forall|v: int|
                0 <= v < w ==> #[trigger] targets@[v] == match target_column(head as int) {
                    Some(c) => target_row(rows@, windows@[v], seq_len)[c],
                    None => Double { bits: 0 },
                },
        decreases windows@.len() - w,
    {
        assert(windows@[w as int] + seq_len <= n);
        let (_, end) = window_bounds(windows[w], seq_len);
        targets.push(get_mtf_target(&rows[end], head));
        w += 1;
    }
    targets
}

/// The classes that a head is to give back for some windows: for each that of
/// its last row.
pub fn class_targets(
    rows: &[[Double; 44]],
    windows: &[usize],
    seq_len: usize,
    head: usize,
) -> (classes: Vec<i64>)
    requires
        seq_len > 0,
        are_windows(windows@, seq_len, rows@.len() as int),
    ensures
        classes@.len() == windows@.len(),
        forall|w: int|
            0 <= w < classes@.len() ==> #[trigger] classes@[w] == match target_column(head as int) {
                Some(c) => truncated(target_row(rows@, windows@[w], seq_len)[c]@),
                None => 0,
            },
{
    let mut classes: Vec<i64> = Vec::new();
    let n: usize = rows.len();
    let mut w: usize = 0;
    while w < windows.len()
        invariant
            w <= windows@.len(),
            n == rows@.len(),
            seq_len > 0,
            are_windows(windows@, seq_len, rows@.len() as int),
            classes@.len() == w,
            forall|v: int|
                0 <= v < w ==> #[trigger] classes@[v] == match target_column(head as int) {
                    Some(c) => truncated(target_row(rows@, windows@[v], seq_len)[c]@),
                    None => 0,
                },
        decreases windows@.len() - w,
    {
        assert(windows@[w as int] + seq_len <= n);
        let (_, end) = window_bounds(windows[w], seq_len);
        classes.push(class_target(&rows[end], head));
        w += 1;
    }
    classes
}

/// Every head of the default pyramid has a column, and no two have the same.
pub proof fn law_heads_have_columns_of_their_own(a: int, b: int)
    requires
        0 <= a < b < 8 + 4 * DEFAULT_STRIDES@.len(),
    ensures
        target_column(a) matches Some(c) && FIRST_TF_COLUMN <= c < COLUMNS,
        target_column(b) matches Some(d) && FIRST_TF_COLUMN <= d < COLUMNS,
        target_column(a) != target_column(b),
{
}

/// The heads of a level give back the four labels of the level's timeframe,
/// and those of the first eight the return and the labels of one minute.
pub proof fn law_heads_give_back_their_timeframe(head: int)
    requires
        0 <= head < 8 + 4 * DEFAULT_STRIDES@.len(),
    ensures
        target_column(head) is Some,
        head >= 8 ==> column_name(target_column(head)->0) == TIMEFRAMES@[1 + (head - 8) / 4].0@
            + "_"@ + TF_FIELDS@[(head - 8) % 4]@,
        1 <= head <= 3 ==> column_name(target_column(head)->0) == TIMEFRAMES@[0].0@ + "_"@
            + TF_FIELDS@[head - 1]@,
        head == 5 ==> column_name(target_column(head)->0) == TIMEFRAMES@[0].0@ + "_"@
            + TF_FIELDS@[3]@,
        head == 0 ==> column_name(target_column(head)->0) == "return_label"@,
        head == 4 ==> column_name(target_column(head)->0) == "1m_bi_str"@,
        head == 6 ==> column_name(target_column(head)->0) == "1m_is_bsp"@,
        head == 7 ==> column_name(target_column(head)->0) == "1m_bsp_dir"@,
{
    if head >= 8 {
        let c = target_column(head)->0;
        assert((c - FIRST_TF_COLUMN) / 4 == 1 + (head - 8) / 4);
        assert((c - FIRST_TF_COLUMN) % 4 == (head - 8) % 4);
    }
}

/// What a head is to give back suits what it is trained by: a head over
/// classes is to give one of three, and one over a yes or a no is to give a 0
/// or a 1.
pub proof fn law_targets_suit_the_loss(
    bar: BarView,
    label: ChanLabel,
    bars: Seq<BarView>,
    limit: nat,
    i: int,
    stated: FutureReturn,
    head: int,
)
    requires
        is_label(label, bars, limit, i, stated),
        0 <= stated.return_label <= 2,
        0 <= head < 8 + 4 * DEFAULT_STRIDES@.len(),
    ensures
        loss_kind_of(head) == LossKind::CrossEntropy ==> match cell(
            bar,
            label,
            target_column(head)->0,
        ) {
            Cell::Integer(v) => 0 <= v < 3,
            Cell::Count(v) => 0 <= v < 3,
            Cell::Number(_) => false,
        },
        loss_kind_of(head) == LossKind::BinaryCrossEntropy ==> match cell(
            bar,
            label,
            target_column(head)->0,
        ) {
            Cell::Count(v) => 0 <= v <= 1,
            _ => false,
        },
{
    let c = target_column(head)->0;
    if c < END_TF_COLUMN {
        let k = (c - FIRST_TF_COLUMN) / 4;
        assert(0 <= k < 8);
        assert(label.tf@[k] == if i == 0 { no_labels() } else { tf_label(bars, limit, k, i) });
        assert(head >= 8 ==> (c - FIRST_TF_COLUMN) % 4 == (head - 8) % 4);
    }
}

/// The model is shown the open, the high, the low, the close and the volume
/// of a bar, in this order.
pub proof fn law_features_are_the_prices()
    ensures
        column_name(FEATURE_COLUMNS@[0] as int) == "open"@,
        column_name(FEATURE_COLUMNS@[1] as int) == "high"@,
        column_name(FEATURE_COLUMNS@[2] as int) == "low"@,
        column_name(FEATURE_COLUMNS@[3] as int) == "close"@,
        column_name(FEATURE_COLUMNS@[4] as int) == "vol"@,
        column_name(BASE_COLUMN as int) == "close"@,
        column_name(VOLUME_COLUMN as int) == "vol"@,
{
}

/// The row that a window aims at is the last of its rows.
pub proof fn law_windows_aim_at_their_last_row(
    rows: Seq<[Double; 44]>,
    window: usize,
    seq_len: usize,
)
    requires
        seq_len > 0,
        window + seq_len <= rows.len(),
    ensures
        target_row(rows, window, seq_len) == rows.subrange(
            window as int,
            window + seq_len,
        ).last()@,
        seq_len == 1 ==> target_row(rows, window, seq_len) == rows[window as int]@,
{
}

/// Heads past the default pyramid have no column.
pub proof fn law_further_heads_have_no_column(head: int)
    requires
        head >= 8 + 4 * DEFAULT_STRIDES@.len(),
    ensures
        target_column(head) is None,
{
}

/// Values are divided by the number itself where it is above zero, and by one
/// where it is zero or below: a scale is never zero and never turns a sign.
pub proof fn law_scales_are_above_zero(number: Double)
    ensures
        number@ is Some && number@->0 > 0 ==> scale_of(number) == number,
        number@ is Some && number@->0 <= 0 ==> scale_of(number)@ == whole(1),
        number@ is Some ==> scale_of(number)@ is Some && scale_of(number)@->0 > 0,
        number@ is None ==> scale_of(number)@ is None,
{
    crate::number::law_one_and_one_half();
    vstd::arithmetic::power2::lemma_pow2_pos(1074);
}

} // verus!
