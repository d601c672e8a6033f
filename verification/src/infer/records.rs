//! The bars that a model is shown, as the table writes them.
use crate::label::csv_reader::{CLOSE_NAMES, DT_NAME, HIGH_NAMES, LOW_NAMES, OPEN_NAMES, VOL_NAMES};
use crate::label::czsc::{is_number, number_of};
use crate::label::parquet_out::column_name;
use crate::table::{
    any_position, find_col, header_fields, lower_all, lowered, position, position_of, read_header,
    read_rows, row_fields, row_views,
};
use crate::text::{names, texts};
use crate::train::targets::FEATURE_COLUMNS;
use vstd::prelude::*;

verus! {

/// A bar, by the texts of its fields: a time, and numerals.
#[derive(Debug)]
pub struct OhlcvRecord {
    pub dt: String,
    pub open: String,
    pub high: String,
    pub low: String,
    pub close: String,
    pub vol: String,
}

/// The texts of a bar.
pub struct OhlcvView {
    pub dt: Seq<char>,
    pub open: Seq<char>,
    pub high: Seq<char>,
    pub low: Seq<char>,
    pub close: Seq<char>,
    pub vol: Seq<char>,
}

impl View for OhlcvRecord {
    type V = OhlcvView;

    open spec fn view(&self) -> OhlcvView {
        OhlcvView {
            dt: self.dt@,
            open: self.open@,
            high: self.high@,
            low: self.low@,
            close: self.close@,
            vol: self.vol@,
        }
    }
}

impl OhlcvRecord {
    /// The texts that the model is shown, in order.
    pub fn features(&self) -> (texts: [&str; 5])
        ensures
            texts@[0]@ == self.open@,
            texts@[1]@ == self.high@,
            texts@[2]@ == self.low@,
            texts@[3]@ == self.close@,
            texts@[4]@ == self.vol@,
    {
        [
            self.open.as_str(),
            self.high.as_str(),
            self.low.as_str(),
            self.close.as_str(),
            self.vol.as_str(),
        ]
    }
}

/// Where the columns of a table stand.
#[derive(Clone, Copy, Debug, PartialEq, Eq, Structural)]
pub struct Places {
    pub dt: usize,
    pub open: usize,
    pub high: usize,
    pub low: usize,
    pub close: usize,
    pub vol: usize,
}

/// A place that was found, or else another.
pub open spec fn place_or(found: Option<int>, other: usize) -> usize {
    match found {
        Some(p) => p as usize,
        None => other,
    }
}

/// The places of the columns that a header names; a column that it does not
/// name stands where it stands in a table of dt, open, high, low, close, vol.
pub open spec fn places_in(cols: Seq<Seq<char>>) -> Places {
    Places {
        dt: place_or(position_of(cols, DT_NAME@), 0),
        open: place_or(any_position(cols, names(OPEN_NAMES@)), 1),
        high: place_or(any_position(cols, names(HIGH_NAMES@)), 2),
        low: place_or(any_position(cols, names(LOW_NAMES@)), 3),
        close: place_or(any_position(cols, names(CLOSE_NAMES@)), 4),
        vol: place_or(any_position(cols, names(VOL_NAMES@)), 5),
    }
}

fn found_or(found: Option<usize>, other: usize) -> (place: usize)
    ensures
        place == match found {
            Some(p) => p,
            None => other,
        },
{
    match found {
        Some(p) => p,
        None => other,
    }
}

/// The places of the columns that a header in lower case names.
pub fn find_places(cols: &[String]) -> (places: Places)
    ensures
        places == places_in(texts(cols@)),
{
    Places {
        dt: found_or(position(cols, DT_NAME), 0),
        open: found_or(find_col(cols, &OPEN_NAMES), 1),
        high: found_or(find_col(cols, &HIGH_NAMES), 2),
        low: found_or(find_col(cols, &LOW_NAMES), 3),
        close: found_or(find_col(cols, &CLOSE_NAMES), 4),
        vol: found_or(find_col(cols, &VOL_NAMES), 5),
    }
}

/// A field of a row, or else another text.
pub open spec fn field_or(row: Seq<Seq<char>>, place: usize, other: Seq<char>) -> Seq<char> {
    if place < row.len() {
        row[place as int]
    } else {
        other
    }
}

/// A text that is a numeral, or else that of zero.
pub open spec fn numeral_or_zero(text: Seq<char>) -> Seq<char> {
    if number_of(text) is Some {
        text
    } else {
        "0"@
    }
}

/// The numeral of a field: that of zero for a field that is missing or that is
/// no numeral.
pub open spec fn numeral_at(row: Seq<Seq<char>>, place: usize) -> Seq<char> {
    numeral_or_zero(field_or(row, place, "0"@))
}

/// The bar of a row. A number that is missing or cannot be read counts as zero.
pub open spec fn record_of(row: Seq<Seq<char>>, places: Places) -> OhlcvView {
    OhlcvView {
        dt: field_or(row, places.dt, ""@),
        open: numeral_at(row, places.open),
        high: numeral_at(row, places.high),
        low: numeral_at(row, places.low),
        close: numeral_at(row, places.close),
        vol: numeral_at(row, places.vol),
    }
}

fn copy_field(row: &Vec<String>, place: usize, other: &str) -> (text: String)
    ensures
        text@ == field_or(texts(row@), place, other@),
{
    if place < row.len() {
        row[place].as_str().to_owned()
    } else {
        other.to_owned()
    }
}

fn copy_numeral(row: &Vec<String>, place: usize) -> (text: String)
    ensures
        text@ == numeral_at(texts(row@), place),
{
    let text = copy_field(row, place, "0");
    if is_number(text.as_str()) {
        text
    } else {
        "0".to_owned()
    }
}

/// The bar of a row.
pub fn record_from_row(row: &Vec<String>, places: Places) -> (record: OhlcvRecord)
    ensures
        record@ == record_of(texts(row@), places),
{
    OhlcvRecord {
        dt: copy_field(row, places.dt, ""),
        open: copy_numeral(row, places.open),
        high: copy_numeral(row, places.high),
        low: copy_numeral(row, places.low),
        close: copy_numeral(row, places.close),
        vol: copy_numeral(row, places.vol),
    }
}

/// Why a table gives no records.
#[derive(Debug)]
pub enum TableError {
    /// The header or a row cannot be read.
    Unreadable(csv::Error),
    /// There is no row.
    NoData,
}

/// Whether every row could be read.
pub open spec fn all_read(rows: Seq<Option<Seq<Seq<char>>>>) -> bool {
    forall|i: int| 0 <= i < rows.len() ==> #[trigger] rows[i] is Some
}

/// The records of rows; the first row that could not be read is an error.
pub fn records_from_rows(
    rows: Vec<Result<Vec<String>, csv::Error>>,
    places: Places,
) -> (read: Result<Vec<OhlcvRecord>, TableError>)
    ensures
        match read {
            Ok(records) => {
                &&& all_read(row_views(rows@))
                &&& records@.len() == rows@.len() > 0
                &&& forall|i: int|
                    0 <= i < records@.len() ==> (#[trigger] records@[i])@ == record_of(
                        row_views(rows@)[i]->0,
                        places,
                    )
            },
            Err(TableError::Unreadable(_)) => !all_read(row_views(rows@)),
            Err(TableError::NoData) => rows@.len() == 0,
        },
{
    let ghost all = rows@;
    let mut rows = rows;
    let mut records: Vec<OhlcvRecord> = Vec::new();
    let mut bad: Option<usize> = None;
    let mut i: usize = 0;
    while i < rows.len() && bad.is_none()
        invariant
            i <= rows@.len(),
            rows@ == all,
            bad is None ==> records@.len() == i,
            bad is None ==> forall|j: int|
                0 <= j < i ==> (#[trigger] all[j]) is Ok && records@[j]@ == record_of(
                    row_views(all)[j]->0,
                    places,
                ),
            bad matches Some(b) ==> b < all.len() && all[b as int] is Err,
        decreases rows@.len() - i,
    {
        match &rows[i] {
            Ok(row) => {
                records.push(record_from_row(row, places));
            },
            Err(_) => {
                bad = Some(i);
            },
        }
        i += 1;
    }
    match bad {
        Some(b) => {
            assert(row_views(all)[b as int] is None);
            match rows.swap_remove(b) {
                Ok(_) => Err(TableError::NoData),
                Err(e) => Err(TableError::Unreadable(e)),
            }
        },
        None => {
            assert forall|j: int| 0 <= j < row_views(all).len() implies #[trigger] row_views(
                all,
            )[j] is Some by {
                assert(all[j] is Ok);
            }
            if records.len() == 0 {
                Err(TableError::NoData)
            } else {
                Ok(records)
            }
        },
    }
}

/// Reads the records of a table with a header.
pub fn read_ohlcv_csv(data: &[u8]) -> (read: Result<Vec<OhlcvRecord>, TableError>)
    ensures
        match read {
            Ok(records) => {
                &&& header_fields(data@) matches Some(header)
                &&& all_read(row_fields(data@, true))
                &&& records@.len() == row_fields(data@, true).len() > 0
                &&& forall|i: int|
                    0 <= i < records@.len() ==> (#[trigger] records@[i])@ == record_of(
                        row_fields(data@, true)[i]->0,
                        places_in(lowered(header)),
                    )
            },
            Err(TableError::Unreadable(_)) => header_fields(data@) is None || !all_read(
                row_fields(data@, true),
            ),
            Err(TableError::NoData) => header_fields(data@) is Some && row_fields(
                data@,
                true,
            ).len() == 0,
        },
{
    let header = match read_header(data) {
        Ok(h) => h,
        Err(e) => return Err(TableError::Unreadable(e)),
    };
    let cols = lower_all(header.as_slice());
    let places = find_places(cols.as_slice());
    let rows = read_rows(data, true);
    assert(row_views(rows@).len() == rows@.len());
    records_from_rows(rows, places)
}

/// A model is shown the same values when it is run as when it is trained: the
/// columns of training, in order, have the names by which those of a table are
/// found.
pub proof fn law_features_are_those_of_training()
    ensures
        column_name(FEATURE_COLUMNS@[0] as int) == OPEN_NAMES@[0]@,
        column_name(FEATURE_COLUMNS@[1] as int) == HIGH_NAMES@[0]@,
        column_name(FEATURE_COLUMNS@[2] as int) == LOW_NAMES@[0]@,
        column_name(FEATURE_COLUMNS@[3] as int) == CLOSE_NAMES@[0]@,
        column_name(FEATURE_COLUMNS@[4] as int) == VOL_NAMES@[0]@,
{
}

/// A column stands where the header names it, and a column that it does not name
/// where it stands in a table of dt, open, high, low, close and vol.
pub proof fn law_columns_stand_where_they_are_named(cols: Seq<Seq<char>>)
    requires
        cols.len() <= usize::MAX,
    ensures
        ({
            let places = places_in(cols);
            let stands = |place: usize, wanted: Seq<Seq<char>>, other: usize|
                if any_position(cols, wanted) is Some {
                    0 <= place < cols.len() && any_position(cols, wanted) == Some(place as int)
                } else {
                    place == other
                };
            &&& position_of(cols, "dt"@) is Some ==> position_of(cols, "dt"@) == Some(
                places.dt as int,
            )
            &&& position_of(cols, "dt"@) is None ==> places.dt == 0
            &&& stands(places.open, names(OPEN_NAMES@), 1)
            &&& stands(places.high, names(HIGH_NAMES@), 2)
            &&& stands(places.low, names(LOW_NAMES@), 3)
            &&& stands(places.close, names(CLOSE_NAMES@), 4)
            &&& stands(places.vol, names(VOL_NAMES@), 5)
        }),
{
    crate::table::law_position_is_the_first(cols, DT_NAME@);
    crate::table::law_first_name_counts(cols, names(OPEN_NAMES@), 0, 0);
    crate::table::law_first_name_counts(cols, names(HIGH_NAMES@), 0, 0);
    crate::table::law_first_name_counts(cols, names(LOW_NAMES@), 0, 0);
    crate::table::law_first_name_counts(cols, names(CLOSE_NAMES@), 0, 0);
    crate::table::law_first_name_counts(cols, names(VOL_NAMES@), 0, 0);
}

/// A record holds the fields of its row, each from its own place: the text of the
/// time, and the numerals, with that of zero in place of one that is missing or
/// cannot be read.
pub proof fn law_records_hold_their_fields(row: Seq<Seq<char>>, places: Places)
    ensures
        ({
            let record = record_of(row, places);
            let holds = |text: Seq<char>, place: usize|
                if place < row.len() && number_of(row[place as int]) is Some {
                    text == row[place as int]
                } else {
                    text == "0"@
                };
            &&& places.dt < row.len() ==> record.dt == row[places.dt as int]
            &&& places.dt >= row.len() ==> record.dt.len() == 0
            &&& holds(record.open, places.open)
            &&& holds(record.high, places.high)
            &&& holds(record.low, places.low)
            &&& holds(record.close, places.close)
            &&& holds(record.vol, places.vol)
        }),
{
    reveal_strlit("");
}

/// Every row could be read if and only if there is none that could not.
pub proof fn law_one_unreadable_row_is_enough(rows: Seq<Option<Seq<Seq<char>>>>, i: int)
    requires
        0 <= i < rows.len(),
    ensures
        all_read(rows) ==> rows[i] is Some,
        rows[i] is None ==> !all_read(rows),
        rows.len() == 1 && rows[i] is Some ==> all_read(rows),
        all_read(rows.drop_last()) && rows.last() is Some ==> all_read(rows),
{
    if all_read(rows.drop_last()) && rows.last() is Some {
        assert forall|j: int| 0 <= j < rows.len() implies #[trigger] rows[j] is Some by {
            if j < rows.len() - 1 {
                assert(rows.drop_last()[j] is Some);
            }
        }
    }
}

/// A record shows the texts of its own fields.
pub proof fn law_records_show_their_texts(record: OhlcvRecord)
    ensures
        record@.dt == record.dt@,
        record@.open == record.open@,
        record@.high == record.high@,
        record@.low == record.low@,
        record@.close == record.close@,
        record@.vol == record.vol@,
{
}

} // verus!
