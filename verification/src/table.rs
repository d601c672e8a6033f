//! Tables of comma-separated values: their header, their rows, and where a
//! column stands.
use crate::text::{lower, lowercase, names, texts};
use vstd::prelude::*;

verus! {

/// `csv`'s error.
#[verifier::external_type_specification]
#[verifier::external_body]
pub struct ExCsvError(csv::Error);

/// The fields that `csv` reads from the first row of a table, without the
/// white space around each; nothing where the row is not text.
pub uninterp spec fn header_fields(data: Seq<u8>) -> Option<Seq<Seq<char>>>;

/// The rows that `csv` reads from a table, each by its fields without the
/// white space around each; nothing for a row that is not text or has another
/// number of fields than the first row.
pub uninterp spec fn row_fields(data: Seq<u8>, has_headers: bool) -> Seq<Option<Seq<Seq<char>>>>;

/// The fields of a row that was read, or nothing for one that was not.
pub open spec fn row_view(row: Result<Vec<String>, csv::Error>) -> Option<Seq<Seq<char>>> {
    match row {
        Ok(fields) => Some(texts(fields@)),
        Err(_) => None,
    }
}

/// The fields of the rows of a list.
pub open spec fn row_views(rows: Seq<Result<Vec<String>, csv::Error>>) -> Seq<
    Option<Seq<Seq<char>>>,
> {
    Seq::new(rows.len(), |i: int| row_view(rows[i]))
}

/// `csv::Reader::headers`, with white space trimmed: the fields of the first
/// row, a function of the data alone.
#[verifier::external_body]
pub(crate) fn read_header(data: &[u8]) -> (header: Result<Vec<String>, csv::Error>)
    ensures
        row_view(header) == header_fields(data@),
{
    let mut reader = csv::ReaderBuilder::new().trim(csv::Trim::All).from_reader(data);
    reader.headers().map(|fields| fields.iter().map(|f| f.to_owned()).collect())
}

/// `csv::Reader::records`, with white space trimmed: the rows, after the first
/// where that is a header; a function of the data and of that alone.
#[verifier::external_body]
pub(crate) fn read_rows(data: &[u8], has_headers: bool) -> (rows: Vec<
    Result<Vec<String>, csv::Error>,
>)
    ensures
        row_views(rows@) == row_fields(data@, has_headers),
{
    csv::ReaderBuilder::new().trim(csv::Trim::All).has_headers(has_headers).from_reader(data)
        .records()
        .map(|row| row.map(|fields| fields.iter().map(|f| f.to_owned()).collect()))
        .collect()
}

/// The texts of a list in lower case.
pub open spec fn lowered(list: Seq<Seq<char>>) -> Seq<Seq<char>> {
    Seq::new(list.len(), |i: int| lowercase(list[i]))
}

/// Puts the texts of a list in lower case.
pub fn lower_all(list: &[String]) -> (low: Vec<String>)
    ensures
        texts(low@) == lowered(texts(list@)),
{
    let mut low: Vec<String> = Vec::new();
    let mut i: usize = 0;
    while i < list.len()
        invariant
            i <= list@.len(),
            low@.len() == i,
            forall|j: int| 0 <= j < i ==> #[trigger] low@[j]@ == lowercase(list@[j]@),
        decreases list@.len() - i,
    {
        low.push(lower(list[i].as_str()));
        i += 1;
    }
    assert(texts(low@) =~= lowered(texts(list@)));
    low
}

/// The first place from `from` on at which a text stands in a list.
pub open spec fn position_from(list: Seq<Seq<char>>, text: Seq<char>, from: int) -> Option<int>
    decreases list.len() - from,
{
    if from >= list.len() {
        None
    } else if list[from] == text {
        Some(from)
    } else {
        position_from(list, text, from + 1)
    }
}

/// The first place at which a text stands in a list.
pub open spec fn position_of(list: Seq<Seq<char>>, text: Seq<char>) -> Option<int> {
    position_from(list, text, 0)
}

/// The place of the first of some names that a list holds: names from `k` on.
pub open spec fn any_position_from(
    list: Seq<Seq<char>>,
    wanted: Seq<Seq<char>>,
    k: int,
) -> Option<int>
    decreases wanted.len() - k,
{
    if k >= wanted.len() {
        None
    } else if position_of(list, wanted[k]) is Some {
        position_of(list, wanted[k])
    } else {
        any_position_from(list, wanted, k + 1)
    }
}

/// The place of the first of some names that a list holds.
pub open spec fn any_position(list: Seq<Seq<char>>, wanted: Seq<Seq<char>>) -> Option<int> {
    any_position_from(list, wanted, 0)
}

/// Where a name stands first in a list.
pub fn position(list: &[String], name: &str) -> (place: Option<usize>)
    ensures
        match place {
            Some(p) => p < list@.len() && position_of(texts(list@), name@) == Some(p as int),
            None => position_of(texts(list@), name@) is None,
        },
{
    let mut i: usize = 0;
    while i < list.len()
        invariant
            i <= list@.len(),
            position_of(texts(list@), name@) == position_from(texts(list@), name@, i as int),
        decreases list@.len() - i,
    {
        assert(texts(list@)[i as int] == list@[i as int]@);
        if crate::text::same(list[i].as_str(), name) {
            return Some(i);
        }
        i += 1;
    }
    None
}

/// Where the first of some names that a list holds stands.
pub fn find_col(cols: &[String], wanted: &[&str]) -> (place: Option<usize>)
    ensures
        match place {
            Some(p) => p < cols@.len() && any_position(texts(cols@), names(wanted@)) == Some(
                p as int,
            ),
            None => any_position(texts(cols@), names(wanted@)) is None,
        },
{
    let mut k: usize = 0;
    while k < wanted.len()
        invariant
            k <= wanted@.len(),
            any_position(texts(cols@), names(wanted@)) == any_position_from(
                texts(cols@),
                names(wanted@),
                k as int,
            ),
        decreases wanted@.len() - k,
    {
        assert(names(wanted@)[k as int] == wanted@[k as int]@);
        if let Some(p) = position(cols, wanted[k]) {
            return Some(p);
        }
        k += 1;
    }
    None
}

/// A place that is found holds the text, and no earlier place does; where none
/// is found, none holds it.
pub proof fn law_position_is_the_first(list: Seq<Seq<char>>, text: Seq<char>)
    ensures
        match position_of(list, text) {
            Some(p) => 0 <= p < list.len() && list[p] == text && forall|j: int|
                0 <= j < p ==> #[trigger] list[j] != text,
            None => forall|j: int| 0 <= j < list.len() ==> #[trigger] list[j] != text,
        },
{
    lemma_position_from(list, text, 0);
}

proof fn lemma_position_from(list: Seq<Seq<char>>, text: Seq<char>, from: int)
    requires
        0 <= from,
    ensures
        match position_from(list, text, from) {
            Some(p) => from <= p < list.len() && list[p] == text && forall|j: int|
                from <= j < p ==> #[trigger] list[j] != text,
            None => forall|j: int| from <= j < list.len() ==> #[trigger] list[j] != text,
        },
    decreases list.len() - from,
{
    if from < list.len() && list[from] != text {
        lemma_position_from(list, text, from + 1);
    }
}

/// Of several names the first that a list holds counts, by the first place at
/// which it stands, whatever comes after it; without any of them there is none.
pub proof fn law_first_name_counts(list: Seq<Seq<char>>, wanted: Seq<Seq<char>>, k: int, p: int)
    ensures
        0 <= k < wanted.len() && 0 <= p < list.len() && list[p] == wanted[k] && (forall|j: int|
            0 <= j < p ==> #[trigger] list[j] != wanted[k]) && (forall|i: int, j: int|
            0 <= i < k && 0 <= j < list.len() ==> #[trigger] list[j] != #[trigger] wanted[i])
            ==> any_position(list, wanted) == Some(p),
        any_position(list, wanted) is Some ==> 0 <= any_position(list, wanted)->0 < list.len()
            && exists|i: int|
            0 <= i < wanted.len() && list[any_position(list, wanted)->0] == #[trigger] wanted[i],
        any_position(list, wanted) is None ==> forall|i: int, j: int|
            0 <= i < wanted.len() && 0 <= j < list.len() ==> #[trigger] list[j]
                != #[trigger] wanted[i],
{
    lemma_any_position(list, wanted, 0, k, p);
}

proof fn lemma_any_position(
    list: Seq<Seq<char>>,
    wanted: Seq<Seq<char>>,
    from: int,
    k: int,
    p: int,
)
    requires
        0 <= from,
    ensures
        from <= k < wanted.len() && 0 <= p < list.len() && list[p] == wanted[k] && (forall|j: int|
            0 <= j < p ==> #[trigger] list[j] != wanted[k]) && (forall|i: int, j: int|
            from <= i < k && 0 <= j < list.len() ==> #[trigger] list[j] != #[trigger] wanted[i])
            ==> any_position_from(list, wanted, from) == Some(p),
        any_position_from(list, wanted, from) is Some ==> 0 <= any_position_from(
            list,
            wanted,
            from,
        )->0 < list.len() && exists|i: int|
            from <= i < wanted.len() && list[any_position_from(list, wanted, from)->0]
                == #[trigger] wanted[i],
        any_position_from(list, wanted, from) is None ==> forall|i: int, j: int|
            from <= i < wanted.len() && 0 <= j < list.len() ==> #[trigger] list[j]
                != #[trigger] wanted[i],
    decreases wanted.len() - from,
{
    if from < wanted.len() {
        law_position_is_the_first(list, wanted[from]);
        lemma_any_position(list, wanted, from + 1, k, p);
    }
}

/// A list in lower case has every text in lower case, each in its place.
pub proof fn law_lists_are_lowered_in_place(list: Seq<Seq<char>>, i: int)
    requires
        0 <= i < list.len(),
    ensures
        lowered(list).len() == list.len(),
        lowered(list)[i] == lowercase(list[i]),
{
}

} // verus!
