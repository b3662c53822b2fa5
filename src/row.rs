//! Rows of an origin/destination table: finding columns, and rescaling a row's cells.
//!
//! A row is the list of its (column name, raw cell text) pairs, in column order. Cells are never
//! guessed to be numbers before it is known which column they belong to: the origin and
//! destination columns stay text even where they look numeric (`"007"`).

use vstd::prelude::*;
use crate::quantity::{decimal_of, pow10, pow10_u64, read_number, reading_of, text_value, Quantity, Reading};

verus! {

/// One table row: (column name, cell text) pairs.
pub type Row = Vec<(String, String)>;

/// Column `i` is the first one named `name`.
pub open spec fn is_first_column(row: Seq<(String, String)>, name: Seq<char>, i: int) -> bool {
    0 <= i < row.len() && row[i].0@ == name && forall|j: int|
        0 <= j < i ==> (#[trigger] row[j]).0@ != name
}

pub open spec fn has_column(row: Seq<(String, String)>, name: Seq<char>) -> bool {
    exists|i: int| 0 <= i < row.len() && (#[trigger] row[i]).0@ == name
}

/// The text of the first column named `name`, if any.
pub open spec fn cell(row: Seq<(String, String)>, name: Seq<char>) -> Option<String> {
    if has_column(row, name) {
        Some(row[choose|i: int| is_first_column(row, name, i)].1)
    } else {
        None
    }
}

pub proof fn lemma_first_column_unique(row: Seq<(String, String)>, name: Seq<char>, i: int)
    requires
        is_first_column(row, name, i),
    ensures
        has_column(row, name),
        (choose|k: int| is_first_column(row, name, k)) == i,
        cell(row, name) == Some(row[i].1),
{
    assert(row[i].0@ == name);
    let k = choose|k: int| is_first_column(row, name, k);
    assert(is_first_column(row, name, k));
    if k < i {
        assert(row[k].0@ != name);
    } else if k > i {
        assert(row[i].0@ != name);
    }
}

/// The index of the first column named `name`.
pub fn find_column(row: &Row, name: &String) -> (r: Option<usize>)
    ensures
        r is Some ==> is_first_column(row@, name@, r.unwrap() as int),
        r is None ==> !has_column(row@, name@),
{
    let mut i: usize = 0;
    while i < row.len()
        invariant
            i <= row@.len(),
            forall|j: int| 0 <= j < i ==> (#[trigger] row@[j]).0@ != name@,
        decreases row@.len() - i,
    {
        if row[i].0 == *name {
            return Some(i);
        }
        i = i + 1;
    }
    None
}

/// The text of the first column named `name`.
pub fn get_cell<'a>(row: &'a Row, name: &String) -> (r: Option<&'a String>)
    ensures
        r is Some <==> has_column(row@, name@),
        r is Some ==> cell(row@, name@) == Some(*r.unwrap()),
{
    match find_column(row, name) {
        Some(i) => {
            proof {
                lemma_first_column_unique(row@, name@, i as int);
            }
            Some(&row[i].1)
        },
        None => None,
    }
}

/// The share of a number cell that each of `parts` records carries: the number that `text`
/// writes, divided by `parts`.
#[derive(Clone, Debug)]
pub struct Share {
    pub text: String,
    pub parts: u64,
}

impl Share {
    /// The value as a fraction (numerator, positive denominator).
    pub open spec fn value(self) -> (int, int) {
        (text_value(self.text@).0, text_value(self.text@).1 * self.parts)
    }
}

/// A cell of an output record: text as it was read, or a share of a number.
#[derive(Clone, Debug)]
pub enum Property {
    Text(String),
    Number(Share),
}

/// What a cell becomes in each of the `parts` records made from its row: origin and destination
/// columns stay text; a number is divided by `parts`; any other text is kept.
pub open spec fn rescaled(
    name: Seq<char>,
    value: String,
    origin_key: Seq<char>,
    destination_key: Seq<char>,
    parts: u64,
) -> Property {
    if name == origin_key || name == destination_key {
        Property::Text(value)
    } else if decimal_of(value@) is Some {
        Property::Number(Share { text: value, parts })
    } else {
        Property::Text(value)
    }
}

/// The properties of each record made from `row` when it is split into `parts` records.
pub fn rescale_row(row: &Row, origin_key: &String, destination_key: &String, parts: u64) -> (r: Vec<
    (String, Property),
>)
    ensures
        r@.len() == row@.len(),
        forall|i: int|
            0 <= i < row@.len() ==> (#[trigger] r@[i]).0 == row@[i].0 && r@[i].1 == rescaled(
                row@[i].0@,
                row@[i].1,
                origin_key@,
                destination_key@,
                parts,
            ),
{
    let mut out: Vec<(String, Property)> = Vec::new();
    let mut i: usize = 0;
    while i < row.len()
        invariant
            i <= row@.len(),
            out@.len() == i,
            forall|j: int|
                0 <= j < i ==> (#[trigger] out@[j]).0 == row@[j].0 && out@[j].1 == rescaled(
                    row@[j].0@,
                    row@[j].1,
                    origin_key@,
                    destination_key@,
                    parts,
                ),
        decreases row@.len() - i,
    {
        let name = &row[i].0;
        let value = &row[i].1;
        let property = if *name == *origin_key || *name == *destination_key {
            Property::Text(value.clone())
        } else {
            match read_number(value.as_str()) {
                Reading::Text => Property::Text(value.clone()),
                _ => Property::Number(Share { text: value.clone(), parts }),
            }
        };
        out.push((name.clone(), property));
        i = i + 1;
    }
    out
}

/// How many whole trips a count stands for: the count rounded toward zero, and none for a
/// negative count.
pub open spec fn whole_trips(q: Quantity) -> nat {
    if q.negative {
        0
    } else {
        (q.digits as nat / pow10(q.scale as nat)) as nat
    }
}

pub fn whole_trip_count(q: &Quantity) -> (r: u64)
    requires
        q.wf(),
    ensures
        r as nat == whole_trips(*q),
{
    if q.negative {
        return 0;
    }
    let p = pow10_u64(q.scale);
    proof {
        crate::quantity::lemma_pow10_positive(q.scale as nat);
    }
    q.digits / p
}

/// The mode columns of a row, in order, with the number of whole trips in each: every column but
/// the origin and destination whose cell is a number. The count is `None` for a number that does
/// not fit a `Quantity`.
pub open spec fn mode_columns(
    row: Seq<(String, String)>,
    origin_key: Seq<char>,
    destination_key: Seq<char>,
) -> Seq<(String, Option<nat>)>
    decreases row.len(),
{
    if row.len() == 0 {
        Seq::empty()
    } else {
        let init = mode_columns(row.drop_last(), origin_key, destination_key);
        let (name, value) = row.last();
        if name@ == origin_key || name@ == destination_key {
            init
        } else {
            match reading_of(value@) {
                Reading::Text => init,
                Reading::Exact(q) => init.push((name, Some(whole_trips(q)))),
                Reading::OutOfRange => init.push((name, None)),
            }
        }
    }
}

pub open spec fn count_of(c: Option<u64>) -> Option<nat> {
    match c {
        Some(n) => Some(n as nat),
        None => None,
    }
}

/// `mode_columns` as an executable function.
pub fn mode_counts(row: &Row, origin_key: &String, destination_key: &String) -> (r: Vec<(String, Option<u64>)>)
    ensures
        r@.len() == mode_columns(row@, origin_key@, destination_key@).len(),
        forall|i: int|
            0 <= i < r@.len() ==> (#[trigger] r@[i]).0 == mode_columns(
                row@,
                origin_key@,
                destination_key@,
            )[i].0 && count_of(r@[i].1) == mode_columns(row@, origin_key@, destination_key@)[i].1,
{
    let mut out: Vec<(String, Option<u64>)> = Vec::new();
    let mut i: usize = 0;
    while i < row.len()
        invariant
            i <= row@.len(),
            out@.len() == mode_columns(row@.subrange(0, i as int), origin_key@, destination_key@).len(),
            forall|j: int|
                0 <= j < out@.len() ==> (#[trigger] out@[j]).0 == mode_columns(
                    row@.subrange(0, i as int),
                    origin_key@,
                    destination_key@,
                )[j].0 && count_of(out@[j].1) == mode_columns(
                    row@.subrange(0, i as int),
                    origin_key@,
                    destination_key@,
                )[j].1,
        decreases row@.len() - i,
    {
        let ghost before = row@.subrange(0, i as int);
        let ghost after = row@.subrange(0, i + 1);
        assert(after.drop_last() =~= before);
        let name = &row[i].0;
        let value = &row[i].1;
        if !(*name == *origin_key || *name == *destination_key) {
            match read_number(value.as_str()) {
                Reading::Text => {},
                Reading::Exact(q) => {
                    let n = whole_trip_count(&q);
                    out.push((name.clone(), Some(n)));
                },
                Reading::OutOfRange => {
                    out.push((name.clone(), None));
                },
            }
        }
        i = i + 1;
    }
    assert(row@.subrange(0, row@.len() as int) =~= row@);
    out
}

} // verus!
