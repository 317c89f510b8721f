//! Mapping one relational row onto a typed asset record. The column order is
//! a fixed positional contract with the query text: pk, external identifier,
//! kind, content-type identifier, kind subtype, directory, filename, the
//! three raw timestamps (created, modified, added), height and width.

use vstd::prelude::*;
use crate::kind::PhotoKind;
use crate::timestamp::{decode, spec_decode, DecodeError, Instant};

verus! {

/// How many columns the visible-asset query selects.
pub const ROW_WIDTH: usize = 12;

/// One column value of a relational row, reduced to the shapes the mapper
/// reads. `Other` stands for any shape it has no use for, such as a blob or
/// a floating-point value.
#[derive(Debug, Clone)]
pub enum ColumnValue {
    Integer(i64),
    Text(String),
    Null,
    Other,
}

impl ColumnValue {
    /// The characters of a text column.
    pub open spec fn text_value(self) -> Seq<char> {
        self->Text_0@
    }

    /// The value of an integer column.
    pub open spec fn int_value(self) -> i64 {
        self->Integer_0
    }
}

/// Which of the three timestamp columns failed to decode.
#[derive(Debug, Clone, Copy, PartialEq, Eq, Structural)]
pub enum TimestampField {
    Created,
    Modified,
    Added,
}

/// Why a single row failed to map. A mapping failure is scoped to its row:
/// it never touches any other row of the same stream.
#[derive(Debug, Clone)]
pub enum MappingError {
    /// The row does not have exactly the twelve queried columns.
    WrongColumnCount { got: usize },
    /// The column at this position is missing or has the wrong shape.
    BadColumn { index: usize },
    /// A timestamp column failed to decode; carries the field's name and the
    /// row's filename for context.
    BadTimestamp { field: TimestampField, error: DecodeError, filename: String },
}

/// One visible asset, as mapped from one row. Immutable once constructed.
#[derive(Debug, Clone)]
pub struct Photo {
    pub pk: i64,
    pub uuid: String,
    pub kind: PhotoKind,
    pub uniform_type_identifier: String,
    pub kind_subtype: i64,
    pub directory: String,
    pub filename: String,
    pub created: Instant,
    pub modified: Instant,
    pub added: Instant,
    pub height: i32,
    pub width: i32,
}

/// The shape the column at position `j` must have: integers for pk and kind
/// subtype, machine-width integers for kind, height and width, text for the
/// rest (identifiers, paths and the raw timestamps).
pub open spec fn col_shape_ok(c: ColumnValue, j: int) -> bool {
    if j == 0 || j == 4 {
        c is Integer
    } else if j == 2 || j == 10 || j == 11 {
        c is Integer && i32::MIN <= c->Integer_0 <= i32::MAX
    } else {
        c is Text
    }
}

/// Every one of the twelve columns has its expected shape.
pub open spec fn shapes_ok(row: Seq<ColumnValue>) -> bool {
    forall|j: int| 0 <= j < 12 ==> col_shape_ok(#[trigger] row[j], j)
}

/// The position of the first ill-shaped column at or after `j`, or 12.
pub open spec fn first_bad_col(row: Seq<ColumnValue>, j: int) -> int
    decreases 12 - j when 0 <= j <= 12
{
    if j >= 12 {
        12
    } else if !col_shape_ok(row[j], j) {
        j
    } else {
        first_bad_col(row, j + 1)
    }
}

/// A row that maps to a record: twelve columns, each of its shape, and all
/// three timestamps decode.
pub open spec fn row_wf(row: Seq<ColumnValue>) -> bool {
    &&& row.len() == 12
    &&& shapes_ok(row)
    &&& spec_decode(row[7].text_value()) is Ok
    &&& spec_decode(row[8].text_value()) is Ok
    &&& spec_decode(row[9].text_value()) is Ok
}

/// What `map_row` returns for a row: the fully mapped record, or the one
/// error that describes the first thing wrong with the row.
pub open spec fn row_maps_to(row: Seq<ColumnValue>, r: Result<Photo, MappingError>) -> bool {
    if row.len() != 12 {
        r matches Err(MappingError::WrongColumnCount { got }) && got as int == row.len() as int
    } else if !shapes_ok(row) {
        r matches Err(MappingError::BadColumn { index }) && index as int == first_bad_col(row, 0)
    } else if spec_decode(row[7].text_value()) is Err {
        r matches Err(MappingError::BadTimestamp { field, error, filename })
            && field == TimestampField::Created
            && spec_decode(row[7].text_value()) == Err::<Instant, DecodeError>(error)
            && filename@ == row[6].text_value()
    } else if spec_decode(row[8].text_value()) is Err {
        r matches Err(MappingError::BadTimestamp { field, error, filename })
            && field == TimestampField::Modified
            && spec_decode(row[8].text_value()) == Err::<Instant, DecodeError>(error)
            && filename@ == row[6].text_value()
    } else if spec_decode(row[9].text_value()) is Err {
        r matches Err(MappingError::BadTimestamp { field, error, filename })
            && field == TimestampField::Added
            && spec_decode(row[9].text_value()) == Err::<Instant, DecodeError>(error)
            && filename@ == row[6].text_value()
    } else {
        r matches Ok(p)
            && p.pk == row[0].int_value()
            && p.uuid@ == row[1].text_value()
            && p.kind == PhotoKind::spec_from_i32(row[2].int_value() as i32)
            && p.uniform_type_identifier@ == row[3].text_value()
            && p.kind_subtype == row[4].int_value()
            && p.directory@ == row[5].text_value()
            && p.filename@ == row[6].text_value()
            && spec_decode(row[7].text_value()) == Ok::<Instant, DecodeError>(p.created)
            && spec_decode(row[8].text_value()) == Ok::<Instant, DecodeError>(p.modified)
            && spec_decode(row[9].text_value()) == Ok::<Instant, DecodeError>(p.added)
            && p.height == row[10].int_value() as i32
            && p.width == row[11].int_value() as i32
    }
}

fn check_shape(c: &ColumnValue, j: usize) -> (r: bool)
    ensures
        r == col_shape_ok(*c, j as int),
{
    if j == 0 || j == 4 {
        match c {
            ColumnValue::Integer(_) => true,
            _ => false,
        }
    } else if j == 2 || j == 10 || j == 11 {
        match c {
            ColumnValue::Integer(v) => i32::MIN as i64 <= *v && *v <= i32::MAX as i64,
            _ => false,
        }
    } else {
        match c {
            ColumnValue::Text(_) => true,
            _ => false,
        }
    }
}

fn take_text(c: &ColumnValue) -> (r: String)
    requires
        *c is Text,
    ensures
        r@ == c.text_value(),
{
    match c {
        ColumnValue::Text(s) => s.clone(),
        _ => {
            proof {
                assert(false);
            }
            String::new()
        },
    }
}

fn take_int(c: &ColumnValue) -> (r: i64)
    requires
        *c is Integer,
    ensures
        r == c.int_value(),
{
    match c {
        ColumnValue::Integer(v) => *v,
        _ => {
            proof {
                assert(false);
            }
            0
        },
    }
}

/// Maps one row of the visible-asset query onto a record.
///
/// Returns the record when the row is well formed; otherwise the error names
/// the first thing wrong: the column count, the first ill-shaped column, or
/// the first timestamp field that does not decode, with the row's filename.
pub fn map_row(row: &Vec<ColumnValue>) -> (r: Result<Photo, MappingError>)
    ensures
        row_maps_to(row@, r),
        r is Ok <==> row_wf(row@),
        r matches Ok(p) ==> p.created.wf() && p.modified.wf() && p.added.wf(),
{
    if row.len() != ROW_WIDTH {
        return Err(MappingError::WrongColumnCount { got: row.len() });
    }
    let mut j: usize = 0;
    while j < ROW_WIDTH
        invariant
            row@.len() == 12,
            0 <= j <= 12,
            forall|k: int| 0 <= k < j ==> col_shape_ok(#[trigger] row@[k], k),
            first_bad_col(row@, 0) == first_bad_col(row@, j as int),
        decreases ROW_WIDTH - j,
    {
        if !check_shape(&row[j], j) {
            proof {
                assert(first_bad_col(row@, j as int) == j);
            }
            return Err(MappingError::BadColumn { index: j });
        }
        j += 1;
    }
    proof {
        assert(shapes_ok(row@));
    }
    let filename = take_text(&row[6]);
    let created = match decode(take_text(&row[7]).as_str()) {
        Ok(i) => i,
        Err(e) => {
            return Err(MappingError::BadTimestamp {
                field: TimestampField::Created,
                error: e,
                filename,
            });
        },
    };
    let modified = match decode(take_text(&row[8]).as_str()) {
        Ok(i) => i,
        Err(e) => {
            return Err(MappingError::BadTimestamp {
                field: TimestampField::Modified,
                error: e,
                filename,
            });
        },
    };
    let added = match decode(take_text(&row[9]).as_str()) {
        Ok(i) => i,
        Err(e) => {
            return Err(MappingError::BadTimestamp {
                field: TimestampField::Added,
                error: e,
                filename,
            });
        },
    };
    Ok(Photo {
        pk: take_int(&row[0]),
        uuid: take_text(&row[1]),
        kind: PhotoKind::from_i32(take_int(&row[2]) as i32),
        uniform_type_identifier: take_text(&row[3]),
        kind_subtype: take_int(&row[4]),
        directory: take_text(&row[5]),
        filename,
        created,
        modified,
        added,
        height: take_int(&row[10]) as i32,
        width: take_int(&row[11]) as i32,
    })
}

/// Maps a drained sequence of rows, one result per row, in order.
///
/// Each element is mapped independently: a row that fails yields its own
/// error and leaves every other row's result untouched.
pub fn map_rows(rows: &Vec<Vec<ColumnValue>>) -> (r: Vec<Result<Photo, MappingError>>)
    ensures
        r@.len() == rows@.len(),
        forall|i: int| 0 <= i < rows@.len() ==> row_maps_to(#[trigger] rows@[i]@, r@[i]),
{
    let mut out: Vec<Result<Photo, MappingError>> = Vec::new();
    let mut i: usize = 0;
    while i < rows.len()
        invariant
            0 <= i <= rows@.len(),
            out@.len() == i,
            forall|k: int| 0 <= k < i ==> row_maps_to(#[trigger] rows@[k]@, out@[k]),
        decreases rows@.len() - i,
    {
        let r = map_row(&rows[i]);
        out.push(r);
        i += 1;
    }
    out
}

/// Mapping keeps each row's primary key in place: when the pk column of two
/// rows ascends, the two mapped records' pks ascend the same way. Applied
/// along a whole stream this is the order guarantee: rows delivered in
/// strictly ascending pk order map to records in strictly ascending pk order.
pub proof fn lemma_mapping_preserves_pk_order(
    rows: Seq<Seq<ColumnValue>>,
    out: Seq<Result<Photo, MappingError>>,
    i: int,
    j: int,
)
    requires
        out.len() == rows.len(),
        forall|k: int| 0 <= k < rows.len() ==> row_maps_to(#[trigger] rows[k], out[k]),
        0 <= i < j < rows.len(),
        out[i] is Ok,
        out[j] is Ok,
        rows[i][0].int_value() < rows[j][0].int_value(),
    ensures
        out[i]->Ok_0.pk < out[j]->Ok_0.pk,
{
    assert(row_maps_to(rows[i], out[i]));
    assert(row_maps_to(rows[j], out[j]));
}

} // verus!
