//! The table of fields that listing a report shows.
use vstd::prelude::*;
use vstd::slice::slice_subrange;

use crate::decode::{decode_error, decoded_value, lemma_zero_bytes_decode_to_zero, DecodeError};
use crate::layout::{FieldKind, FieldLayout, ReportLayout};
use crate::text::{hex_bytes, hex_text};

verus! {

/// The name of a usage in the HID Usage Tables, as `page / usage`, where
/// the tables know it.
pub uninterp spec fn usage_name_of(page: u16, id: u16) -> Option<Seq<char>>;

/// Relies on `hut::Usage::new_from_page_and_id`, which looks a usage up in
/// the HID Usage Tables, and on the `Display` of `hut::UsagePage` and
/// `hut::Usage`, which print the names from those tables: the text depends
/// on the page and the id alone.
#[verifier::external_body]
fn usage_name(page: u16, id: u16) -> (r: Option<String>)
    ensures
        match r {
            Some(s) => usage_name_of(page, id) == Some(s@),
            None => usage_name_of(page, id) is None,
        },
{
    match hut::Usage::new_from_page_and_id(page, id) {
        Err(_) => None,
        Ok(u) => Some(format!("{} / {}", hut::UsagePage::from(&u), u)),
    }
}

/// One line of the field table.
#[derive(Clone, Debug)]
pub struct FieldRow {
    /// The Report ID of the report the field belongs to.
    pub report_id: Option<u8>,
    /// The usage's name, or a placeholder.
    pub usage: String,
    /// The field's width in bits.
    pub bits: usize,
    /// The field's first bit.
    pub bit_first: usize,
    /// The field's last bit.
    pub bit_last: usize,
    pub minimum: i32,
    /// The logical maximum, its bits read as unsigned.
    pub maximum: u32,
    /// The number of elements: the report count of an array, else 1.
    pub count: usize,
    /// The decoded value (of the first element, for an array).
    pub value: i32,
    /// The bytes that hold the field, as hexadecimal pairs.
    pub bytes: String,
}

/// The usage text of a row: the usage's name for a variable field, or
/// `<unknown>` where the tables do not know it; array usages are not
/// resolved.
pub open spec fn usage_label(f: FieldLayout) -> Seq<char> {
    if f.kind is Array {
        "<not implemented>"@
    } else {
        match usage_name_of(f.usage_page, f.usage_id) {
            Some(s) => s,
            None => "<unknown>"@,
        }
    }
}

/// Why a row for `f` cannot be made from `len` bytes, if it cannot. A field
/// of another kind is skipped, which is no error.
pub open spec fn row_error(f: FieldLayout, len: int) -> Option<DecodeError> {
    if f.kind is Other {
        None
    } else if decode_error(f, len) is Some {
        decode_error(f, len)
    } else if f.last_byte() >= len {
        Some(DecodeError::BufferTooShort)
    } else {
        None
    }
}

/// `row` shows field `f` of the report with ID `report_id`, read from
/// `values`.
pub open spec fn row_shows(row: FieldRow, report_id: Option<u8>, f: FieldLayout, values: Seq<u8>) -> bool {
    &&& row.report_id == report_id
    &&& row.usage@ == usage_label(f)
    &&& row.bits == f.bit_end - f.bit_start
    &&& row.bit_first == f.bit_start
    &&& row.bit_last == f.bit_end - 1
    &&& row.minimum == f.logical_minimum
    &&& row.maximum == f.logical_maximum as u32
    &&& row.count == if f.kind is Array {
        f.report_count
    } else {
        1
    }
    &&& row.value == decoded_value(f, values)
    &&& row.bytes@ == hex_text(values.subrange(f.first_byte(), f.last_byte() + 1))
}

/// The usage text of a field's row.
fn usage_text(f: &FieldLayout) -> (r: String)
    ensures
        r@ == usage_label(*f),
{
    match f.kind {
        FieldKind::Array => String::from_str("<not implemented>"),
        _ => match usage_name(f.usage_page, f.usage_id) {
            Some(s) => s,
            None => String::from_str("<unknown>"),
        },
    }
}

/// The row that shows field `f` of a report with ID `report_id`, read from
/// the report's `values`. A field that is neither variable nor array gives
/// no row; one whose value or bytes lie outside `values` gives an error.
pub fn field_row(report_id: Option<u8>, f: &FieldLayout, values: &[u8]) -> (r: Result<
    Option<FieldRow>,
    DecodeError,
>)
    requires
        f.wf(),
    ensures
        f.kind is Other ==> r == Ok::<Option<FieldRow>, DecodeError>(None),
        match row_error(*f, values@.len() as int) {
            Some(e) => r == Err::<Option<FieldRow>, DecodeError>(e),
            None => r is Ok,
        },
        r matches Ok(None) ==> f.kind is Other,
        r matches Ok(Some(row)) ==> !(f.kind is Other) && row_shows(row, report_id, *f, values@),
{
    if let FieldKind::Other = f.kind {
        return Ok(None);
    }
    let value = f.decode(values)?;
    let (first, last) = f.byte_window();
    if last >= values.len() {
        return Err(DecodeError::BufferTooShort);
    }
    let window = slice_subrange(values, first, last + 1);
    let count = match f.kind {
        FieldKind::Array => f.report_count,
        _ => 1,
    };
    Ok(
        Some(
            FieldRow {
                report_id,
                usage: usage_text(f),
                bits: f.bit_end - f.bit_start,
                bit_first: f.bit_start,
                bit_last: f.bit_end - 1,
                minimum: f.logical_minimum,
                maximum: f.logical_maximum as u32,
                count,
                value,
                bytes: hex_bytes(window),
            },
        ),
    )
}

/// The rows of every field of a report, in field order, read from the
/// report's `values`: `None` for a field that is skipped. The first field
/// that cannot be shown fails the whole report.
pub fn report_rows(report: &ReportLayout, values: &[u8]) -> (r: Result<
    Vec<Option<FieldRow>>,
    DecodeError,
>)
    requires
        report.wf(),
    ensures
        r is Ok <==> forall|i: int|
            0 <= i < report.fields@.len() ==> (#[trigger] row_error(
                report.fields@[i],
                values@.len() as int,
            )) is None,
        r matches Err(e) ==> exists|i: int|
            0 <= i < report.fields@.len() && row_error(report.fields@[i], values@.len() as int)
                == Some(e) && forall|j: int|
                0 <= j < i ==> (#[trigger] row_error(
                    report.fields@[j],
                    values@.len() as int,
                )) is None,
        r matches Ok(rows) ==> rows@.len() == report.fields@.len() && forall|i: int|
            0 <= i < rows@.len() ==> match #[trigger] rows@[i] {
                None => report.fields@[i].kind is Other,
                Some(row) => !(report.fields@[i].kind is Other) && row_shows(
                    row,
                    report.report_id,
                    report.fields@[i],
                    values@,
                ),
            },
{
    let mut rows: Vec<Option<FieldRow>> = Vec::new();
    let mut i: usize = 0;
    while i < report.fields.len()
        invariant
            report.wf(),
            i <= report.fields@.len(),
            rows@.len() == i,
            forall|j: int|
                0 <= j < i ==> (#[trigger] row_error(
                    report.fields@[j],
                    values@.len() as int,
                )) is None,
            forall|j: int|
                0 <= j < i ==> match #[trigger] rows@[j] {
                    None => report.fields@[j].kind is Other,
                    Some(row) => !(report.fields@[j].kind is Other) && row_shows(
                        row,
                        report.report_id,
                        report.fields@[j],
                        values@,
                    ),
                },
        decreases report.fields@.len() - i,
    {
        let f = &report.fields[i];
        assert(f.wf());
        match field_row(report.report_id, f, values) {
            Ok(row) => rows.push(row),
            Err(e) => {
                return Err(e);
            },
        }
        i = i + 1;
    }
    Ok(rows)
}

/// The row of a variable field read from report bytes that are all zero
/// shows the value zero, whatever the field's sign.
pub proof fn lemma_zero_bytes_row(row: FieldRow, report_id: Option<u8>, f: FieldLayout, values: Seq<u8>)
    requires
        f.wf(),
        f.kind is Variable,
        row_error(f, values.len() as int) is None,
        forall|i: int| 0 <= i < values.len() ==> values[i] == 0,
        row_shows(row, report_id, f, values),
    ensures
        row.value == 0,
{
    lemma_zero_bytes_decode_to_zero(f, values);
}

} // verus!
