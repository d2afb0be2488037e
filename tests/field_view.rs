use hid_feature::decode::DecodeError;
use hid_feature::layout::{FieldKind, FieldLayout, ReportLayout};
use hid_feature::rows::{field_row, report_rows};
use hid_feature::text::{decimal, hex_bytes};

fn field(kind: FieldKind, bit_start: usize, bit_end: usize, logical_minimum: i32) -> FieldLayout {
    FieldLayout {
        kind,
        bit_start,
        bit_end,
        logical_minimum,
        logical_maximum: 255,
        report_count: 1,
        // a reserved id of the Generic Desktop page
        usage_page: 0x01,
        usage_id: 0x03,
    }
}

fn variable(bit_start: usize, bit_end: usize) -> FieldLayout {
    field(FieldKind::Variable, bit_start, bit_end, 0)
}

#[test]
fn byte_window_of_unaligned_field() {
    assert_eq!(variable(4, 12).byte_window(), (0, 1));
    assert_eq!(variable(8, 16).byte_window(), (1, 1));
    assert_eq!(variable(15, 17).byte_window(), (1, 2));
}

#[test]
fn byte_window_lies_in_report() {
    let report = ReportLayout {
        report_id: None,
        size_in_bytes: 3,
        fields: vec![variable(0, 1), variable(7, 9), variable(16, 24)],
    };
    for f in report.fields.iter() {
        let (first, last) = f.byte_window();
        assert!(first <= last);
        assert!(last < report.size_in_bytes);
    }
}

#[test]
fn transfer_size_adds_id_slot_without_report_id() {
    let mut report = ReportLayout { report_id: None, size_in_bytes: 8, fields: vec![] };
    assert_eq!(report.transfer_size(), 9);
    report.report_id = Some(3);
    assert_eq!(report.transfer_size(), 8);
}

#[test]
fn nibbles_decode_lowest_bits_first() {
    let bytes = [0xa5u8];
    assert_eq!(variable(4, 8).decode(&bytes), Ok(0xa));
    assert_eq!(variable(0, 4).decode(&bytes), Ok(0x5));
}

#[test]
fn multi_byte_field_is_little_endian() {
    let bytes = [0x00u8, 0x34, 0x12];
    assert_eq!(variable(8, 24).decode(&bytes), Ok(0x1234));
    assert_eq!(variable(4, 20).decode(&bytes), Ok(0x2340));
}

#[test]
fn aligned_byte_reads_the_byte() {
    let bytes = [0x11u8, 0xc8, 0x22];
    assert_eq!(variable(8, 16).decode(&bytes), Ok(0xc8));
}

#[test]
fn signed_field_is_sign_extended() {
    assert_eq!(field(FieldKind::Variable, 4, 8, -8).decode(&[0xf0]), Ok(-1));
    assert_eq!(field(FieldKind::Variable, 0, 8, -128).decode(&[0x80]), Ok(-128));
    assert_eq!(field(FieldKind::Variable, 0, 8, -128).decode(&[0x7f]), Ok(127));
    assert_eq!(field(FieldKind::Variable, 0, 8, 0).decode(&[0x80]), Ok(128));
}

#[test]
fn full_width_pattern_reads_as_i32() {
    let bytes = [0xffu8, 0xff, 0xff, 0xff];
    assert_eq!(variable(0, 32).decode(&bytes), Ok(-1));
}

#[test]
fn zero_bytes_decode_to_zero() {
    let bytes = [0u8; 6];
    for (s, e) in [(0usize, 1usize), (3, 17), (8, 40), (13, 45)] {
        assert_eq!(variable(s, e).decode(&bytes), Ok(0));
        assert_eq!(field(FieldKind::Variable, s, e, -5).decode(&bytes), Ok(0));
    }
}

#[test]
fn short_buffer_is_an_error() {
    assert_eq!(variable(8, 24).decode(&[0, 1]), Err(DecodeError::BufferTooShort));
    assert_eq!(variable(0, 8).decode(&[]), Err(DecodeError::BufferTooShort));
}

#[test]
fn other_kinds_and_bad_widths_are_refused() {
    assert_eq!(field(FieldKind::Other, 0, 8, 0).decode(&[1]), Err(DecodeError::NotDecodable));
    assert_eq!(variable(0, 33).decode(&[0; 8]), Err(DecodeError::UnsupportedWidth));
    let mut empty = field(FieldKind::Array, 0, 8, 0);
    empty.report_count = 0;
    assert_eq!(empty.decode(&[1]), Err(DecodeError::EmptyArray));
}

#[test]
fn array_decodes_first_element() {
    let mut arr = field(FieldKind::Array, 0, 16, 0);
    arr.report_count = 2;
    assert_eq!(arr.decode(&[7, 9]), Ok(7));
    // only the first element needs to be in the buffer
    assert_eq!(arr.decode(&[7]), Ok(7));
}

#[test]
fn hex_bytes_are_lowercase_pairs() {
    assert_eq!(hex_bytes(&[0x0a, 0xff, 0x00]), "0a ff 00");
    assert_eq!(hex_bytes(&[0x4a]), "4a");
    assert_eq!(hex_bytes(&[]), "");
}

#[test]
fn decimal_numbers() {
    assert_eq!(decimal(0), "0");
    assert_eq!(decimal(7), "7");
    assert_eq!(decimal(255), "255");
    assert_eq!(decimal(4096), "4096");
}

#[test]
fn row_of_known_usage_is_named() {
    let mut f = variable(8, 16);
    f.usage_page = 0x01;
    f.usage_id = 0x02;
    let row = field_row(Some(2), &f, &[2, 0x2a]).unwrap().unwrap();
    assert_eq!(row.usage, "Generic Desktop / Mouse");
    assert_eq!(row.report_id, Some(2));
    assert_eq!(row.bits, 8);
    assert_eq!(row.bit_first, 8);
    assert_eq!(row.bit_last, 15);
    assert_eq!(row.value, 42);
    assert_eq!(row.count, 1);
    assert_eq!(row.bytes, "2a");
}

#[test]
fn row_of_unknown_usage_has_placeholder() {
    let mut f = field(FieldKind::Variable, 4, 12, -1);
    f.logical_maximum = -1;
    let row = field_row(None, &f, &[0xf0, 0x0f]).unwrap().unwrap();
    assert_eq!(row.usage, "<unknown>");
    assert_eq!(row.maximum, u32::MAX);
    assert_eq!(row.minimum, -1);
    assert_eq!(row.value, -1);
    assert_eq!(row.bytes, "f0 0f");
}

#[test]
fn array_row_usage_not_resolved() {
    let mut f = field(FieldKind::Array, 0, 24, 0);
    f.report_count = 3;
    let row = field_row(None, &f, &[1, 2, 3]).unwrap().unwrap();
    assert_eq!(row.usage, "<not implemented>");
    assert_eq!(row.count, 3);
    assert_eq!(row.value, 1);
    assert_eq!(row.bytes, "01 02 03");
}

#[test]
fn array_row_needs_whole_window() {
    let mut f = field(FieldKind::Array, 0, 24, 0);
    f.report_count = 3;
    assert!(matches!(field_row(None, &f, &[1, 2]), Err(DecodeError::BufferTooShort)));
}

#[test]
fn report_rows_skip_other_fields() {
    let report = ReportLayout {
        report_id: None,
        size_in_bytes: 2,
        fields: vec![variable(0, 8), field(FieldKind::Other, 8, 12, 0), variable(12, 16)],
    };
    let rows = report_rows(&report, &[0x05, 0x90]).unwrap();
    assert_eq!(rows.len(), 3);
    assert_eq!(rows[0].as_ref().unwrap().value, 5);
    assert!(rows[1].is_none());
    assert_eq!(rows[2].as_ref().unwrap().value, 9);
}

#[test]
fn report_rows_fail_on_short_values() {
    let report = ReportLayout {
        report_id: None,
        size_in_bytes: 2,
        fields: vec![variable(0, 8), variable(8, 16)],
    };
    assert!(matches!(report_rows(&report, &[1]), Err(DecodeError::BufferTooShort)));
}

#[test]
fn fits_checks_layout_and_buffer() {
    let mut report = ReportLayout { report_id: Some(1), size_in_bytes: 1024, fields: vec![variable(0, 8)] };
    assert!(report.fits());
    report.report_id = None;
    assert!(!report.fits());
    report.size_in_bytes = 1023;
    assert!(report.fits());
    report.fields.push(variable(8184, 8185));
    assert!(!report.fits());
    report.fields.pop();
    report.fields.push(variable(5, 5));
    assert!(!report.fits());
}
