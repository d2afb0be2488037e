use hid_feature::layout::ReportLayout;
use hid_feature::select::{reports_to_list, select_report, SelectionError};

fn reports(ids: &[Option<u8>]) -> Vec<ReportLayout> {
    ids.iter()
        .map(|id| ReportLayout { report_id: *id, size_in_bytes: 2, fields: vec![] })
        .collect()
}

#[test]
fn select_by_existing_id() {
    let rs = reports(&[Some(1), Some(2), Some(3)]);
    let i = select_report(&rs, Some(2)).unwrap();
    assert_eq!(i, 1);
    assert_eq!(rs[i].report_id, Some(2));
}

#[test]
fn select_missing_id_names_it() {
    let rs = reports(&[Some(1), None]);
    let e = select_report(&rs, Some(9)).unwrap_err();
    assert_eq!(e, SelectionError::NotFound { report_id: 9 });
    assert_eq!(e.message(), "Unable to find report 9");
}

#[test]
fn select_without_filter_takes_first() {
    assert_eq!(select_report(&reports(&[None, Some(4)]), None), Ok(0));
}

#[test]
fn select_from_no_reports() {
    let e = select_report(&reports(&[]), Some(1)).unwrap_err();
    assert_eq!(e, SelectionError::NoFeatureReports);
    assert_eq!(e.message(), "This device does not have any Feature Reports");
}

#[test]
fn list_filter_keeps_matching_reports() {
    let rs = reports(&[Some(1), Some(2), Some(1), None]);
    assert_eq!(reports_to_list(&rs, Some(1)), vec![0, 2]);
    assert_eq!(reports_to_list(&rs, Some(7)), Vec::<usize>::new());
    assert_eq!(reports_to_list(&rs, None), vec![0, 1, 2, 3]);
}
