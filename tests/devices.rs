use hid_feature::devices::{hid_name, hidraw_nodes, UeventError};

fn strings(names: &[&str]) -> Vec<String> {
    names.iter().map(|n| n.to_string()).collect()
}

#[test]
fn hidraw_nodes_in_human_order() {
    let entries = strings(&["hidraw10", "event0", "hidraw2", "tty1", "hidraw1", "hidra"]);
    assert_eq!(hidraw_nodes(&entries), strings(&["hidraw1", "hidraw2", "hidraw10"]));
}

#[test]
fn hidraw_prefix_is_exact() {
    let entries = strings(&["hidrawé", "Hidraw0", "xhidraw1", "hidraw3"]);
    assert_eq!(hidraw_nodes(&entries), strings(&["hidraw3", "hidrawé"]));
}

#[test]
fn long_digit_runs_follow_in_entry_order() {
    let entries = strings(&[
        "hidraw10000000000",
        "hidraw2",
        "hidrawb",
        "hidraw99999999999",
        "hidrawa",
        "hidraw123456789",
    ]);
    assert_eq!(
        hidraw_nodes(&entries),
        strings(&[
            "hidraw2",
            "hidraw123456789",
            "hidrawa",
            "hidrawb",
            "hidraw10000000000",
            "hidraw99999999999",
        ])
    );
}

#[test]
fn inconsistent_order_does_not_panic() {
    let entries = strings(&["hidraw105", "hidraw19", "hidraw50"]);
    let nodes = hidraw_nodes(&entries);
    assert_eq!(nodes, strings(&["hidraw105", "hidraw19", "hidraw50"]));
    for pair in nodes.windows(2) {
        assert_ne!(human_sort::compare(&pair[0], &pair[1]), std::cmp::Ordering::Greater);
    }
}

#[test]
fn no_entries_no_nodes() {
    assert_eq!(hidraw_nodes(&Vec::new()), Vec::<String>::new());
}

#[test]
fn hid_name_from_uevent() {
    let uevent = "DRIVER=hid-generic\nHID_ID=0003:0000046D:0000C52B\nHID_NAME=Logitech USB Receiver\nHID_PHYS=usb-0000:00:14.0-1/input2\n";
    assert_eq!(hid_name(uevent), Ok("Logitech USB Receiver".to_string()));
}

#[test]
fn hid_name_keeps_later_equals_and_drops_crlf() {
    assert_eq!(hid_name("HID_NAME=a=b\r\nX=1"), Ok("a=b".to_string()));
    assert_eq!(hid_name("HID_NAME="), Ok(String::new()));
    assert_eq!(hid_name("\n\nHID_NAMEX=é"), Ok("é".to_string()));
}

#[test]
fn hid_name_errors() {
    assert_eq!(hid_name("DRIVER=x\n HID_NAME=y\n"), Err(UeventError::MissingName));
    assert_eq!(hid_name(""), Err(UeventError::MissingName));
    assert_eq!(hid_name("HID_NAME x\nHID_NAME=y"), Err(UeventError::BadNameFormat));
}
