use hid_feature::patch::{merge, merge_parsed, parse_patch, parse_token, PatchError, PatchToken};

fn strings(tokens: &[&str]) -> Vec<String> {
    tokens.iter().map(|t| t.to_string()).collect()
}

#[test]
fn tokens_are_xx_or_two_hex_digits() {
    assert_eq!(parse_token("xx"), Some(PatchToken::Keep));
    assert_eq!(parse_token("4a"), Some(PatchToken::Byte(0x4a)));
    assert_eq!(parse_token("0A"), Some(PatchToken::Byte(0x0a)));
    assert_eq!(parse_token("ff"), Some(PatchToken::Byte(0xff)));
    assert_eq!(parse_token("zz"), None);
    assert_eq!(parse_token("a"), None);
    assert_eq!(parse_token("+4a"), None);
    assert_eq!(parse_token("0x4a"), None);
    assert_eq!(parse_token("XX"), None);
    assert_eq!(parse_token("é1"), None);
    assert_eq!(parse_token(""), None);
}

#[test]
fn parse_patch_reports_first_invalid_token() {
    assert_eq!(
        parse_patch(&strings(&["xx", "zz", "qq"])),
        Err(PatchError::InvalidToken { index: 1 })
    );
    assert_eq!(
        parse_patch(&strings(&["01", "xx"])),
        Ok(vec![PatchToken::Byte(1), PatchToken::Keep])
    );
}

#[test]
fn merge_writes_literal_after_id_slot() {
    let out = merge(&[0, 0, 0, 0], &strings(&["xx", "4a", "xx"]), 0, false).unwrap();
    assert_eq!(out, vec![0x00, 0x00, 0x4a, 0x00, 0x00]);
}

#[test]
fn merge_with_report_id_has_no_slot() {
    let out = merge(&[5, 1, 2], &strings(&["ff"]), 1, true).unwrap();
    assert_eq!(out, vec![5, 0xff, 2]);
}

#[test]
fn merge_with_offset() {
    let fetched = [1u8, 2, 3, 4, 5];
    let a = merge(&fetched, &strings(&["xx", "xx", "4a", "xx", "6c"]), 0, false).unwrap();
    let b = merge(&fetched, &strings(&["4a", "xx", "6c"]), 2, false).unwrap();
    assert_eq!(a, vec![0, 1, 2, 0x4a, 4, 0x6c]);
    assert_eq!(a, b);
}

#[test]
fn wildcards_keep_fetched_bytes() {
    let fetched = [9u8, 8, 7, 6];
    let out = merge(&fetched, &strings(&["xx", "xx", "xx"]), 1, false).unwrap();
    assert_eq!(&out[1..], &fetched[..]);
    assert_eq!(out[0], 0);
    let out = merge(&fetched, &strings(&["xx", "xx"]), 0, true).unwrap();
    assert_eq!(out, fetched.to_vec());
}

#[test]
fn round_trip_sends_fetched_bytes() {
    let fetched = [0x12u8, 0x34, 0x56];
    let tokens = strings(&["xx", "xx", "xx"]);
    assert_eq!(merge(&fetched, &tokens, 0, false).unwrap(), vec![0, 0x12, 0x34, 0x56]);
    assert_eq!(merge(&fetched, &tokens, 0, true).unwrap(), fetched.to_vec());
}

#[test]
fn invalid_token_is_refused() {
    let fetched = [1u8, 2];
    assert_eq!(
        merge(&fetched, &strings(&["xx", "zz"]), 0, false),
        Err(PatchError::InvalidToken { index: 1 })
    );
    // the token is checked before the bounds
    assert_eq!(
        merge(&fetched, &strings(&["zz"]), 5000, false),
        Err(PatchError::InvalidToken { index: 0 })
    );
}

#[test]
fn patch_past_capacity_is_out_of_bounds() {
    let fetched = [0u8; 4];
    assert_eq!(merge(&fetched, &strings(&["01"]), 1023, false), Err(PatchError::OutOfBounds));
    assert_eq!(merge(&fetched, &strings(&["01"]), 1023, true).map(|v| v.len()), Ok(4));
    assert_eq!(merge(&fetched, &strings(&[]), 5000, false).map(|v| v.len()), Ok(5));
}

#[test]
fn patch_past_report_is_not_sent() {
    let out = merge(&[1, 2], &strings(&["xx", "xx", "07"]), 0, true).unwrap();
    assert_eq!(out, vec![1, 2]);
}

#[test]
fn report_past_capacity_is_out_of_bounds() {
    let fetched = vec![0u8; 1024];
    assert_eq!(merge_parsed(&fetched, &[], 0, false), Err(PatchError::OutOfBounds));
    assert_eq!(merge_parsed(&fetched, &[], 0, true).map(|v| v.len()), Ok(1024));
}
