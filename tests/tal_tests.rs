use edfplus::tal_parse::{extract_subsecond_from_tal, extract_timestamp, parse_tal_data, quick_parse_tal_for_count};

fn block(text: &[u8]) -> Vec<u8> {
    let mut b = text.to_vec();
    b.resize(120, 0);
    b
}

#[test]
fn block_without_terminator_yields_nothing() {
    let mut b = block(b"+0\x14\x14\x00+2.5\x14Valid\x14\x00");
    b[119] = 7;
    assert!(parse_tal_data(&b).is_empty());
    assert!(parse_tal_data(&[]).is_empty());
    assert_eq!(quick_parse_tal_for_count(&b, true), (0, 0));
}

#[test]
fn tal_units_decode() {
    let b = block(b"+0\x14\x14\x00+2.5\x152\x14Event A\x14Event B\x14\x00-1.25\x14Neg\x14\x00");
    let a = parse_tal_data(&b);
    assert_eq!(a.len(), 3);
    assert_eq!((a[0].onset, a[0].duration, a[0].description.as_str()), (25_000_000, 20_000_000, "Event A"));
    assert_eq!((a[1].onset, a[1].duration, a[1].description.as_str()), (25_000_000, 20_000_000, "Event B"));
    assert_eq!((a[2].onset, a[2].duration, a[2].description.as_str()), (-12_500_000, -1, "Neg"));
}

#[test]
fn defect_keeps_what_came_before() {
    // a zero not preceded by 0x14 stops the block
    let b = block(b"+1\x14One\x14\x00+2\x14Two\x00");
    let a = parse_tal_data(&b);
    assert_eq!(a.len(), 1);
    assert_eq!(a[0].description, "One");
    // a malformed onset stops the block
    let b = block(b"+1\x14One\x14\x00+2.\x14Two\x14\x00");
    assert_eq!(parse_tal_data(&b).len(), 1);
    // a second duration field stops the block
    let b = block(b"+1\x14One\x14\x00+2\x151\x152\x14Two\x14\x00");
    assert_eq!(parse_tal_data(&b).len(), 1);
}

#[test]
fn invalid_utf8_description_is_replaced() {
    let b = block(b"+1\x14A\xffB\x14\x00");
    let a = parse_tal_data(&b);
    assert_eq!(a[0].description, "A\u{fffd}B");
}

#[test]
fn timestamps_and_counts() {
    let b = block(b"+12.3456789\x14\x14\x00+13\x14x\x14y\x14\x00");
    assert_eq!(extract_timestamp(&b), Some(123_456_789));
    assert_eq!(extract_subsecond_from_tal(&b), 3_456_789);
    assert_eq!(quick_parse_tal_for_count(&b, true), (2, 3_456_789));
    assert_eq!(quick_parse_tal_for_count(&b, false), (2, 0));
    assert_eq!(extract_timestamp(&block(b"\x00")), None);
    assert_eq!(extract_timestamp(&block(b"+abc\x14\x14")), None);
}
