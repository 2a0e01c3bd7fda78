use chill::script_parser::{find_script_footer_start, find_script_header_end, strip_script_wrapper};

#[test]
fn test_find_header_end_no_header() {
    let data = b"hello world";
    assert_eq!(find_script_header_end(data), 0);
}

#[test]
fn test_find_header_end_with_header() {
    let data = b"Script started on 2024-01-01\ncontent here";
    assert_eq!(find_script_header_end(data), 29);
}

#[test]
fn test_find_footer_start_no_footer() {
    let data = b"hello world";
    assert_eq!(find_script_footer_start(data), data.len());
}

#[test]
fn test_find_footer_start_with_footer() {
    let data = b"content here\nScript done on 2024-01-01";
    assert_eq!(find_script_footer_start(data), 12);
}

#[test]
fn test_strip_script_wrapper() {
    let data = b"Script started on 2024-01-01\ncontent\nScript done on 2024-01-01";
    let stripped = strip_script_wrapper(data);
    assert_eq!(stripped, b"content");
}

#[test]
fn test_header_without_newline_is_not_stripped() {
    assert_eq!(find_script_header_end(b"Script started on"), 0);
}

#[test]
fn test_repeated_headers_and_footers() {
    let data = b"Script started on a\nScript started on b\nbody\nScript done on x\nScript done on y";
    assert_eq!(strip_script_wrapper(data), b"body");
}

#[test]
fn test_footer_uses_last_marker() {
    let data = b"a\nScript done on 1 b\nScript done on 2";
    assert_eq!(find_script_footer_start(data), 20);
}

#[test]
fn test_strip_leaves_plain_data() {
    assert_eq!(strip_script_wrapper(b"no wrapper"), b"no wrapper");
    assert_eq!(strip_script_wrapper(b""), b"");
}
