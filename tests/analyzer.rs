use chill::analyzer::{count_sync_markers, first_difference};

#[test]
fn test_count_sync_markers_counts_each() {
    let data = b"\x1b[?2026ha\x1b[?2026l\x1b[?2026hb\x1b[?2026l";
    assert_eq!(count_sync_markers(data), (2, 2));
    assert_eq!(count_sync_markers(b"none"), (0, 0));
}

#[test]
fn test_first_difference_found() {
    assert_eq!(first_difference(b"abcdef", b"abXdef"), Some(2));
    assert_eq!(first_difference(b"abc", b"abc"), None);
    assert_eq!(first_difference(b"abc", b"abcd"), None);
    assert_eq!(first_difference(b"", b"x"), None);
}
