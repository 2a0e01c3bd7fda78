use chill::line_buffer::LineBuffer;

fn get_all(buf: &LineBuffer) -> Vec<u8> {
    let mut result = Vec::new();
    buf.append_all(&mut result);
    result
}

fn get_last_n(buf: &LineBuffer, n: usize) -> Vec<u8> {
    let mut result = Vec::new();
    buf.append_last_n_lines(n, &mut result);
    result
}

#[test]
fn test_empty_buffer() {
    let buf = LineBuffer::new(10);
    assert_eq!(buf.line_count(), 0);
    assert_eq!(buf.total_bytes(), 0);
    assert_eq!(get_all(&buf), Vec::<u8>::new());
}

#[test]
fn test_push_single_line() {
    let mut buf = LineBuffer::new(10);
    buf.push_bytes(b"hello\n");
    assert_eq!(buf.line_count(), 1);
    assert_eq!(buf.total_bytes(), 6);
    assert_eq!(get_all(&buf), b"hello\n");
}

#[test]
fn test_push_partial_line() {
    let mut buf = LineBuffer::new(10);
    buf.push_bytes(b"hello");
    assert_eq!(buf.line_count(), 1);
    assert_eq!(buf.total_bytes(), 5);
    assert_eq!(get_all(&buf), b"hello");
}

#[test]
fn test_push_multiple_lines() {
    let mut buf = LineBuffer::new(10);
    buf.push_bytes(b"line1\nline2\nline3\n");
    assert_eq!(buf.line_count(), 3);
    assert_eq!(get_all(&buf), b"line1\nline2\nline3\n");
}

#[test]
fn test_max_lines_eviction() {
    let mut buf = LineBuffer::new(3);
    buf.push_bytes(b"a\nb\nc\nd\ne\n");
    assert_eq!(buf.line_count(), 3);
    assert_eq!(get_all(&buf), b"c\nd\ne\n");
}

#[test]
fn test_total_bytes_after_eviction() {
    let mut buf = LineBuffer::new(2);
    buf.push_bytes(b"long_line_1\nshort\nmedium_line\n");
    assert_eq!(buf.line_count(), 2);
    assert_eq!(buf.total_bytes(), 6 + 12);
    assert_eq!(get_all(&buf), b"short\nmedium_line\n");
}

#[test]
fn test_clear() {
    let mut buf = LineBuffer::new(10);
    buf.push_bytes(b"line1\nline2\npartial");
    buf.clear();
    assert_eq!(buf.line_count(), 0);
    assert_eq!(buf.total_bytes(), 0);
    assert_eq!(get_all(&buf), Vec::<u8>::new());
}

#[test]
fn test_get_last_n_lines_all() {
    let mut buf = LineBuffer::new(10);
    buf.push_bytes(b"a\nb\nc\n");
    assert_eq!(get_last_n(&buf, 10), b"a\nb\nc\n");
}

#[test]
fn test_get_last_n_lines_subset() {
    let mut buf = LineBuffer::new(10);
    buf.push_bytes(b"a\nb\nc\nd\ne\n");
    assert_eq!(get_last_n(&buf, 2), b"d\ne\n");
}

#[test]
fn test_get_last_n_lines_with_partial() {
    let mut buf = LineBuffer::new(10);
    buf.push_bytes(b"a\nb\nc\npartial");
    assert_eq!(buf.line_count(), 4);
    assert_eq!(get_last_n(&buf, 2), b"c\npartial");
}

#[test]
fn test_get_last_n_lines_only_partial() {
    let mut buf = LineBuffer::new(10);
    buf.push_bytes(b"a\nb\nc\npartial");
    assert_eq!(get_last_n(&buf, 1), b"partial");
}

#[test]
fn test_get_last_n_lines_zero() {
    let mut buf = LineBuffer::new(10);
    buf.push_bytes(b"a\nb\nc\n");
    assert_eq!(get_last_n(&buf, 0), Vec::<u8>::new());
}

#[test]
fn test_crlf_preserved() {
    let mut buf = LineBuffer::new(10);
    buf.push_bytes(b"line1\r\nline2\r\n");
    assert_eq!(
        get_all(&buf),
        b"line1\r\nline2\r\n",
        "CRLF must be preserved"
    );
}

#[test]
fn test_crlf_preserved_in_last_n() {
    let mut buf = LineBuffer::new(10);
    buf.push_bytes(b"line1\r\nline2\r\nline3\r\n");
    assert_eq!(
        get_last_n(&buf, 2),
        b"line2\r\nline3\r\n",
        "CRLF must be preserved in last_n"
    );
}

#[test]
fn test_history_keeps_last_lines_in_order() {
    let mut buf = LineBuffer::new(3);
    for i in 0..10 {
        buf.push_bytes(format!("line{}\n", i).as_bytes());
    }
    let all = get_all(&buf);
    assert_eq!(all, b"line7\nline8\nline9\n");
    assert_eq!(buf.total_bytes(), all.len());
    assert_eq!(get_last_n(&buf, 3), all);
    assert_eq!(get_last_n(&buf, 100), all);
    assert_eq!(get_last_n(&buf, 0), Vec::<u8>::new());
}

#[test]
fn test_zero_capacity_keeps_only_tail() {
    let mut buf = LineBuffer::new(0);
    buf.push_bytes(b"a\nb\ntail");
    assert_eq!(buf.line_count(), 1);
    assert_eq!(buf.total_bytes(), 4);
    assert_eq!(get_all(&buf), b"tail");
}

#[test]
fn test_append_keeps_existing_output() {
    let mut buf = LineBuffer::new(5);
    buf.push_bytes(b"x\ny");
    let mut out = b"pre:".to_vec();
    buf.append_all(&mut out);
    assert_eq!(out, b"pre:x\ny");
}

#[test]
fn test_push_byte_single() {
    let mut buf = LineBuffer::new(5);
    buf.push_byte(b'a');
    buf.push_byte(b'\n');
    assert_eq!(buf.line_count(), 1);
    assert_eq!(buf.total_bytes(), 2);
}
