use chill::session::{Mode, Session};

const HOTKEY: &[u8] = b"\x1b[106;6u";

#[test]
fn test_normal_mode_forwards_input() {
    let mut s = Session::new(100, 1000, HOTKEY.to_vec());
    let a = s.on_user_input(b"ls\r");
    assert_eq!(a.to_child, b"ls\r");
    assert!(a.to_screen.is_empty());
    assert_eq!(s.mode(), Mode::Normal);
}

#[test]
fn test_hotkey_enters_lookback_and_shows_history() {
    let mut s = Session::new(100, 1000, HOTKEY.to_vec());
    assert_eq!(s.on_child_output(b"one\ntwo\n"), b"one\ntwo\n");
    let a = s.on_user_input(b"ab\x1b[106;6ucd");
    assert_eq!(a.to_child, b"abcd");
    let mut expected = b"\x1b[7m--- LOOKBACK MODE ---\x1b[0m\r\n".to_vec();
    expected.extend(b"one\ntwo\n");
    assert_eq!(a.to_screen, expected);
    assert_eq!(s.mode(), Mode::Lookback);
}

#[test]
fn test_lookback_holds_output_until_next_input() {
    let mut s = Session::new(100, 1000, HOTKEY.to_vec());
    s.on_user_input(HOTKEY);
    assert_eq!(s.on_child_output(b"live"), b"");
    assert_eq!(s.history_bytes(), 4);
    let a = s.on_user_input(b"q");
    assert!(a.to_child.is_empty());
    assert_eq!(a.to_screen, b"live");
    assert_eq!(s.mode(), Mode::Normal);
}

#[test]
fn test_history_records_before_truncation() {
    let mut s = Session::new(1, 1000, HOTKEY.to_vec());
    let out = s.on_child_output(b"\x1b[?2026ha\nb\nc\n\x1b[?2026l");
    assert_eq!(out, b"\x1b[?2026h\x1b[H\x1b[2Jc\n\x1b[?2026l");
    assert_eq!(s.history_bytes(), 22);
}

#[test]
fn test_finish_flushes_open_block_and_held() {
    let mut s = Session::new(100, 1000, HOTKEY.to_vec());
    assert_eq!(s.on_child_output(b"\x1b[?2026hpartial"), b"");
    assert_eq!(s.finish(), b"\x1b[?2026hpartial");
}

#[test]
fn test_hotkey_split_across_reads() {
    let mut s = Session::new(100, 1000, HOTKEY.to_vec());
    let a = s.on_user_input(b"xy\x1b[10");
    assert_eq!(a.to_child, b"xy");
    assert_eq!(s.mode(), Mode::Normal);
    let a = s.on_user_input(b"6;6u");
    assert!(a.to_child.is_empty());
    assert_eq!(s.mode(), Mode::Lookback);
}

#[test]
fn test_held_partial_released_when_not_hotkey() {
    let mut s = Session::new(100, 1000, HOTKEY.to_vec());
    assert_eq!(s.on_user_input(b"\x1b[1").to_child, b"");
    assert_eq!(s.on_user_input(b"A").to_child, b"\x1b[1A");
    assert_eq!(s.mode(), Mode::Normal);
}
