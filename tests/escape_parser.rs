use chill::escape_parser::{Color, EscapeParser, ParsedEscape, SgrCode};

fn parse_sequence(bytes: &[u8]) -> Vec<ParsedEscape> {
    let mut parser = EscapeParser::new();
    bytes.iter().filter_map(|&b| parser.feed(b)).collect()
}

fn parse_last(bytes: &[u8]) -> Option<ParsedEscape> {
    parse_sequence(bytes).into_iter().last()
}

#[test]
fn test_newline() {
    assert_eq!(parse_last(b"\n"), Some(ParsedEscape::Newline));
}

#[test]
fn test_carriage_return() {
    assert_eq!(parse_last(b"\r"), Some(ParsedEscape::CarriageReturn));
}

#[test]
fn test_clear_screen() {
    assert_eq!(parse_last(b"\x1b[2J"), Some(ParsedEscape::ClearScreen));
}

#[test]
fn test_clear_scrollback() {
    assert_eq!(parse_last(b"\x1b[3J"), Some(ParsedEscape::ClearScrollback));
}

#[test]
fn test_cursor_home() {
    assert_eq!(parse_last(b"\x1b[H"), Some(ParsedEscape::CursorHome));
    assert_eq!(parse_last(b"\x1b[1;1H"), Some(ParsedEscape::CursorHome));
}

#[test]
fn test_cursor_home_with_position() {
    assert_eq!(parse_last(b"\x1b[5;10H"), Some(ParsedEscape::Other));
}

#[test]
fn test_cursor_up() {
    assert_eq!(parse_last(b"\x1b[A"), Some(ParsedEscape::CursorUp(1)));
    assert_eq!(parse_last(b"\x1b[5A"), Some(ParsedEscape::CursorUp(5)));
}

#[test]
fn test_cursor_col() {
    assert_eq!(parse_last(b"\x1b[G"), Some(ParsedEscape::CursorCol(1)));
    assert_eq!(parse_last(b"\x1b[15G"), Some(ParsedEscape::CursorCol(15)));
}

#[test]
fn test_clear_line() {
    assert_eq!(parse_last(b"\x1b[K"), Some(ParsedEscape::ClearLine));
}

#[test]
fn test_sync_start() {
    assert_eq!(parse_last(b"\x1b[?2026h"), Some(ParsedEscape::SyncStart));
}

#[test]
fn test_sync_end() {
    assert_eq!(parse_last(b"\x1b[?2026l"), Some(ParsedEscape::SyncEnd));
}

#[test]
fn test_sgr_reset() {
    let result = parse_last(b"\x1b[0m");
    assert_eq!(
        result,
        Some(ParsedEscape::Sgr(SgrCode {
            reset: true,
            fg: None,
            bg: None,
        }))
    );
}

#[test]
fn test_sgr_default_colors() {
    let result = parse_last(b"\x1b[39;49m");
    assert_eq!(
        result,
        Some(ParsedEscape::Sgr(SgrCode {
            reset: false,
            fg: Some(Color::Default),
            bg: Some(Color::Default),
        }))
    );
}

#[test]
fn test_sgr_indexed_fg() {
    let result = parse_last(b"\x1b[38;5;196m");
    assert_eq!(
        result,
        Some(ParsedEscape::Sgr(SgrCode {
            reset: false,
            fg: Some(Color::Indexed(196)),
            bg: None,
        }))
    );
}

#[test]
fn test_sgr_indexed_bg() {
    let result = parse_last(b"\x1b[48;5;21m");
    assert_eq!(
        result,
        Some(ParsedEscape::Sgr(SgrCode {
            reset: false,
            fg: None,
            bg: Some(Color::Indexed(21)),
        }))
    );
}

#[test]
fn test_sgr_rgb_fg() {
    let result = parse_last(b"\x1b[38;2;255;128;0m");
    assert_eq!(
        result,
        Some(ParsedEscape::Sgr(SgrCode {
            reset: false,
            fg: Some(Color::Rgb(255, 128, 0)),
            bg: None,
        }))
    );
}

#[test]
fn test_sgr_rgb_bg() {
    let result = parse_last(b"\x1b[48;2;0;128;255m");
    assert_eq!(
        result,
        Some(ParsedEscape::Sgr(SgrCode {
            reset: false,
            fg: None,
            bg: Some(Color::Rgb(0, 128, 255)),
        }))
    );
}

#[test]
fn test_osc_title_bel_terminated() {
    let events = parse_sequence(b"\x1b]0;My Title\x07");
    assert_eq!(events, vec![ParsedEscape::Other]);
}

#[test]
fn test_osc_title_st_terminated() {
    let events = parse_sequence(b"\x1b]0;My Title\x1b\\");
    assert_eq!(events, vec![ParsedEscape::Other]);
}

#[test]
fn test_dcs_sequence() {
    let events = parse_sequence(b"\x1bPsome data\x1b\\");
    assert_eq!(events, vec![ParsedEscape::Other]);
}

#[test]
fn test_apc_sequence() {
    let events = parse_sequence(b"\x1b_application data\x1b\\");
    assert_eq!(events, vec![ParsedEscape::Other]);
}

#[test]
fn test_pm_sequence() {
    let events = parse_sequence(b"\x1b^private message\x1b\\");
    assert_eq!(events, vec![ParsedEscape::Other]);
}

#[test]
fn test_mixed_content() {
    let events = parse_sequence(b"hello\nworld\r\n");
    assert_eq!(
        events,
        vec![
            ParsedEscape::Newline,
            ParsedEscape::CarriageReturn,
            ParsedEscape::Newline
        ]
    );
}

#[test]
fn test_escape_followed_by_text() {
    let events = parse_sequence(b"\x1b[2Jhello\n");
    assert_eq!(
        events,
        vec![ParsedEscape::ClearScreen, ParsedEscape::Newline]
    );
}

#[test]
fn test_unknown_csi() {
    assert_eq!(parse_last(b"\x1b[999z"), Some(ParsedEscape::Other));
}

#[test]
fn test_split_feed_matches_whole() {
    let input: &[u8] = b"a\x1b[38;2;1;2;3mb\r\n\x1b]0;t\x07\x1b[?2026hx\x1b[?2026l\x1b[5A";
    let mut whole = EscapeParser::new();
    let expected = whole.feed_bytes(input);
    for cut in 0..=input.len() {
        let mut parser = EscapeParser::new();
        let mut events = parser.feed_bytes(&input[..cut]);
        events.extend(parser.feed_bytes(&input[cut..]));
        assert_eq!(events, expected, "split at {}", cut);
    }
    let mut bytewise = EscapeParser::new();
    let mut events = Vec::new();
    for &b in input {
        if let Some(e) = bytewise.feed(b) {
            events.push(e);
        }
    }
    assert_eq!(events, expected);
}

#[test]
fn test_in_escape_sequence_tracks_state() {
    let mut parser = EscapeParser::new();
    assert!(!parser.in_escape_sequence());
    parser.feed(0x1b);
    assert!(parser.in_escape_sequence());
    parser.feed(b'[');
    assert!(parser.in_escape_sequence());
    assert_eq!(parser.feed(b'K'), Some(ParsedEscape::ClearLine));
    assert!(!parser.in_escape_sequence());
}

#[test]
fn test_param_saturates() {
    assert_eq!(parse_last(b"\x1b[99999999A"), Some(ParsedEscape::CursorUp(65535)));
}

#[test]
fn test_cursor_up_zero_is_one() {
    assert_eq!(parse_last(b"\x1b[0A"), Some(ParsedEscape::CursorUp(1)));
}

#[test]
fn test_indexed_color_wraps_to_byte() {
    let result = parse_last(b"\x1b[38;5;300m");
    assert_eq!(
        result,
        Some(ParsedEscape::Sgr(SgrCode {
            reset: false,
            fg: Some(Color::Indexed(44)),
            bg: None,
        }))
    );
}

#[test]
fn test_sgr_mixed_left_to_right() {
    let result = parse_last(b"\x1b[0;48;5;3;39m");
    assert_eq!(
        result,
        Some(ParsedEscape::Sgr(SgrCode {
            reset: true,
            fg: Some(Color::Default),
            bg: Some(Color::Indexed(3)),
        }))
    );
}

#[test]
fn test_private_mode_other() {
    assert_eq!(parse_last(b"\x1b[?25h"), Some(ParsedEscape::Other));
    assert_eq!(parse_last(b"\x1b[?2026x"), Some(ParsedEscape::Other));
}

#[test]
fn test_clear_default_param_other() {
    assert_eq!(parse_last(b"\x1b[J"), Some(ParsedEscape::Other));
}

#[test]
fn test_escape_non_sequence_other() {
    assert_eq!(parse_sequence(b"\x1b7"), vec![ParsedEscape::Other]);
}

#[test]
fn test_dcs_c1_terminator() {
    assert_eq!(parse_sequence(b"\x1bPdata\x9c"), vec![ParsedEscape::Other]);
}
