use chill::analyzer::count_sync_markers;
use chill::output_processor::OutputProcessor;
use chill::line_buffer::LineBuffer;

const SYNC_START: &[u8] = b"\x1b[?2026h";
const SYNC_END: &[u8] = b"\x1b[?2026l";

fn session(input: &[u8]) -> Vec<u8> {
    let mut processor = OutputProcessor::new();
    let mut out = processor.process(input);
    out.extend(processor.finish());
    out
}

#[test]
fn test_passthrough_no_sync() {
    let mut processor = OutputProcessor::new();
    let input = b"hello world\r\n";
    let output = processor.process(input);
    assert_eq!(output, input);
}

#[test]
fn test_single_sync_block() {
    let mut processor = OutputProcessor::new();
    let input = b"\x1b[?2026hcontent\x1b[?2026l";
    let output = processor.process(input);
    assert_eq!(output, input, "Sync block should pass through unchanged");
}

#[test]
fn test_sync_start_no_duplicate_byte() {
    let mut processor = OutputProcessor::new();
    let input = b"\x1b[?2026hcontent\x1b[?2026l";
    let output = processor.process(input);

    let sync_start_count = output
        .windows(SYNC_START.len())
        .filter(|w| *w == SYNC_START)
        .count();
    assert_eq!(
        sync_start_count, 1,
        "Should have exactly one SYNC_START, got {}",
        sync_start_count
    );

    let sync_end_count = output
        .windows(SYNC_END.len())
        .filter(|w| *w == SYNC_END)
        .count();
    assert_eq!(
        sync_end_count, 1,
        "Should have exactly one SYNC_END, got {}",
        sync_end_count
    );
}

#[test]
fn test_content_before_sync() {
    let mut processor = OutputProcessor::new();
    let input = b"before\x1b[?2026hcontent\x1b[?2026lafter";
    let output = processor.process(input);
    assert_eq!(output, input);
}

#[test]
fn test_multiple_sync_blocks() {
    let mut processor = OutputProcessor::new();
    let input = b"\x1b[?2026hblock1\x1b[?2026l\x1b[?2026hblock2\x1b[?2026l";
    let output = processor.process(input);
    assert_eq!(output, input);
}

#[test]
fn test_carriage_return_preserved() {
    let mut processor = OutputProcessor::new();
    let input = b"line1\r\nline2\r\n";
    let output = processor.process(input);
    assert_eq!(output, input, "Carriage returns must be preserved");
}

#[test]
fn test_carriage_return_after_sync_start() {
    let mut processor = OutputProcessor::new();
    let input = b"\x1b[?2026h\r\ncontent\x1b[?2026l";
    let output = processor.process(input);
    assert_eq!(
        output, input,
        "Carriage return after sync start must be preserved"
    );
}

#[test]
fn test_carriage_return_in_sync_block() {
    let mut processor = OutputProcessor::new();
    let input = b"\x1b[?2026hline1\r\nline2\r\n\x1b[?2026l";
    let output = processor.process(input);
    assert_eq!(
        output, input,
        "Carriage returns inside sync block must be preserved"
    );
}

#[test]
fn test_round_trip_no_blocks() {
    let input = b"plain text\r\nmore";
    assert_eq!(session(input), input);
}

#[test]
fn test_round_trip_block_at_end_of_input() {
    let input = b"pre\x1b[?2026hbody\r\n\x1b[?2026l";
    assert_eq!(session(input), input);
}

#[test]
fn test_round_trip_open_block_forced_close() {
    let input = b"a\x1b[?2026hb\x1b[?2026lc\x1b[?2026hstill open";
    let mut processor = OutputProcessor::new();
    let out = processor.process(input);
    assert_eq!(out, b"a\x1b[?2026hb\x1b[?2026lc");
    let rest = processor.finish();
    assert_eq!(rest, b"\x1b[?2026hstill open");
    let mut all = out;
    all.extend(rest);
    assert_eq!(all, input);
}

#[test]
fn test_round_trip_many_blocks_with_sequences() {
    let input = b"\x1b[2J\x1b[?2026h\x1b[H\x1b[1mA\x1b[0m\n\x1b[?2026lmid\x1b[?2026hB\x1b[?2026l";
    assert_eq!(session(input), input);
}

#[test]
fn test_reprocessing_is_idempotent() {
    let input = b"x\x1b[?2026hy\r\n\x1b[?2026lz\x1b[?2026hw";
    let once = session(input);
    assert_eq!(session(&once), once);
}

#[test]
fn test_chunk_boundary_inside_marker() {
    let input = b"before\x1b[?2026hcontent\x1b[?2026lafter";
    let whole = session(input);
    for cut in 0..=input.len() {
        let mut processor = OutputProcessor::new();
        let mut out = processor.process(&input[..cut]);
        out.extend(processor.process(&input[cut..]));
        out.extend(processor.finish());
        assert_eq!(out, whole, "split at {}", cut);
    }
    assert_eq!(whole, input);
}

#[test]
fn test_block_held_until_closed() {
    let mut processor = OutputProcessor::new();
    assert_eq!(processor.process(b"a\x1b[?2026hbody"), b"a");
    assert_eq!(processor.process(b" more"), b"");
    assert_eq!(
        processor.process(b"\x1b[?2026l"),
        b"\x1b[?2026hbody more\x1b[?2026l"
    );
}

#[test]
fn test_dangling_sync_end_dropped() {
    let mut processor = OutputProcessor::new();
    assert_eq!(processor.process(b"a\x1b[?2026lb"), b"ab");
}

#[test]
fn test_nested_sync_start_keeps_one_marker() {
    let mut processor = OutputProcessor::new();
    let out = processor.process(b"\x1b[?2026hA\x1b[?2026hB\x1b[?2026l");
    assert_eq!(out, b"\x1b[?2026hAB\x1b[?2026l");
    assert_eq!(count_sync_markers(&out), (1, 1));
}

#[test]
fn test_string_cut_by_marker_outside_block_dropped() {
    let mut processor = OutputProcessor::new();
    let out = processor.process(b"a\x1b]0;title\x1b[?2026hB\x1b[?2026l");
    assert_eq!(out, b"a\x1b[?2026hB\x1b[?2026l");
    let mut processor = OutputProcessor::new();
    assert_eq!(processor.process(b"x\x1b]t\x1b[?2026ly"), b"xy");
}

#[test]
fn test_string_cut_by_marker_inside_block_kept() {
    let mut processor = OutputProcessor::new();
    let out = processor.process(b"\x1b[?2026hA\x1bPdata\x1b[?2026l");
    assert_eq!(out, b"\x1b[?2026hA\x1bPdata\x1b[?2026l");
    let mut again = OutputProcessor::new();
    assert_eq!(again.process(&out), out);
}

#[test]
fn test_reprocessing_output_is_stable() {
    let inputs: [&[u8]; 5] = [
        b"\x1b]x\x1b[?2026h",
        b"\x1b]x\x1b[?2026ly",
        b"a\x1b[?2026hb\x1b]c\x1b[?2026hd\x07e\x1b[?2026lf\x1b[",
        b"\x1b[?2026h\x1bPq\x1b[?2026h\x1b[1mZ\x1b[?2026l",
        b"\x1b[?02026hx\x1b[?2026;1l\x1b]t\x07",
    ];
    for input in inputs {
        let mut p = OutputProcessor::new();
        let t = p.process(input);
        let mut q = OutputProcessor::new();
        assert_eq!(q.process(&t), t);
    }
}

#[test]
fn test_exactly_one_marker_each() {
    let input = b"before\x1b[?2026hcontent\x1b[?2026lafter";
    let out = session(input);
    assert_eq!(out, input);
    assert_eq!(count_sync_markers(&out), (1, 1));
}

#[test]
fn test_capped_block_shows_last_lines() {
    let mut content = Vec::new();
    for i in 0..150 {
        content.extend(format!("line {}\n", i).as_bytes());
    }
    let mut input = SYNC_START.to_vec();
    input.extend(&content);
    input.extend(SYNC_END);

    let mut history = LineBuffer::new(1000);
    history.push_bytes(&input);

    let mut processor = OutputProcessor::with_max_lines(100);
    let out = processor.process(&input);

    let mut expected = SYNC_START.to_vec();
    expected.extend(b"\x1b[H\x1b[2J");
    for i in 50..150 {
        expected.extend(format!("line {}\n", i).as_bytes());
    }
    expected.extend(SYNC_END);
    assert_eq!(out, expected);

    assert_eq!(history.line_count(), 151);
    let mut all = Vec::new();
    history.append_all(&mut all);
    assert_eq!(all, input);
}

#[test]
fn test_capped_block_within_cap_unchanged() {
    let input = b"\x1b[?2026ha\nb\nc\x1b[?2026l";
    let mut processor = OutputProcessor::with_max_lines(3);
    assert_eq!(processor.process(input), input);
}

#[test]
fn test_capped_block_with_unterminated_tail() {
    let input = b"\x1b[?2026ha\nb\nc\x1b[?2026l";
    let mut processor = OutputProcessor::with_max_lines(2);
    assert_eq!(
        processor.process(input),
        b"\x1b[?2026h\x1b[H\x1b[2Jb\nc\x1b[?2026l"
    );
}
