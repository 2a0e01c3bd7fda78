//! The sync engine: passes child output through, holding back the bytes of
//! an unfinished control sequence, and gathering each synchronized-update
//! block so that it is written out whole when it closes.
//!
//! Its behaviour is the state machine `engine_step`; `engine_run` runs it
//! over a whole chunk.

use vstd::prelude::*;
use crate::escape_parser::{alike, event_seq, initial_scanner, lemma_scan_alike, lemma_scan_split, lemma_step_alike, scan, scanner_step, EscapeParser, ParsedEscape, ParserState, ScannerView};
use crate::escape_sequences::{
    append_bytes, ESC, push_reposition, push_sync_end, push_sync_start, reposition_seq, sync_end_seq,
    sync_start_seq,
};
use crate::line_buffer::{empty_history, entries, join, last_n, push_bytes_spec, HistoryView, LineBuffer};

verus! {

/// The engine's state as a mathematical value.
pub struct EngineView {
    pub scanner: ScannerView,
    /// Whether a sync block is open.
    pub in_block: bool,
    /// The content of the open block, after its opening marker.
    pub block: Seq<u8>,
    /// The bytes of the control sequence that is being scanned.
    pub pending: Seq<u8>,
    /// Where in `pending` the escape byte that the scanner last moved to its
    /// escape state on stands; the bytes before it are an unterminated
    /// string that a sync marker interrupted.
    pub esc_at: nat,
    /// The most lines a completed block may show, if capped.
    pub line_cap: Option<usize>,
}

/// A fresh engine with the given cap.
pub open spec fn initial_engine(line_cap: Option<usize>) -> EngineView {
    EngineView {
        scanner: initial_scanner(),
        in_block: false,
        block: seq![],
        pending: seq![],
        esc_at: 0,
        line_cap,
    }
}

/// The lines of a block's content, as the history buffer splits them.
pub open spec fn block_lines(content: Seq<u8>) -> HistoryView {
    push_bytes_spec(empty_history(content.len()), content)
}

/// The content a completed block shows: all of it, or, where it has more
/// lines than the cap, a cursor-home-and-erase prefix and the last lines.
pub open spec fn shown_content(content: Seq<u8>, line_cap: Option<usize>) -> Seq<u8> {
    match line_cap {
        Some(n) => if entries(block_lines(content)).len() > n {
            reposition_seq() + join(last_n(entries(block_lines(content)), n as nat))
        } else {
            content
        },
        None => content,
    }
}

/// What a block with `content` is written as when its end marker arrives.
pub open spec fn closed_block(content: Seq<u8>, line_cap: Option<usize>) -> Seq<u8> {
    sync_start_seq() + shown_content(content, line_cap) + sync_end_seq()
}

/// The bytes staged before the escape byte that began the sequence now
/// being scanned.
pub open spec fn staged(e: EngineView) -> Seq<u8> {
    if e.esc_at <= e.pending.len() {
        e.pending.subrange(0, e.esc_at as int)
    } else {
        e.pending
    }
}

/// One transition of the engine: the next state, and the bytes written.
///
/// A sync marker's own bytes are not passed on: the start marker opens a
/// block (or, inside an open block, is dropped, so that the block keeps its
/// one opening marker and its content), and the end marker closes the open
/// block (or, with none open, is dropped). Inside an open block, bytes
/// staged before the marker's escape byte (an unterminated string that the
/// marker cut off) stay in the block; outside one they are dropped with the
/// marker.
pub open spec fn engine_step(e: EngineView, b: u8) -> (EngineView, Seq<u8>) {
    let (s2, ev) = scanner_step(e.scanner, b);
    if ev == Some(ParsedEscape::SyncStart) {
        (
            EngineView {
                scanner: s2,
                in_block: true,
                block: if e.in_block {
                    e.block + staged(e)
                } else {
                    seq![]
                },
                pending: seq![],
                esc_at: 0,
                line_cap: e.line_cap,
            },
            seq![],
        )
    } else if ev == Some(ParsedEscape::SyncEnd) {
        (
            EngineView {
                scanner: s2,
                in_block: false,
                block: seq![],
                pending: seq![],
                esc_at: 0,
                line_cap: e.line_cap,
            },
            if e.in_block {
                closed_block(e.block + staged(e), e.line_cap)
            } else {
                seq![]
            },
        )
    } else if s2.state != ParserState::Ground {
        (
            EngineView {
                scanner: s2,
                in_block: e.in_block,
                block: e.block,
                pending: e.pending.push(b),
                esc_at: if s2.state == ParserState::Escape {
                    e.pending.len()
                } else {
                    e.esc_at
                },
                line_cap: e.line_cap,
            },
            seq![],
        )
    } else if e.in_block {
        (
            EngineView {
                scanner: s2,
                in_block: true,
                block: e.block + e.pending.push(b),
                pending: seq![],
                esc_at: 0,
                line_cap: e.line_cap,
            },
            seq![],
        )
    } else {
        (
            EngineView {
                scanner: s2,
                in_block: false,
                block: e.block,
                pending: seq![],
                esc_at: 0,
                line_cap: e.line_cap,
            },
            e.pending.push(b),
        )
    }
}

/// The state after the bytes of `s`, and everything written meanwhile.
pub open spec fn engine_run(e: EngineView, s: Seq<u8>) -> (EngineView, Seq<u8>)
    decreases s.len(),
{
    if s.len() == 0 {
        (e, seq![])
    } else {
        let (e1, o1) = engine_run(e, s.drop_last());
        let (e2, o2) = engine_step(e1, s.last());
        (e2, o1 + o2)
    }
}

/// What closing the session writes: an open block as it stands, then any
/// unfinished sequence.
pub open spec fn finish_output(e: EngineView) -> Seq<u8> {
    (if e.in_block {
        sync_start_seq() + e.block
    } else {
        seq![]
    }) + e.pending
}

/// Whether the scanner, from `v`, reads `t` as complete sequences other than
/// the sync markers: it reports neither marker and ends in its ground state.
pub open spec fn neutral_from(v: ScannerView, t: Seq<u8>) -> bool {
    &&& scan(v, t).0.state == ParserState::Ground
    &&& !scan(v, t).1.contains(ParsedEscape::SyncStart)
    &&& !scan(v, t).1.contains(ParsedEscape::SyncEnd)
}

/// Bytes that read as complete sequences other than the sync markers from
/// every ground state: text, line breaks, and whole control sequences.
pub open spec fn neutral(t: Seq<u8>) -> bool {
    forall|v: ScannerView| v.state == ParserState::Ground ==> #[trigger] neutral_from(v, t)
}

/// Everything a session over `s` writes with an engine that caps nothing:
/// the output of processing `s`, then what closing the session writes.
pub open spec fn passthrough(s: Seq<u8>) -> Seq<u8> {
    engine_run(initial_engine(None), s).1 + finish_output(engine_run(initial_engine(None), s).0)
}

/// The bytes of one piece of a stream: a complete sync block around the
/// content where the flag is set, else plain text.
pub open spec fn piece_bytes(p: (bool, Seq<u8>)) -> Seq<u8> {
    if p.0 {
        sync_start_seq() + p.1 + sync_end_seq()
    } else {
        p.1
    }
}

/// The stream made of `pieces` in order.
pub open spec fn stream_of(pieces: Seq<(bool, Seq<u8>)>) -> Seq<u8>
    decreases pieces.len(),
{
    if pieces.len() == 0 {
        seq![]
    } else {
        stream_of(pieces.drop_last()) + piece_bytes(pieces.last())
    }
}

/// A block left open at the end of a stream, if any.
pub open spec fn open_tail(open: Option<Seq<u8>>) -> Seq<u8> {
    match open {
        Some(t) => sync_start_seq() + t,
        None => seq![],
    }
}

/// Processing in two chunks, with the state carried across the boundary,
/// writes the same bytes and ends in the same state as processing at once.
pub proof fn lemma_engine_split(e: EngineView, a: Seq<u8>, b: Seq<u8>)
    ensures
        engine_run(e, a + b).0 == engine_run(engine_run(e, a).0, b).0,
        engine_run(e, a + b).1 == engine_run(e, a).1 + engine_run(engine_run(e, a).0, b).1,
    decreases b.len(),
{
    if b.len() == 0 {
        assert(a + b =~= a);
        assert(engine_run(e, a).1 + engine_run(engine_run(e, a).0, b).1 =~= engine_run(e, a).1);
    } else {
        lemma_engine_split(e, a, b.drop_last());
        assert((a + b).drop_last() =~= a + b.drop_last());
        assert((a + b).last() == b.last());
        let mid = engine_run(e, a).0;
        let (e1, o1) = engine_run(mid, b.drop_last());
        let (e2, o2) = engine_step(e1, b.last());
        assert(engine_run(e, a).1 + (o1 + o2) =~= (engine_run(e, a).1 + o1) + o2);
    }
}

proof fn lemma_run_push(e: EngineView, s: Seq<u8>, b: u8)
    ensures
        engine_run(e, s.push(b)).0 == engine_step(engine_run(e, s).0, b).0,
        engine_run(e, s.push(b)).1 == engine_run(e, s).1 + engine_step(engine_run(e, s).0, b).1,
{
    assert(s.push(b).drop_last() =~= s);
}

proof fn lemma_run_neutral_prefix(e: EngineView, t: Seq<u8>)
    requires
        e.scanner.state == ParserState::Ground,
        e.pending.len() == 0,
        !scan(e.scanner, t).1.contains(ParsedEscape::SyncStart),
        !scan(e.scanner, t).1.contains(ParsedEscape::SyncEnd),
    ensures
        engine_run(e, t).0.scanner == scan(e.scanner, t).0,
        engine_run(e, t).0.in_block == e.in_block,
        engine_run(e, t).0.line_cap == e.line_cap,
        (engine_run(e, t).0.pending.len() == 0) == (engine_run(e, t).0.scanner.state
            == ParserState::Ground),
        e.in_block ==> engine_run(e, t).0.block + engine_run(e, t).0.pending == e.block + t,
        e.in_block ==> engine_run(e, t).1 == Seq::<u8>::empty(),
        !e.in_block ==> engine_run(e, t).1 + engine_run(e, t).0.pending == t,
    decreases t.len(),
{
    if t.len() == 0 {
        assert(e.block + t =~= e.block);
        assert(e.block + e.pending =~= e.block);
        assert(Seq::<u8>::empty() + e.pending =~= t);
    } else {
        let init = t.drop_last();
        let b = t.last();
        let (v1, ev1) = scan(e.scanner, init);
        let (v2, o) = scanner_step(v1, b);
        assert(scan(e.scanner, t).1 == ev1 + event_seq(o));
        assert(!ev1.contains(ParsedEscape::SyncStart)) by {
            if ev1.contains(ParsedEscape::SyncStart) {
                let k = choose|k: int| 0 <= k < ev1.len() && ev1[k] == ParsedEscape::SyncStart;
                assert((ev1 + event_seq(o))[k] == ParsedEscape::SyncStart);
            }
        }
        assert(!ev1.contains(ParsedEscape::SyncEnd)) by {
            if ev1.contains(ParsedEscape::SyncEnd) {
                let k = choose|k: int| 0 <= k < ev1.len() && ev1[k] == ParsedEscape::SyncEnd;
                assert((ev1 + event_seq(o))[k] == ParsedEscape::SyncEnd);
            }
        }
        assert(o != Some(ParsedEscape::SyncStart)) by {
            if o == Some(ParsedEscape::SyncStart) {
                assert((ev1 + event_seq(o))[ev1.len() as int] == ParsedEscape::SyncStart);
            }
        }
        assert(o != Some(ParsedEscape::SyncEnd)) by {
            if o == Some(ParsedEscape::SyncEnd) {
                assert((ev1 + event_seq(o))[ev1.len() as int] == ParsedEscape::SyncEnd);
            }
        }
        lemma_run_neutral_prefix(e, init);
        assert(init.push(b) =~= t);
        lemma_run_push(e, init, b);
        let e1 = engine_run(e, init).0;
        let o1 = engine_run(e, init).1;
        assert(e1.block + e1.pending.push(b) =~= (e1.block + e1.pending).push(b));
        assert((e.block + init).push(b) =~= e.block + t);
        assert(o1 + e1.pending.push(b) =~= (o1 + e1.pending).push(b));
        assert(o1 + Seq::<u8>::empty() =~= o1);
        assert(e1.block + e1.pending.push(b) + Seq::<u8>::empty() =~= e1.block
            + e1.pending.push(b));
        assert(o1 + e1.pending.push(b) + Seq::<u8>::empty() =~= o1 + e1.pending.push(b));
    }
}

/// Bytes that the scanner reads as complete sequences other than the sync
/// markers, met with nothing pending, pass unchanged to the open block or to
/// the output.
pub proof fn lemma_run_text(e: EngineView, t: Seq<u8>)
    requires
        e.scanner.state == ParserState::Ground,
        e.pending.len() == 0,
        neutral_from(e.scanner, t),
    ensures
        engine_run(e, t).0.scanner.state == ParserState::Ground,
        engine_run(e, t).0.pending.len() == 0,
        engine_run(e, t).0.in_block == e.in_block,
        engine_run(e, t).0.line_cap == e.line_cap,
        e.in_block ==> engine_run(e, t).0.block == e.block + t,
        e.in_block ==> engine_run(e, t).1 == Seq::<u8>::empty(),
        !e.in_block ==> engine_run(e, t).1 == t,
{
    lemma_run_neutral_prefix(e, t);
    let e2 = engine_run(e, t).0;
    assert(e2.pending =~= Seq::<u8>::empty());
    assert(e2.block + e2.pending =~= e2.block);
    assert(engine_run(e, t).1 + e2.pending =~= engine_run(e, t).1);
}

/// The sync-start marker, met with nothing pending, opens a fresh block; in
/// a block that is already open it changes nothing but the scanner.
pub proof fn lemma_run_start(e: EngineView)
    requires
        e.scanner.state == ParserState::Ground,
        e.pending.len() == 0,
    ensures
        engine_run(e, sync_start_seq()).0.scanner.state == ParserState::Ground,
        engine_run(e, sync_start_seq()).0.pending.len() == 0,
        engine_run(e, sync_start_seq()).0.in_block,
        engine_run(e, sync_start_seq()).0.block == (if e.in_block {
            e.block
        } else {
            Seq::<u8>::empty()
        }),
        engine_run(e, sync_start_seq()).0.line_cap == e.line_cap,
        engine_run(e, sync_start_seq()).1 == Seq::<u8>::empty(),
{
    let p0 = Seq::<u8>::empty();
    let p1 = p0.push(0x1b);
    let p2 = p1.push(0x5b);
    let p3 = p2.push(0x3f);
    let p4 = p3.push(0x32);
    let p5 = p4.push(0x30);
    let p6 = p5.push(0x32);
    let p7 = p6.push(0x36);
    let p8 = p7.push(0x68);
    assert(p8 =~= sync_start_seq());
    lemma_run_push(e, p0, 0x1b);
    lemma_run_push(e, p1, 0x5b);
    lemma_run_push(e, p2, 0x3f);
    lemma_run_push(e, p3, 0x32);
    lemma_run_push(e, p4, 0x30);
    lemma_run_push(e, p5, 0x32);
    lemma_run_push(e, p6, 0x36);
    lemma_run_push(e, p7, 0x68);
    assert(engine_run(e, p7).0.scanner.params =~= seq![2026u16]);
    assert(engine_run(e, p7).0.scanner.intermediate =~= seq![0x3fu8]);
    assert(engine_run(e, p7).0.esc_at == 0);
    assert(staged(engine_run(e, p7).0) =~= Seq::<u8>::empty());
    assert(engine_run(e, p8).1 =~= Seq::<u8>::empty());
    assert(engine_run(e, p8).0.block =~= (if e.in_block {
        e.block
    } else {
        Seq::<u8>::empty()
    }));
}

/// Whether the scanner rests in `st` between sequences: in the ground state,
/// or inside a string, where an escape byte may begin a new sequence.
pub open spec fn resting(st: ParserState) -> bool {
    st == ParserState::Ground || st == ParserState::OscString || st == ParserState::DcsString
}

/// The sync-end marker, met in an open block while the scanner rests,
/// writes the block, with whatever was pending before the marker, and
/// closes it.
pub proof fn lemma_run_end(e: EngineView)
    requires
        resting(e.scanner.state),
        e.in_block,
    ensures
        engine_run(e, sync_end_seq()).0.scanner.state == ParserState::Ground,
        engine_run(e, sync_end_seq()).0.pending.len() == 0,
        !engine_run(e, sync_end_seq()).0.in_block,
        engine_run(e, sync_end_seq()).0.line_cap == e.line_cap,
        engine_run(e, sync_end_seq()).1 == closed_block(e.block + e.pending, e.line_cap),
{
    let p0 = Seq::<u8>::empty();
    let p1 = p0.push(0x1b);
    let p2 = p1.push(0x5b);
    let p3 = p2.push(0x3f);
    let p4 = p3.push(0x32);
    let p5 = p4.push(0x30);
    let p6 = p5.push(0x32);
    let p7 = p6.push(0x36);
    let p8 = p7.push(0x6c);
    assert(p8 =~= sync_end_seq());
    lemma_run_push(e, p0, 0x1b);
    lemma_run_push(e, p1, 0x5b);
    lemma_run_push(e, p2, 0x3f);
    lemma_run_push(e, p3, 0x32);
    lemma_run_push(e, p4, 0x30);
    lemma_run_push(e, p5, 0x32);
    lemma_run_push(e, p6, 0x36);
    lemma_run_push(e, p7, 0x6c);
    assert(engine_run(e, p1).0.esc_at == e.pending.len());
    assert(engine_run(e, p7).0.scanner.params =~= seq![2026u16]);
    assert(engine_run(e, p7).0.scanner.intermediate =~= seq![0x3fu8]);
    assert(engine_run(e, p7).0.esc_at == e.pending.len());
    assert(engine_run(e, p7).0.pending.len() == e.pending.len() + 7);
    assert(engine_run(e, p7).0.pending.subrange(0, e.pending.len() as int) =~= e.pending);
    assert(staged(engine_run(e, p7).0) =~= e.pending);
    assert(engine_run(e, p8).1 =~= closed_block(e.block + e.pending, e.line_cap));
}

/// Events with no sync marker among them.
pub open spec fn no_sync(es: Seq<ParsedEscape>) -> bool {
    forall|i: int|
        0 <= i < es.len() ==> es[i] != ParsedEscape::SyncStart && es[i] != ParsedEscape::SyncEnd
}

/// Whether the scanner, from `v`, reads `t` without a sync marker and ends
/// resting.
pub open spec fn quiet_from(v: ScannerView, t: Seq<u8>) -> bool {
    no_sync(scan(v, t).1) && resting(scan(v, t).0.state)
}

/// Block content that reads without a sync marker, and ends resting, from
/// every resting state.
pub open spec fn good_content(c: Seq<u8>) -> bool {
    forall|v: ScannerView| resting(v.state) ==> #[trigger] quiet_from(v, c)
}

/// A unit the engine passes on whole: a single byte, or bytes opened by an
/// escape byte, that a fresh scanner reads without a sync marker and ends
/// resting.
pub open spec fn clean_piece(p: Seq<u8>) -> bool {
    &&& p.len() > 0 ==> (p[0] == ESC || p.len() == 1)
    &&& no_sync(scan(initial_scanner(), p).1)
    &&& resting(scan(initial_scanner(), p).0.state)
}

proof fn lemma_no_sync_concat(a: Seq<ParsedEscape>, b: Seq<ParsedEscape>)
    requires
        no_sync(a),
        no_sync(b),
    ensures
        no_sync(a + b),
{
    assert forall|i: int| 0 <= i < (a + b).len() implies (a + b)[i] != ParsedEscape::SyncStart
        && (a + b)[i] != ParsedEscape::SyncEnd by {
        if i < a.len() {
            assert((a + b)[i] == a[i]);
        } else {
            assert((a + b)[i] == b[i - a.len()]);
        }
    }
}

proof fn lemma_scan_one(v: ScannerView, b: u8)
    ensures
        scan(v, seq![b]) == (scanner_step(v, b).0, event_seq(scanner_step(v, b).1)),
{
    let s1 = seq![b];
    assert(s1.drop_last() =~= Seq::<u8>::empty());
    assert(scan(v, s1.drop_last()) == (v, Seq::<ParsedEscape>::empty()));
    assert(s1.last() == b);
    assert(Seq::<ParsedEscape>::empty() + event_seq(scanner_step(v, b).1) =~= event_seq(
        scanner_step(v, b).1,
    ));
}

/// A clean piece reads without a sync marker, and ends resting, from every
/// resting state, not only from a fresh scanner.
pub proof fn lemma_clean_piece_quiet(v: ScannerView, p: Seq<u8>)
    requires
        resting(v.state),
        clean_piece(p),
    ensures
        quiet_from(v, p),
{
    let i0 = initial_scanner();
    if p.len() == 0 {
        assert(no_sync(Seq::<ParsedEscape>::empty()));
    } else if p[0] == ESC {
        let rest = p.subrange(1, p.len() as int);
        assert(seq![ESC] + rest =~= p);
        lemma_scan_split(v, seq![ESC], rest);
        lemma_scan_split(i0, seq![ESC], rest);
        lemma_scan_one(v, ESC);
        lemma_scan_one(i0, ESC);
        lemma_scan_alike(scan(v, seq![ESC]).0, scan(i0, seq![ESC]).0, rest);
        assert(scan(v, p).1 =~= scan(i0, p).1);
    } else {
        assert(p =~= seq![p[0]]);
        lemma_scan_one(v, p[0]);
        lemma_scan_one(i0, p[0]);
    }
}

/// Good content stays good with a clean piece after it.
pub proof fn lemma_good_append(c: Seq<u8>, p: Seq<u8>)
    requires
        good_content(c),
        clean_piece(p),
    ensures
        good_content(c + p),
{
    assert forall|v: ScannerView| resting(v.state) implies #[trigger] quiet_from(v, c + p) by {
        assert(quiet_from(v, c));
        lemma_scan_split(v, c, p);
        lemma_clean_piece_quiet(scan(v, c).0, p);
        lemma_no_sync_concat(scan(v, c).1, scan(scan(v, c).0, p).1);
    }
}

proof fn lemma_no_sync_contains(es: Seq<ParsedEscape>)
    requires
        no_sync(es),
    ensures
        !es.contains(ParsedEscape::SyncStart),
        !es.contains(ParsedEscape::SyncEnd),
{
    if es.contains(ParsedEscape::SyncStart) {
        let k = choose|k: int| 0 <= k < es.len() && es[k] == ParsedEscape::SyncStart;
    }
    if es.contains(ParsedEscape::SyncEnd) {
        let k = choose|k: int| 0 <= k < es.len() && es[k] == ParsedEscape::SyncEnd;
    }
}

/// An uncapped engine between blocks with its scanner in ground and nothing
/// pending.
pub open spec fn idle(f: EngineView) -> bool {
    &&& f.scanner.state == ParserState::Ground
    &&& f.pending.len() == 0
    &&& !f.in_block
    &&& f.line_cap == None::<usize>
}

/// An idle engine passes on a clean piece that ends in ground unchanged.
proof fn lemma_rerun_piece(f: EngineView, o: Seq<u8>)
    requires
        idle(f),
        clean_piece(o),
        scan(initial_scanner(), o).0.state == ParserState::Ground,
    ensures
        idle(engine_run(f, o).0),
        engine_run(f, o).1 == o,
{
    lemma_scan_alike(f.scanner, initial_scanner(), o);
    lemma_no_sync_contains(scan(f.scanner, o).1);
    lemma_run_text(f, o);
}

/// An idle engine passes on a whole block with good content unchanged.
proof fn lemma_rerun_block(f: EngineView, c: Seq<u8>)
    requires
        idle(f),
        good_content(c),
    ensures
        idle(engine_run(f, closed_block(c, None)).0),
        engine_run(f, closed_block(c, None)).1 == closed_block(c, None),
{
    let st = sync_start_seq();
    let en = sync_end_seq();
    assert(closed_block(c, None) == st + c + en);
    lemma_run_start(f);
    let f1 = engine_run(f, st).0;
    assert(resting(f1.scanner.state));
    assert(quiet_from(f1.scanner, c));
    lemma_no_sync_contains(scan(f1.scanner, c).1);
    lemma_run_neutral_prefix(f1, c);
    let f2 = engine_run(f1, c).0;
    lemma_run_end(f2);
    assert(f2.block + f2.pending =~= c);
    lemma_engine_split(f, st, c);
    lemma_engine_split(f, st + c, en);
    assert(Seq::<u8>::empty() + Seq::<u8>::empty() + closed_block(c, None) =~= closed_block(
        c,
        None,
    ));
}

/// What holds of every state that a fresh uncapped engine reaches: an open
/// block holds good content, and the pending bytes read from a fresh
/// scanner, without an event, to a state alike the engine's scanner, with
/// the part before the last escape byte ending resting.
pub open spec fn first_pass_inv(e: EngineView) -> bool {
    &&& e.line_cap == None::<usize>
    &&& e.in_block ==> good_content(e.block)
    &&& scan(initial_scanner(), e.pending).1 == Seq::<ParsedEscape>::empty()
    &&& alike(scan(initial_scanner(), e.pending).0, e.scanner)
    &&& (e.pending.len() == 0) == (e.scanner.state == ParserState::Ground)
    &&& e.pending.len() > 0 ==> e.pending[0] == ESC
    &&& e.esc_at <= e.pending.len()
    &&& resting(scan(initial_scanner(), e.pending.subrange(0, e.esc_at as int)).0.state)
}

proof fn lemma_staged_clean(e: EngineView)
    requires
        first_pass_inv(e),
    ensures
        clean_piece(staged(e)),
{
    let i0 = initial_scanner();
    let f = staged(e);
    let rest = e.pending.subrange(e.esc_at as int, e.pending.len() as int);
    assert(f + rest =~= e.pending);
    lemma_scan_split(i0, f, rest);
    assert(scan(i0, f).1.len() == 0);
    assert(scan(i0, f).1 =~= Seq::<ParsedEscape>::empty());
    if f.len() > 0 {
        assert(f[0] == e.pending[0]);
    }
}

proof fn lemma_empty_scan()
    ensures
        scan(initial_scanner(), Seq::<u8>::empty()) == (
            initial_scanner(),
            Seq::<ParsedEscape>::empty(),
        ),
{
}

/// One step of a first pass keeps its invariant, and what it writes an idle
/// engine passes on unchanged.
proof fn lemma_first_pass_step(e: EngineView, b: u8, f: EngineView)
    requires
        first_pass_inv(e),
        idle(f),
    ensures
        first_pass_inv(engine_step(e, b).0),
        idle(engine_run(f, engine_step(e, b).1).0),
        engine_run(f, engine_step(e, b).1).1 == engine_step(e, b).1,
{
    let i0 = initial_scanner();
    let (s2, ev) = scanner_step(e.scanner, b);
    let (e2, o) = engine_step(e, b);
    let ps = scan(i0, e.pending).0;
    lemma_step_alike(ps, e.scanner, b);
    let seg = e.pending.push(b);
    assert(seg.drop_last() =~= e.pending);
    assert(scan(i0, seg).1 =~= Seq::<ParsedEscape>::empty() + event_seq(ev));
    lemma_empty_scan();
    assert(Seq::<u8>::empty().subrange(0, 0) =~= Seq::<u8>::empty());
    if ev == Some(ParsedEscape::SyncStart) || ev == Some(ParsedEscape::SyncEnd) {
        assert(s2.state == ParserState::Ground);
        assert(e2.pending =~= Seq::<u8>::empty());
        assert(e2.pending.subrange(0, 0) =~= Seq::<u8>::empty());
        if e.in_block {
            lemma_staged_clean(e);
            lemma_good_append(e.block, staged(e));
        }
        if ev == Some(ParsedEscape::SyncStart) {
            if !e.in_block {
                assert(e2.block =~= Seq::<u8>::empty());
                assert forall|v: ScannerView| resting(v.state) implies #[trigger] quiet_from(
                    v,
                    e2.block,
                ) by {
                    assert(scan(v, e2.block) == (v, Seq::<ParsedEscape>::empty()));
                }
            }
        } else if e.in_block {
            lemma_rerun_block(f, e.block + staged(e));
        }
        if o.len() == 0 {
            assert(o =~= Seq::<u8>::empty());
            assert(engine_run(f, o) == (f, Seq::<u8>::empty()));
        }
    } else if s2.state != ParserState::Ground {
        assert(ev == None::<ParsedEscape>);
        assert(scan(i0, seg).1 =~= Seq::<ParsedEscape>::empty());
        if e.pending.len() == 0 {
            assert(b == ESC);
        }
        assert(seg[0] == ESC);
        if s2.state == ParserState::Escape {
            assert(resting(e.scanner.state));
            assert(seg.subrange(0, e.pending.len() as int) =~= e.pending);
        } else {
            assert(seg.subrange(0, e.esc_at as int) =~= e.pending.subrange(0, e.esc_at as int));
        }
        assert(o =~= Seq::<u8>::empty());
        assert(engine_run(f, o) == (f, Seq::<u8>::empty()));
    } else {
        assert(no_sync(scan(i0, seg).1));
        if e.pending.len() > 0 {
            assert(seg[0] == ESC);
        }
        assert(clean_piece(seg));
        assert(e2.pending =~= Seq::<u8>::empty());
        assert(e2.pending.subrange(0, 0) =~= Seq::<u8>::empty());
        if e.in_block {
            lemma_good_append(e.block, seg);
            assert(o =~= Seq::<u8>::empty());
            assert(engine_run(f, o) == (f, Seq::<u8>::empty()));
        } else {
            lemma_rerun_piece(f, seg);
        }
    }
}

proof fn lemma_first_pass(s: Seq<u8>)
    ensures
        first_pass_inv(engine_run(initial_engine(None), s).0),
        idle(engine_run(initial_engine(None), engine_run(initial_engine(None), s).1).0),
        engine_run(initial_engine(None), engine_run(initial_engine(None), s).1).1 == engine_run(
            initial_engine(None),
            s,
        ).1,
    decreases s.len(),
{
    let e0 = initial_engine(None);
    if s.len() == 0 {
        lemma_empty_scan();
        assert(e0.pending.subrange(0, 0) =~= Seq::<u8>::empty());
        assert(engine_run(e0, Seq::<u8>::empty()) == (e0, Seq::<u8>::empty()));
    } else {
        let init = s.drop_last();
        let b = s.last();
        lemma_first_pass(init);
        assert(init.push(b) =~= s);
        lemma_run_push(e0, init, b);
        let e = engine_run(e0, init).0;
        let t = engine_run(e0, init).1;
        let f = engine_run(e0, t).0;
        lemma_first_pass_step(e, b, f);
        lemma_engine_split(e0, t, engine_step(e, b).1);
    }
}

/// Feeding what a fresh uncapped engine writes for any input into a second
/// fresh uncapped engine writes it again, unchanged.
pub proof fn lemma_process_idempotent(s: Seq<u8>)
    ensures
        engine_run(initial_engine(None), engine_run(initial_engine(None), s).1).1 == engine_run(
            initial_engine(None),
            s,
        ).1,
{
    lemma_first_pass(s);
}

proof fn lemma_run_pieces(pieces: Seq<(bool, Seq<u8>)>)
    requires
        forall|i: int| 0 <= i < pieces.len() ==> neutral(#[trigger] pieces[i].1),
    ensures
        engine_run(initial_engine(None), stream_of(pieces)).0.scanner.state
            == ParserState::Ground,
        engine_run(initial_engine(None), stream_of(pieces)).0.pending.len() == 0,
        !engine_run(initial_engine(None), stream_of(pieces)).0.in_block,
        engine_run(initial_engine(None), stream_of(pieces)).0.line_cap == None::<usize>,
        engine_run(initial_engine(None), stream_of(pieces)).1 == stream_of(pieces),
    decreases pieces.len(),
{
    let e0 = initial_engine(None);
    if pieces.len() == 0 {
    } else {
        let init = pieces.drop_last();
        let p = pieces.last();
        assert(neutral(p.1)) by {
            assert(pieces[pieces.len() - 1] == p);
        }
        lemma_run_pieces(init);
        let a = stream_of(init);
        let e = engine_run(e0, a).0;
        lemma_engine_split(e0, a, piece_bytes(p));
        if p.0 {
            let st = sync_start_seq();
            let en = sync_end_seq();
            lemma_run_start(e);
            let e1 = engine_run(e, st).0;
            lemma_run_text(e1, p.1);
            let e2 = engine_run(e1, p.1).0;
            lemma_run_end(e2);
            assert(e2.block + e2.pending =~= e2.block);
            lemma_engine_split(e, st, p.1);
            lemma_engine_split(e, st + p.1, en);
            assert(e1.block + p.1 =~= p.1);
            assert(Seq::<u8>::empty() + Seq::<u8>::empty() =~= Seq::<u8>::empty());
            assert(Seq::<u8>::empty() + closed_block(p.1, None) =~= closed_block(p.1, None));
        } else {
            lemma_run_text(e, p.1);
        }
    }
}

/// A stream made of neutral pieces (text and whole control sequences other
/// than the sync markers) and complete sync blocks with neutral content,
/// possibly ending in one block left open, comes out of an uncapped session
/// byte for byte as it went in.
pub proof fn lemma_round_trip(pieces: Seq<(bool, Seq<u8>)>, open: Option<Seq<u8>>)
    requires
        forall|i: int| 0 <= i < pieces.len() ==> neutral(#[trigger] pieces[i].1),
        open matches Some(t) ==> neutral(t),
    ensures
        passthrough(stream_of(pieces) + open_tail(open)) == stream_of(pieces) + open_tail(open),
{
    let e0 = initial_engine(None);
    let a = stream_of(pieces);
    lemma_run_pieces(pieces);
    let e = engine_run(e0, a).0;
    lemma_engine_split(e0, a, open_tail(open));
    match open {
        Some(t) => {
            let st = sync_start_seq();
            lemma_run_start(e);
            let e1 = engine_run(e, st).0;
            lemma_run_text(e1, t);
            lemma_engine_split(e, st, t);
            let e2 = engine_run(e1, t).0;
            assert(e2.block =~= t);
            assert(e2.pending =~= Seq::<u8>::empty());
            assert(a + Seq::<u8>::empty() + Seq::<u8>::empty() + (st + t + Seq::<u8>::empty())
                =~= a + (st + t));
        },
        None => {
            assert(open_tail(open) =~= Seq::<u8>::empty());
            assert(a + open_tail(open) =~= a);
            assert(a + Seq::<u8>::empty() =~= a);
            assert(finish_output(e) =~= Seq::<u8>::empty());
        },
    }
}

/// The synchronized-update engine.
pub struct OutputProcessor {
    parser: EscapeParser,
    in_sync_block: bool,
    sync_buffer: Vec<u8>,
    pending_escape: Vec<u8>,
    escape_start: usize,
    max_block_lines: Option<usize>,
}

impl View for OutputProcessor {
    type V = EngineView;

    closed spec fn view(&self) -> EngineView {
        EngineView {
            scanner: self.parser@,
            in_block: self.in_sync_block,
            block: self.sync_buffer@,
            pending: self.pending_escape@,
            esc_at: self.escape_start as nat,
            line_cap: self.max_block_lines,
        }
    }
}

impl Default for OutputProcessor {
    fn default() -> (r: Self)
        ensures
            r@ == initial_engine(None),
    {
        Self::new()
    }
}

impl OutputProcessor {
    /// An engine that writes every block in full.
    pub fn new() -> (r: Self)
        ensures
            r@ == initial_engine(None),
    {
        Self::with_line_cap(None)
    }

    /// An engine that shows at most `max_lines` lines of a completed block.
    pub fn with_max_lines(max_lines: usize) -> (r: Self)
        ensures
            r@ == initial_engine(Some(max_lines)),
    {
        Self::with_line_cap(Some(max_lines))
    }

    fn with_line_cap(line_cap: Option<usize>) -> (r: Self)
        ensures
            r@ == initial_engine(line_cap),
    {
        let r = OutputProcessor {
            parser: EscapeParser::new(),
            in_sync_block: false,
            sync_buffer: Vec::new(),
            pending_escape: Vec::new(),
            escape_start: 0,
            max_block_lines: line_cap,
        };
        assert(r@.block =~= Seq::<u8>::empty());
        assert(r@.pending =~= Seq::<u8>::empty());
        r
    }

    /// Processes one chunk of child output; returns the bytes to write now.
    pub fn process(&mut self, data: &[u8]) -> (r: Vec<u8>)
        ensures
            (final(self)@, r@) == engine_run(old(self)@, data@),
    {
        let mut output: Vec<u8> = Vec::new();
        let mut i: usize = 0;
        assert(data@.subrange(0, 0) =~= Seq::<u8>::empty());
        while i < data.len()
            invariant
                i <= data@.len(),
                (self@, output@) == engine_run(old(self)@, data@.subrange(0, i as int)),
            decreases data@.len() - i,
        {
            self.process_byte(data[i], &mut output);
            assert(data@.subrange(0, i + 1).drop_last() =~= data@.subrange(0, i as int));
            i = i + 1;
        }
        assert(data@.subrange(0, data@.len() as int) =~= data@);
        output
    }

    fn process_byte(&mut self, byte: u8, output: &mut Vec<u8>)
        ensures
            final(self)@ == engine_step(old(self)@, byte).0,
            final(output)@ == old(output)@ + engine_step(old(self)@, byte).1,
    {
        let event = self.parser.feed(byte);
        let n = self.pending_escape.len();
        let k: usize = if self.escape_start <= n {
            self.escape_start
        } else {
            n
        };
        match event {
            Some(ParsedEscape::SyncStart) => {
                let staged_bytes = vstd::slice::slice_subrange(self.pending_escape.as_slice(), 0, k);
                assert(staged_bytes@ =~= staged(old(self)@));
                if self.in_sync_block {
                    append_bytes(&mut self.sync_buffer, staged_bytes);
                } else {
                    self.sync_buffer.clear();
                }
                assert(old(output)@ + Seq::<u8>::empty() =~= old(output)@);
                self.pending_escape.clear();
                self.escape_start = 0;
                self.in_sync_block = true;
            },
            Some(ParsedEscape::SyncEnd) => {
                let staged_bytes = vstd::slice::slice_subrange(self.pending_escape.as_slice(), 0, k);
                assert(staged_bytes@ =~= staged(old(self)@));
                if self.in_sync_block {
                    append_bytes(&mut self.sync_buffer, staged_bytes);
                    assert(self@.block == old(self)@.block + staged(old(self)@));
                    self.write_closed_block(output);
                    self.in_sync_block = false;
                } else {
                    assert(old(output)@ + Seq::<u8>::empty() =~= old(output)@);
                }
                self.pending_escape.clear();
                self.escape_start = 0;
                self.sync_buffer.clear();
            },
            _ => {
                if self.parser.in_escape_sequence() {
                    if matches!(self.parser_state(), ParserState::Escape) {
                        self.escape_start = n;
                    }
                    self.pending_escape.push(byte);
                    assert(old(output)@ + Seq::<u8>::empty() =~= old(output)@);
                } else if self.in_sync_block {
                    self.pending_escape.push(byte);
                    append_bytes(&mut self.sync_buffer, self.pending_escape.as_slice());
                    self.pending_escape.clear();
                    self.escape_start = 0;
                    assert(old(output)@ + Seq::<u8>::empty() =~= old(output)@);
                } else {
                    self.pending_escape.push(byte);
                    append_bytes(output, self.pending_escape.as_slice());
                    self.pending_escape.clear();
                    self.escape_start = 0;
                }
            },
        }
        assert(self@.pending =~= engine_step(old(self)@, byte).0.pending);
        assert(self@.block =~= engine_step(old(self)@, byte).0.block);
        assert(output@ =~= old(output)@ + engine_step(old(self)@, byte).1);
    }

    fn parser_state(&self) -> (r: ParserState)
        ensures
            r == self@.scanner.state,
    {
        self.parser.state()
    }

    /// Writes the open block, capped, between its two markers.
    fn write_closed_block(&self, output: &mut Vec<u8>)
        ensures
            final(output)@ == old(output)@ + closed_block(self@.block, self@.line_cap),
    {
        push_sync_start(output);
        let ghost at_content = output@;
        match self.max_block_lines {
            Some(n) => {
                let mut lines = LineBuffer::new(self.sync_buffer.len());
                assert(entries(empty_history(self.sync_buffer@.len())) =~= Seq::<Seq<u8>>::empty());
                lines.push_bytes(self.sync_buffer.as_slice());
                if lines.line_count() > n {
                    push_reposition(output);
                    lines.append_last_n_lines(n, output);
                } else {
                    append_bytes(output, self.sync_buffer.as_slice());
                }
            },
            None => {
                append_bytes(output, self.sync_buffer.as_slice());
            },
        }
        assert(output@ =~= at_content + shown_content(self@.block, self@.line_cap));
        push_sync_end(output);
        assert(output@ =~= old(output)@ + closed_block(self@.block, self@.line_cap));
    }

    /// Ends the session: writes an open block as it stands and any
    /// unfinished sequence, and returns the engine to its fresh state.
    pub fn finish(&mut self) -> (r: Vec<u8>)
        ensures
            r@ == finish_output(old(self)@),
            final(self)@ == initial_engine(old(self)@.line_cap),
    {
        let mut output: Vec<u8> = Vec::new();
        if self.in_sync_block {
            push_sync_start(&mut output);
            append_bytes(&mut output, self.sync_buffer.as_slice());
        }
        append_bytes(&mut output, self.pending_escape.as_slice());
        *self = Self::with_line_cap(self.max_block_lines);
        assert(output@ =~= finish_output(old(self)@));
        output
    }
}

} // verus!
