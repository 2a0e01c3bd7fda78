//! The decisions of a proxied session, apart from its I/O: what to write to
//! the screen for a chunk of child output, and what to forward to the child
//! or show for a chunk of user input.
//!
//! In normal mode child output goes through the sync engine to the screen.
//! The hotkey, which may arrive split over several reads, switches to
//! lookback mode, which shows the whole history and holds back live output
//! until the next input returns to normal mode.
//! Every byte of child output is recorded in the history first.

use vstd::prelude::*;
use crate::escape_sequences::append_bytes;
use crate::line_buffer::{byte_len, empty_history, entries, join, push_bytes_spec, HistoryView, LineBuffer};
use crate::output_processor::{engine_run, finish_output, initial_engine, EngineView, OutputProcessor};
use crate::script_parser::{bytes_match_at, matches_at};

verus! {

/// Whether the screen shows live output or the history.
#[derive(Debug, Clone, Copy, PartialEq, Eq, Structural)]
pub enum Mode {
    Normal,
    Lookback,
}

/// What one chunk of user input leads to.
pub struct InputAction {
    /// Bytes to forward to the child.
    pub to_child: Vec<u8>,
    /// Bytes to write to the screen.
    pub to_screen: Vec<u8>,
}

/// A session's state as a mathematical value.
pub struct SessionView {
    pub engine: EngineView,
    pub history: HistoryView,
    pub mode: Mode,
    pub hotkey: Seq<u8>,
    /// Output held back while in lookback mode.
    pub held: Seq<u8>,
    /// Input held back because it ends in the start of the hotkey.
    pub key_held: Seq<u8>,
}

/// The reverse-video banner line written above the history.
pub open spec fn lookback_banner() -> Seq<u8> {
    seq![
        0x1bu8, 0x5b, 0x37, 0x6d, 0x2d, 0x2d, 0x2d, 0x20, 0x4c, 0x4f, 0x4f, 0x4b, 0x42, 0x41,
        0x43, 0x4b, 0x20, 0x4d, 0x4f, 0x44, 0x45, 0x20, 0x2d, 0x2d, 0x2d, 0x1b, 0x5b, 0x30,
        0x6d, 0x0d, 0x0a,
    ]
}

/// What entering lookback mode writes: the banner, then the whole history.
pub open spec fn lookback_screen(h: HistoryView) -> Seq<u8> {
    lookback_banner() + join(entries(h))
}

/// Whether `i` is the first position at which `m` occurs in `s`.
pub open spec fn is_first_occurrence(s: Seq<u8>, m: Seq<u8>, i: int) -> bool {
    matches_at(s, m, i) && forall|j: int| 0 <= j < i ==> !matches_at(s, m, j)
}

/// Where a non-empty `m` first occurs in `s`, if it does.
pub open spec fn first_occurrence(s: Seq<u8>, m: Seq<u8>) -> Option<int> {
    if m.len() > 0 && exists|i: int| is_first_occurrence(s, m, i) {
        Some(choose|i: int| is_first_occurrence(s, m, i))
    } else {
        None
    }
}

/// Whether the last `j` bytes of `s` are the first `j` bytes of `key`, for a
/// `j` short of the whole key.
pub open spec fn ends_with_key_start(s: Seq<u8>, key: Seq<u8>, j: int) -> bool {
    0 <= j < key.len() && j <= s.len() && s.subrange(s.len() - j, s.len() as int)
        == key.subrange(0, j)
}

pub open spec fn is_longest_key_start(s: Seq<u8>, key: Seq<u8>, j: int) -> bool {
    ends_with_key_start(s, key, j) && forall|i: int| j < i ==> !ends_with_key_start(s, key, i)
}

/// How many bytes at the end of `s` could begin the hotkey `key`: the
/// longest such suffix shorter than the key, 0 for an empty key.
pub open spec fn key_start_len(s: Seq<u8>, key: Seq<u8>) -> int {
    if key.len() > 0 {
        choose|j: int| is_longest_key_start(s, key, j)
    } else {
        0
    }
}

/// `s` with the `k` bytes at `p` taken out.
pub open spec fn cut_out(s: Seq<u8>, p: int, k: int) -> Seq<u8> {
    s.subrange(0, p) + s.subrange(p + k, s.len() as int)
}

fn ends_with_key_start_exec(s: &[u8], key: &[u8], j: usize) -> (r: bool)
    requires
        j <= s@.len(),
        j < key@.len(),
    ensures
        r == ends_with_key_start(s@, key@, j as int),
{
    let n = s.len();
    let mut t: usize = 0;
    while t < j
        invariant
            n == s@.len(),
            j <= n,
            j < key@.len(),
            t <= j,
            forall|u: int| 0 <= u < t ==> s@[n - j + u] == key@[u],
        decreases j - t,
    {
        if s[n - j + t] != key[t] {
            assert(s@.subrange(n - j, n as int)[t as int] != key@.subrange(0, j as int)[t as int]);
            return false;
        }
        t = t + 1;
    }
    assert(s@.subrange(n - j, n as int) =~= key@.subrange(0, j as int));
    true
}

/// How many bytes at the end of `s` could begin `key`.
fn key_start_suffix(s: &[u8], key: &[u8]) -> (r: usize)
    ensures
        r == key_start_len(s@, key@),
        r <= s@.len(),
{
    if key.len() == 0 {
        return 0;
    }
    let mut j: usize = if s.len() < key.len() - 1 {
        s.len()
    } else {
        key.len() - 1
    };
    while j > 0
        invariant
            j <= s@.len(),
            j < key@.len(),
            forall|i: int| j < i ==> !ends_with_key_start(s@, key@, i),
        decreases j,
    {
        if ends_with_key_start_exec(s, key, j) {
            assert(is_longest_key_start(s@, key@, j as int));
            let ghost c = choose|c: int| is_longest_key_start(s@, key@, c);
            assert(c == j as int);
            return j;
        }
        j = j - 1;
    }
    assert(s@.subrange(s@.len() as int, s@.len() as int) =~= key@.subrange(0, 0));
    assert(is_longest_key_start(s@, key@, 0));
    let ghost c = choose|c: int| is_longest_key_start(s@, key@, c);
    assert(c == 0);
    0
}

/// A proxied session's engine, history and mode.
pub struct Session {
    engine: OutputProcessor,
    history: LineBuffer,
    mode: Mode,
    hotkey: Vec<u8>,
    held: Vec<u8>,
    key_held: Vec<u8>,
}

impl View for Session {
    type V = SessionView;

    closed spec fn view(&self) -> SessionView {
        SessionView {
            engine: self.engine@,
            history: self.history@,
            mode: self.mode,
            hotkey: self.hotkey@,
            held: self.held@,
            key_held: self.key_held@,
        }
    }
}

fn push_lookback_banner(dst: &mut Vec<u8>)
    ensures
        final(dst)@ == old(dst)@ + lookback_banner(),
{
    let m: [u8; 31] = [
        0x1b, 0x5b, 0x37, 0x6d, 0x2d, 0x2d, 0x2d, 0x20, 0x4c, 0x4f, 0x4f, 0x4b, 0x42, 0x41, 0x43,
        0x4b, 0x20, 0x4d, 0x4f, 0x44, 0x45, 0x20, 0x2d, 0x2d, 0x2d, 0x1b, 0x5b, 0x30, 0x6d, 0x0d,
        0x0a,
    ];
    append_bytes(dst, &m);
    assert(m@ =~= lookback_banner());
}

/// Where a non-empty `key` first occurs in `data`, if it does.
pub fn find_first(data: &[u8], key: &[u8]) -> (r: Option<usize>)
    ensures
        match r {
            Some(p) => first_occurrence(data@, key@) == Some(p as int),
            None => first_occurrence(data@, key@) == None::<int>,
        },
{
    if key.len() == 0 {
        return None;
    }
    let mut i: usize = 0;
    while i < data.len()
        invariant
            i <= data@.len(),
            key@.len() > 0,
            forall|j: int| 0 <= j < i ==> !matches_at(data@, key@, j),
        decreases data@.len() - i,
    {
        if bytes_match_at(data, key, i) {
            assert(is_first_occurrence(data@, key@, i as int));
            let ghost k = choose|k: int| is_first_occurrence(data@, key@, k);
            assert(k == i as int);
            return Some(i);
        }
        i = i + 1;
    }
    assert(!exists|k: int| is_first_occurrence(data@, key@, k));
    None
}

impl Session {
    /// The session's internal invariant.
    pub closed spec fn wf(&self) -> bool {
        self.history.wf()
    }

    /// A session in normal mode whose blocks show at most `max_lines` lines,
    /// whose history keeps `history_lines` lines, and which toggles lookback
    /// mode on `hotkey`.
    pub fn new(max_lines: usize, history_lines: usize, hotkey: Vec<u8>) -> (r: Self)
        ensures
            r.wf(),
            r@ == (SessionView {
                engine: initial_engine(Some(max_lines)),
                history: empty_history(history_lines as nat),
                mode: Mode::Normal,
                hotkey: hotkey@,
                held: Seq::<u8>::empty(),
                key_held: Seq::<u8>::empty(),
            }),
    {
        let r = Session {
            engine: OutputProcessor::with_max_lines(max_lines),
            history: LineBuffer::new(history_lines),
            mode: Mode::Normal,
            hotkey,
            held: Vec::new(),
            key_held: Vec::new(),
        };
        assert(r@.held =~= Seq::<u8>::empty());
        assert(r@.key_held =~= Seq::<u8>::empty());
        r
    }

    pub fn mode(&self) -> (r: Mode)
        ensures
            r == self@.mode,
    {
        self.mode
    }

    /// The number of bytes the history holds.
    pub fn history_bytes(&self) -> (r: usize)
        requires
            self.wf(),
        ensures
            r == byte_len(self@.history),
    {
        self.history.total_bytes()
    }

    /// Records a chunk of child output and returns what to write to the
    /// screen now: the engine's output in normal mode, nothing in lookback
    /// mode, where that output is held back instead.
    pub fn on_child_output(&mut self, data: &[u8]) -> (r: Vec<u8>)
        requires
            old(self).wf(),
            byte_len(old(self)@.history) + data@.len() <= usize::MAX,
        ensures
            final(self).wf(),
            final(self)@.history == push_bytes_spec(old(self)@.history, data@),
            final(self)@.engine == engine_run(old(self)@.engine, data@).0,
            final(self)@.mode == old(self)@.mode,
            final(self)@.hotkey == old(self)@.hotkey,
            final(self)@.key_held == old(self)@.key_held,
            old(self)@.mode == Mode::Normal ==> r@ == engine_run(old(self)@.engine, data@).1
                && final(self)@.held == old(self)@.held,
            old(self)@.mode == Mode::Lookback ==> r@ == Seq::<u8>::empty() && final(self)@.held
                == old(self)@.held + engine_run(old(self)@.engine, data@).1,
    {
        self.history.push_bytes(data);
        let out = self.engine.process(data);
        match self.mode {
            Mode::Normal => out,
            Mode::Lookback => {
                append_bytes(&mut self.held, out.as_slice());
                let r: Vec<u8> = Vec::new();
                assert(r@ =~= Seq::<u8>::empty());
                r
            },
        }
    }

    /// Decides what a chunk of user input does. In normal mode the chunk
    /// follows any input held back before it. Where the hotkey occurs, the
    /// bytes around its first occurrence are forwarded, and the hotkey enters
    /// lookback mode and shows the banner and the history. Elsewhere
    /// everything is forwarded but a final part that could begin the hotkey,
    /// which is held back for the next chunk. In lookback mode any input
    /// returns to normal mode and releases the held output; the input itself
    /// is consumed.
    pub fn on_user_input(&mut self, data: &[u8]) -> (r: InputAction)
        requires
            old(self).wf(),
        ensures
            final(self).wf(),
            old(self)@.mode == Mode::Normal ==> match first_occurrence(
                old(self)@.key_held + data@,
                old(self)@.hotkey,
            ) {
                Some(p) => r.to_child@ == cut_out(
                    old(self)@.key_held + data@,
                    p,
                    old(self)@.hotkey.len() as int,
                ) && r.to_screen@ == lookback_screen(old(self)@.history) && final(self)@ == (
                SessionView { mode: Mode::Lookback, key_held: Seq::<u8>::empty(), ..old(self)@ }),
                None => r.to_child@ == (old(self)@.key_held + data@).subrange(
                    0,
                    (old(self)@.key_held + data@).len() - key_start_len(
                        old(self)@.key_held + data@,
                        old(self)@.hotkey,
                    ),
                ) && r.to_screen@ == Seq::<u8>::empty() && final(self)@ == (SessionView {
                    key_held: (old(self)@.key_held + data@).subrange(
                        (old(self)@.key_held + data@).len() - key_start_len(
                            old(self)@.key_held + data@,
                            old(self)@.hotkey,
                        ),
                        (old(self)@.key_held + data@).len() as int,
                    ),
                    ..old(self)@
                }),
            },
            old(self)@.mode == Mode::Lookback ==> r.to_child@ == Seq::<u8>::empty()
                && r.to_screen@ == old(self)@.held && final(self)@ == (SessionView {
                mode: Mode::Normal,
                held: Seq::<u8>::empty(),
                ..old(self)@
            }),
    {
        let mut to_child: Vec<u8> = Vec::new();
        let mut to_screen: Vec<u8> = Vec::new();
        match self.mode {
            Mode::Normal => {
                let mut buf: Vec<u8> = Vec::new();
                std::mem::swap(&mut buf, &mut self.key_held);
                append_bytes(&mut buf, data);
                let ghost b = buf@;
                assert(b == old(self)@.key_held + data@);
                let n = buf.len();
                match find_first(buf.as_slice(), self.hotkey.as_slice()) {
                    Some(p) => {
                        let k = self.hotkey.len();
                        assert(is_first_occurrence(b, self.hotkey@, p as int));
                        append_bytes(&mut to_child, vstd::slice::slice_subrange(buf.as_slice(), 0, p));
                        append_bytes(
                            &mut to_child,
                            vstd::slice::slice_subrange(buf.as_slice(), p + k, n),
                        );
                        push_lookback_banner(&mut to_screen);
                        self.history.append_all(&mut to_screen);
                        self.mode = Mode::Lookback;
                        assert(to_child@ =~= cut_out(b, p as int, k as int));
                        assert(to_screen@ =~= lookback_screen(old(self)@.history));
                        assert(self@.key_held =~= Seq::<u8>::empty());
                    },
                    None => {
                        let j = key_start_suffix(buf.as_slice(), self.hotkey.as_slice());
                        append_bytes(
                            &mut to_child,
                            vstd::slice::slice_subrange(buf.as_slice(), 0, n - j),
                        );
                        append_bytes(
                            &mut self.key_held,
                            vstd::slice::slice_subrange(buf.as_slice(), n - j, n),
                        );
                        assert(to_child@ =~= b.subrange(0, n - j));
                        assert(self@.key_held =~= b.subrange(n - j, n as int));
                        assert(to_screen@ =~= Seq::<u8>::empty());
                    },
                }
            },
            Mode::Lookback => {
                std::mem::swap(&mut to_screen, &mut self.held);
                self.mode = Mode::Normal;
                assert(to_child@ =~= Seq::<u8>::empty());
                assert(self@.held =~= Seq::<u8>::empty());
            },
        }
        InputAction { to_child, to_screen }
    }

    /// Ends the session: returns the held output, then what closing the
    /// engine writes, and leaves the session fresh in normal mode.
    pub fn finish(&mut self) -> (r: Vec<u8>)
        requires
            old(self).wf(),
        ensures
            final(self).wf(),
            r@ == old(self)@.held + finish_output(old(self)@.engine),
            final(self)@.engine == initial_engine(old(self)@.engine.line_cap),
            final(self)@.history == old(self)@.history,
            final(self)@.mode == Mode::Normal,
            final(self)@.held == Seq::<u8>::empty(),
    {
        let mut r: Vec<u8> = Vec::new();
        std::mem::swap(&mut r, &mut self.held);
        let rest = self.engine.finish();
        append_bytes(&mut r, rest.as_slice());
        self.mode = Mode::Normal;
        assert(self@.held =~= Seq::<u8>::empty());
        r
    }
}

} // verus!
