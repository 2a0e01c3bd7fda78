//! An incremental scanner for the VT/ANSI control-sequence grammar.
//!
//! The scanner is fed one byte at a time and never looks ahead. Every byte
//! either leaves it mid-sequence (no event), or completes a classification.
//! Its behaviour is the state machine `scanner_step`; `scan` runs it over a
//! whole byte sequence.

use vstd::prelude::*;
use crate::escape_sequences::{CARRIAGE_RETURN, CSI_OPEN, ESC, LINE_FEED, PRIVATE_MARK};

verus! {

/// A color named by an attribute change.
#[derive(Debug, Clone, Copy, PartialEq, Eq)]
pub enum Color {
    Default,
    Indexed(u8),
    Rgb(u8, u8, u8),
}

/// What one `ESC [ ... m` sequence asks for.
#[derive(Debug, Clone, Copy, PartialEq, Eq, Default)]
pub struct SgrCode {
    pub reset: bool,
    pub fg: Option<Color>,
    pub bg: Option<Color>,
}

/// The classification of a completed sequence or of a line break.
#[derive(Debug, Clone, Copy, PartialEq, Eq)]
pub enum ParsedEscape {
    SyncStart,
    SyncEnd,
    ClearScreen,
    ClearScrollback,
    CursorHome,
    CursorUp(u16),
    CursorCol(u16),
    ClearLine,
    Newline,
    CarriageReturn,
    Sgr(SgrCode),
    Other,
}

/// Where in the grammar the scanner stands.
#[derive(Debug, Clone, Copy, PartialEq, Eq)]
pub enum ParserState {
    Ground,
    Escape,
    CsiEntry,
    CsiParam,
    CsiIntermediate,
    OscString,
    DcsString,
}

/// The incremental scanner.
pub struct EscapeParser {
    state: ParserState,
    params: Vec<u16>,
    intermediate: Vec<u8>,
}

/// The scanner's state as a mathematical value.
pub struct ScannerView {
    pub state: ParserState,
    pub params: Seq<u16>,
    pub intermediate: Seq<u8>,
}

impl View for EscapeParser {
    type V = ScannerView;

    closed spec fn view(&self) -> ScannerView {
        ScannerView { state: self.state, params: self.params@, intermediate: self.intermediate@ }
    }
}

/// The state of a fresh scanner.
pub open spec fn initial_scanner() -> ScannerView {
    ScannerView { state: ParserState::Ground, params: Seq::empty(), intermediate: Seq::empty() }
}

pub open spec fn with_state(v: ScannerView, s: ParserState) -> ScannerView {
    ScannerView { state: s, params: v.params, intermediate: v.intermediate }
}

pub open spec fn with_params(v: ScannerView, p: Seq<u16>) -> ScannerView {
    ScannerView { state: v.state, params: p, intermediate: v.intermediate }
}

pub open spec fn is_digit(b: u8) -> bool {
    0x30 <= b <= 0x39
}

/// A byte that ends a control sequence (`@` through `~`).
pub open spec fn is_final_byte(b: u8) -> bool {
    0x40 <= b <= 0x7e
}

/// A parameter with one more decimal digit, saturating at `u16::MAX`.
pub open spec fn fold_digit(p: u16, b: u8) -> u16 {
    let v = p * 10 + (b - 0x30);
    if v > u16::MAX {
        u16::MAX
    } else {
        v as u16
    }
}

/// The parameters with a digit folded into the last one.
pub open spec fn fold_last(params: Seq<u16>, b: u8) -> Seq<u16> {
    if params.len() == 0 {
        params
    } else {
        params.update(params.len() - 1, fold_digit(params.last(), b))
    }
}

/// The first parameter, or `d` where there is none.
pub open spec fn first_or(params: Seq<u16>, d: u16) -> u16 {
    if params.len() == 0 {
        d
    } else {
        params[0]
    }
}

/// The color that starts at `params[i + 1]` after a `38` or `48`, with the
/// number of parameters it takes beyond the introducer.
pub open spec fn extended_color(params: Seq<u16>, i: int) -> Option<(Color, usize)> {
    if i + 1 < params.len() && params[i + 1] == 2 {
        if i + 4 < params.len() {
            Some(
                (
                    Color::Rgb(
                        (params[i + 2] % 256) as u8,
                        (params[i + 3] % 256) as u8,
                        (params[i + 4] % 256) as u8,
                    ),
                    4usize,
                ),
            )
        } else {
            None
        }
    } else if i + 1 < params.len() && params[i + 1] == 5 && i + 2 < params.len() {
        Some((Color::Indexed((params[i + 2] % 256) as u8), 2usize))
    } else {
        None
    }
}

/// The attribute change read from `params[i..]`, starting from `acc`.
pub open spec fn sgr_from(params: Seq<u16>, i: int, acc: SgrCode) -> SgrCode
    decreases params.len() - i,
{
    if i < 0 || i >= params.len() {
        acc
    } else {
        let p = params[i];
        if p == 0 {
            sgr_from(params, i + 1, SgrCode { reset: true, ..acc })
        } else if p == 38 || p == 48 {
            match extended_color(params, i) {
                Some((c, k)) => if p == 38 {
                    sgr_from(params, i + k + 1, SgrCode { fg: Some(c), ..acc })
                } else {
                    sgr_from(params, i + k + 1, SgrCode { bg: Some(c), ..acc })
                },
                None => sgr_from(params, i + 1, acc),
            }
        } else if p == 39 {
            sgr_from(params, i + 1, SgrCode { fg: Some(Color::Default), ..acc })
        } else if p == 49 {
            sgr_from(params, i + 1, SgrCode { bg: Some(Color::Default), ..acc })
        } else {
            sgr_from(params, i + 1, acc)
        }
    }
}

/// The attribute change that a complete `m` sequence with `params` means.
pub open spec fn sgr_of(params: Seq<u16>) -> SgrCode {
    sgr_from(params, 0, SgrCode { reset: false, fg: None, bg: None })
}

/// The event of a completed control sequence without a private mark.
pub open spec fn csi_event(params: Seq<u16>, b: u8) -> ParsedEscape {
    if b == 0x48 {
        // H
        if params.len() == 0 || (params.len() == 2 && params[0] <= 1 && params[1] <= 1) {
            ParsedEscape::CursorHome
        } else {
            ParsedEscape::Other
        }
    } else if b == 0x4a {
        // J
        if first_or(params, 0) == 2 {
            ParsedEscape::ClearScreen
        } else if first_or(params, 0) == 3 {
            ParsedEscape::ClearScrollback
        } else {
            ParsedEscape::Other
        }
    } else if b == 0x41 {
        // A
        ParsedEscape::CursorUp(if first_or(params, 1) == 0 { 1 } else { first_or(params, 1) })
    } else if b == 0x47 {
        // G
        ParsedEscape::CursorCol(first_or(params, 1))
    } else if b == 0x4b {
        // K
        ParsedEscape::ClearLine
    } else if b == 0x6d {
        // m
        ParsedEscape::Sgr(sgr_of(params))
    } else {
        ParsedEscape::Other
    }
}

/// The event of a completed control sequence with intermediate bytes.
pub open spec fn private_csi_event(params: Seq<u16>, intermediate: Seq<u8>, b: u8) -> ParsedEscape {
    if intermediate.len() > 0 && intermediate[0] == PRIVATE_MARK && first_or(params, 0) == 2026 {
        if b == 0x68 {
            ParsedEscape::SyncStart
        } else if b == 0x6c {
            ParsedEscape::SyncEnd
        } else {
            ParsedEscape::Other
        }
    } else {
        ParsedEscape::Other
    }
}

pub open spec fn ground_step(v: ScannerView, b: u8) -> (ScannerView, Option<ParsedEscape>) {
    if b == ESC {
        (with_state(v, ParserState::Escape), None)
    } else if b == LINE_FEED {
        (v, Some(ParsedEscape::Newline))
    } else if b == CARRIAGE_RETURN {
        (v, Some(ParsedEscape::CarriageReturn))
    } else {
        (v, None)
    }
}

pub open spec fn escape_step(v: ScannerView, b: u8) -> (ScannerView, Option<ParsedEscape>) {
    if b == CSI_OPEN {
        (ScannerView { state: ParserState::CsiEntry, params: seq![], intermediate: seq![] }, None)
    } else if b == 0x5d {
        // ]
        (with_state(v, ParserState::OscString), None)
    } else if b == 0x50 || b == 0x5e || b == 0x5f {
        // P ^ _
        (with_state(v, ParserState::DcsString), None)
    } else {
        (with_state(v, ParserState::Ground), Some(ParsedEscape::Other))
    }
}

pub open spec fn osc_step(v: ScannerView, b: u8) -> (ScannerView, Option<ParsedEscape>) {
    if b == 0x07 {
        (with_state(v, ParserState::Ground), Some(ParsedEscape::Other))
    } else if b == ESC {
        (with_state(v, ParserState::Escape), None)
    } else {
        (v, None)
    }
}

pub open spec fn dcs_step(v: ScannerView, b: u8) -> (ScannerView, Option<ParsedEscape>) {
    if b == ESC {
        (with_state(v, ParserState::Escape), None)
    } else if b == 0x9c {
        (with_state(v, ParserState::Ground), Some(ParsedEscape::Other))
    } else {
        (v, None)
    }
}

pub open spec fn csi_entry_step(v: ScannerView, b: u8) -> (ScannerView, Option<ParsedEscape>) {
    if is_digit(b) {
        (
            with_state(with_params(v, v.params.push((b - 0x30) as u16)), ParserState::CsiParam),
            None,
        )
    } else if b == 0x3b {
        // ;
        (with_state(with_params(v, v.params.push(0)), ParserState::CsiParam), None)
    } else if b == PRIVATE_MARK {
        (
            ScannerView {
                state: ParserState::CsiIntermediate,
                params: v.params,
                intermediate: v.intermediate.push(b),
            },
            None,
        )
    } else if is_final_byte(b) {
        (with_state(v, ParserState::Ground), Some(csi_event(v.params, b)))
    } else {
        (with_state(v, ParserState::Ground), Some(ParsedEscape::Other))
    }
}

pub open spec fn csi_param_step(v: ScannerView, b: u8) -> (ScannerView, Option<ParsedEscape>) {
    if is_digit(b) {
        (with_params(v, fold_last(v.params, b)), None)
    } else if b == 0x3b {
        (with_params(v, v.params.push(0)), None)
    } else if is_final_byte(b) {
        (with_state(v, ParserState::Ground), Some(csi_event(v.params, b)))
    } else {
        (with_state(v, ParserState::Ground), Some(ParsedEscape::Other))
    }
}

pub open spec fn csi_intermediate_step(v: ScannerView, b: u8) -> (ScannerView, Option<ParsedEscape>) {
    if is_digit(b) {
        if v.params.len() == 0 {
            (with_params(v, v.params.push((b - 0x30) as u16)), None)
        } else {
            (with_params(v, fold_last(v.params, b)), None)
        }
    } else if b == 0x3b {
        (with_params(v, v.params.push(0)), None)
    } else if is_final_byte(b) {
        (
            with_state(v, ParserState::Ground),
            Some(private_csi_event(v.params, v.intermediate, b)),
        )
    } else {
        (
            ScannerView {
                state: v.state,
                params: v.params,
                intermediate: v.intermediate.push(b),
            },
            None,
        )
    }
}

/// One transition of the scanner: the next state, and the event if the byte
/// completed one.
pub open spec fn scanner_step(v: ScannerView, b: u8) -> (ScannerView, Option<ParsedEscape>) {
    match v.state {
        ParserState::Ground => ground_step(v, b),
        ParserState::Escape => escape_step(v, b),
        ParserState::CsiEntry => csi_entry_step(v, b),
        ParserState::CsiParam => csi_param_step(v, b),
        ParserState::CsiIntermediate => csi_intermediate_step(v, b),
        ParserState::OscString => osc_step(v, b),
        ParserState::DcsString => dcs_step(v, b),
    }
}

pub open spec fn event_seq(e: Option<ParsedEscape>) -> Seq<ParsedEscape> {
    match e {
        Some(x) => seq![x],
        None => seq![],
    }
}

/// The state after feeding `s` byte by byte, and the events in order.
pub open spec fn scan(v: ScannerView, s: Seq<u8>) -> (ScannerView, Seq<ParsedEscape>)
    decreases s.len(),
{
    if s.len() == 0 {
        (v, seq![])
    } else {
        let (v1, e1) = scan(v, s.drop_last());
        let (v2, o) = scanner_step(v1, s.last());
        (v2, e1 + event_seq(o))
    }
}

/// Scanning in two chunks, with the state carried across the boundary, gives
/// the same state and the same events as scanning the whole sequence at once:
/// no state leaks across a split.
pub proof fn lemma_scan_split(v: ScannerView, a: Seq<u8>, b: Seq<u8>)
    ensures
        scan(v, a + b).0 == scan(scan(v, a).0, b).0,
        scan(v, a + b).1 == scan(v, a).1 + scan(scan(v, a).0, b).1,
    decreases b.len(),
{
    if b.len() == 0 {
        assert(a + b =~= a);
        assert(scan(v, a).1 + scan(scan(v, a).0, b).1 =~= scan(v, a).1);
    } else {
        lemma_scan_split(v, a, b.drop_last());
        assert((a + b).drop_last() =~= a + b.drop_last());
        assert((a + b).last() == b.last());
        let mid = scan(v, a).0;
        let (v1, e1) = scan(mid, b.drop_last());
        let (v2, o) = scanner_step(v1, b.last());
        assert(scan(v, a).1 + (e1 + event_seq(o)) =~= (scan(v, a).1 + e1) + event_seq(o));
    }
}

/// Whether two scanner states will classify every input alike: the same
/// grammar state, and, inside a control sequence, the same parameters and
/// intermediate bytes. Outside one, what is stored is cleared before it is
/// read again.
pub open spec fn alike(v: ScannerView, w: ScannerView) -> bool {
    &&& v.state == w.state
    &&& (v.state == ParserState::CsiEntry || v.state == ParserState::CsiParam || v.state
        == ParserState::CsiIntermediate) ==> v.params == w.params && v.intermediate
        == w.intermediate
}

pub proof fn lemma_step_alike(v: ScannerView, w: ScannerView, b: u8)
    requires
        alike(v, w),
    ensures
        scanner_step(v, b).1 == scanner_step(w, b).1,
        alike(scanner_step(v, b).0, scanner_step(w, b).0),
{
}

/// Scanners in alike states, in particular any two in the ground state
/// whatever they have stored, report the same events for the same bytes
/// and stay alike; so what the scanner reports depends only on the bytes
/// fed since it last returned to ground.
pub proof fn lemma_scan_alike(v: ScannerView, w: ScannerView, s: Seq<u8>)
    requires
        alike(v, w),
    ensures
        scan(v, s).1 == scan(w, s).1,
        alike(scan(v, s).0, scan(w, s).0),
        scan(v, s).0.state == scan(w, s).0.state,
    decreases s.len(),
{
    if s.len() > 0 {
        lemma_scan_alike(v, w, s.drop_last());
        lemma_step_alike(scan(v, s.drop_last()).0, scan(w, s.drop_last()).0, s.last());
    }
}

/// Two scanners in the ground state report the same events for the same
/// bytes and end in the same grammar state.
pub proof fn lemma_ground_scanners_agree(v: ScannerView, w: ScannerView, s: Seq<u8>)
    requires
        v.state == ParserState::Ground,
        w.state == ParserState::Ground,
    ensures
        scan(v, s).1 == scan(w, s).1,
        scan(v, s).0.state == scan(w, s).0.state,
{
    lemma_scan_alike(v, w, s);
}

fn fold_digit_exec(p: u16, b: u8) -> (r: u16)
    requires
        is_digit(b),
    ensures
        r == fold_digit(p, b),
{
    let v: u32 = p as u32 * 10 + (b - 0x30) as u32;
    if v > 0xffff {
        0xffff
    } else {
        v as u16
    }
}

impl Default for EscapeParser {
    fn default() -> (r: Self)
        ensures
            r@ == initial_scanner(),
    {
        Self::new()
    }
}

impl EscapeParser {
    pub fn new() -> (r: Self)
        ensures
            r@ == initial_scanner(),
    {
        let r = EscapeParser { state: ParserState::Ground, params: Vec::new(), intermediate: Vec::new() };
        assert(r@.params =~= Seq::<u16>::empty());
        assert(r@.intermediate =~= Seq::<u8>::empty());
        r
    }

    /// Whether a sequence has begun and not yet been classified.
    pub fn in_escape_sequence(&self) -> (r: bool)
        ensures
            r == (self@.state != ParserState::Ground),
    {
        !matches!(self.state, ParserState::Ground)
    }

    /// Where in the grammar the scanner stands.
    pub fn state(&self) -> (r: ParserState)
        ensures
            r == self@.state,
    {
        self.state
    }

    /// Feeds one byte; returns the event that it completes, if any.
    pub fn feed(&mut self, byte: u8) -> (r: Option<ParsedEscape>)
        ensures
            (final(self)@, r) == scanner_step(old(self)@, byte),
    {
        match self.state {
            ParserState::Ground => self.ground(byte),
            ParserState::Escape => self.escape(byte),
            ParserState::CsiEntry => self.csi_entry(byte),
            ParserState::CsiParam => self.csi_param(byte),
            ParserState::CsiIntermediate => self.csi_intermediate(byte),
            ParserState::OscString => self.osc_string(byte),
            ParserState::DcsString => self.dcs_string(byte),
        }
    }

    /// Feeds every byte of `bytes` in order; returns the events completed.
    pub fn feed_bytes(&mut self, bytes: &[u8]) -> (r: Vec<ParsedEscape>)
        ensures
            (final(self)@, r@) == scan(old(self)@, bytes@),
    {
        let mut out: Vec<ParsedEscape> = Vec::new();
        let mut i: usize = 0;
        assert(bytes@.subrange(0, 0) =~= Seq::<u8>::empty());
        while i < bytes.len()
            invariant
                i <= bytes@.len(),
                (self@, out@) == scan(old(self)@, bytes@.subrange(0, i as int)),
            decreases bytes@.len() - i,
        {
            let ghost before = out@;
            let e = self.feed(bytes[i]);
            if let Some(x) = e {
                out.push(x);
            }
            assert(bytes@.subrange(0, i + 1).drop_last() =~= bytes@.subrange(0, i as int));
            assert(out@ =~= before + event_seq(e));
            i = i + 1;
        }
        assert(bytes@.subrange(0, bytes@.len() as int) =~= bytes@);
        out
    }

    fn ground(&mut self, byte: u8) -> (r: Option<ParsedEscape>)
        ensures
            (final(self)@, r) == ground_step(old(self)@, byte),
    {
        if byte == ESC {
            self.state = ParserState::Escape;
            None
        } else if byte == LINE_FEED {
            Some(ParsedEscape::Newline)
        } else if byte == CARRIAGE_RETURN {
            Some(ParsedEscape::CarriageReturn)
        } else {
            None
        }
    }

    fn escape(&mut self, byte: u8) -> (r: Option<ParsedEscape>)
        ensures
            (final(self)@, r) == escape_step(old(self)@, byte),
    {
        if byte == CSI_OPEN {
            self.state = ParserState::CsiEntry;
            self.params.clear();
            self.intermediate.clear();
            assert(self@.params =~= Seq::<u16>::empty());
            assert(self@.intermediate =~= Seq::<u8>::empty());
            None
        } else if byte == 0x5d {
            self.state = ParserState::OscString;
            None
        } else if byte == 0x50 || byte == 0x5e || byte == 0x5f {
            self.state = ParserState::DcsString;
            None
        } else {
            self.state = ParserState::Ground;
            Some(ParsedEscape::Other)
        }
    }

    fn osc_string(&mut self, byte: u8) -> (r: Option<ParsedEscape>)
        ensures
            (final(self)@, r) == osc_step(old(self)@, byte),
    {
        if byte == 0x07 {
            self.state = ParserState::Ground;
            Some(ParsedEscape::Other)
        } else if byte == ESC {
            self.state = ParserState::Escape;
            None
        } else {
            None
        }
    }

    fn dcs_string(&mut self, byte: u8) -> (r: Option<ParsedEscape>)
        ensures
            (final(self)@, r) == dcs_step(old(self)@, byte),
    {
        if byte == ESC {
            self.state = ParserState::Escape;
            None
        } else if byte == 0x9c {
            self.state = ParserState::Ground;
            Some(ParsedEscape::Other)
        } else {
            None
        }
    }

    /// Folds a digit into the last parameter, if there is one.
    fn fold_into_last(&mut self, byte: u8)
        requires
            is_digit(byte),
        ensures
            final(self)@ == with_params(old(self)@, fold_last(old(self)@.params, byte)),
    {
        let n = self.params.len();
        if n > 0 {
            let p = self.params[n - 1];
            self.params.set(n - 1, fold_digit_exec(p, byte));
        }
    }

    fn csi_entry(&mut self, byte: u8) -> (r: Option<ParsedEscape>)
        ensures
            (final(self)@, r) == csi_entry_step(old(self)@, byte),
    {
        if 0x30 <= byte && byte <= 0x39 {
            self.params.push((byte - 0x30) as u16);
            self.state = ParserState::CsiParam;
            None
        } else if byte == 0x3b {
            self.params.push(0);
            self.state = ParserState::CsiParam;
            None
        } else if byte == PRIVATE_MARK {
            self.intermediate.push(byte);
            self.state = ParserState::CsiIntermediate;
            None
        } else if 0x40 <= byte && byte <= 0x7e {
            self.state = ParserState::Ground;
            self.dispatch_csi(byte)
        } else {
            self.state = ParserState::Ground;
            Some(ParsedEscape::Other)
        }
    }

    fn csi_param(&mut self, byte: u8) -> (r: Option<ParsedEscape>)
        ensures
            (final(self)@, r) == csi_param_step(old(self)@, byte),
    {
        if 0x30 <= byte && byte <= 0x39 {
            self.fold_into_last(byte);
            None
        } else if byte == 0x3b {
            self.params.push(0);
            None
        } else if 0x40 <= byte && byte <= 0x7e {
            self.state = ParserState::Ground;
            self.dispatch_csi(byte)
        } else {
            self.state = ParserState::Ground;
            Some(ParsedEscape::Other)
        }
    }

    fn csi_intermediate(&mut self, byte: u8) -> (r: Option<ParsedEscape>)
        ensures
            (final(self)@, r) == csi_intermediate_step(old(self)@, byte),
    {
        if 0x30 <= byte && byte <= 0x39 {
            if self.params.len() == 0 {
                self.params.push((byte - 0x30) as u16);
            } else {
                self.fold_into_last(byte);
            }
            None
        } else if byte == 0x3b {
            self.params.push(0);
            None
        } else if 0x40 <= byte && byte <= 0x7e {
            self.state = ParserState::Ground;
            self.dispatch_private_csi(byte)
        } else {
            self.intermediate.push(byte);
            None
        }
    }

    fn first_param_or(&self, d: u16) -> (r: u16)
        ensures
            r == first_or(self@.params, d),
    {
        if self.params.len() == 0 {
            d
        } else {
            self.params[0]
        }
    }

    fn dispatch_csi(&self, byte: u8) -> (r: Option<ParsedEscape>)
        ensures
            r == Some(csi_event(self@.params, byte)),
    {
        if byte == 0x48 {
            if self.params.len() == 0 || (self.params.len() == 2 && self.params[0] <= 1
                && self.params[1] <= 1) {
                Some(ParsedEscape::CursorHome)
            } else {
                Some(ParsedEscape::Other)
            }
        } else if byte == 0x4a {
            let param = self.first_param_or(0);
            if param == 2 {
                Some(ParsedEscape::ClearScreen)
            } else if param == 3 {
                Some(ParsedEscape::ClearScrollback)
            } else {
                Some(ParsedEscape::Other)
            }
        } else if byte == 0x41 {
            let n = self.first_param_or(1);
            Some(ParsedEscape::CursorUp(if n == 0 { 1 } else { n }))
        } else if byte == 0x47 {
            Some(ParsedEscape::CursorCol(self.first_param_or(1)))
        } else if byte == 0x4b {
            Some(ParsedEscape::ClearLine)
        } else if byte == 0x6d {
            Some(ParsedEscape::Sgr(self.parse_sgr()))
        } else {
            Some(ParsedEscape::Other)
        }
    }

    fn dispatch_private_csi(&self, byte: u8) -> (r: Option<ParsedEscape>)
        ensures
            r == Some(private_csi_event(self@.params, self@.intermediate, byte)),
    {
        if self.intermediate.len() > 0 && self.intermediate[0] == PRIVATE_MARK
            && self.first_param_or(0) == 2026 {
            if byte == 0x68 {
                Some(ParsedEscape::SyncStart)
            } else if byte == 0x6c {
                Some(ParsedEscape::SyncEnd)
            } else {
                Some(ParsedEscape::Other)
            }
        } else {
            Some(ParsedEscape::Other)
        }
    }

    fn extended_color_at(&self, i: usize) -> (r: Option<(Color, usize)>)
        requires
            i < self@.params.len(),
        ensures
            r == extended_color(self@.params, i as int),
    {
        let n = self.params.len();
        if n - i > 1 && self.params[i + 1] == 2 {
            if n - i > 4 {
                Some(
                    (
                        Color::Rgb(
                            (self.params[i + 2] % 256) as u8,
                            (self.params[i + 3] % 256) as u8,
                            (self.params[i + 4] % 256) as u8,
                        ),
                        4,
                    ),
                )
            } else {
                None
            }
        } else if n - i > 1 && self.params[i + 1] == 5 && n - i > 2 {
            Some((Color::Indexed((self.params[i + 2] % 256) as u8), 2))
        } else {
            None
        }
    }

    fn parse_sgr(&self) -> (r: SgrCode)
        ensures
            r == sgr_of(self@.params),
    {
        let mut sgr = SgrCode { reset: false, fg: None, bg: None };
        let n = self.params.len();
        let mut i: usize = 0;
        while i < n
            invariant
                n == self@.params.len(),
                i <= n,
                sgr_from(self@.params, i as int, sgr) == sgr_of(self@.params),
            decreases n - i,
        {
            let p = self.params[i];
            if p == 0 {
                sgr.reset = true;
                i = i + 1;
            } else if p == 38 || p == 48 {
                match self.extended_color_at(i) {
                    Some((c, k)) => {
                        if p == 38 {
                            sgr.fg = Some(c);
                        } else {
                            sgr.bg = Some(c);
                        }
                        i = i + k + 1;
                    },
                    None => {
                        i = i + 1;
                    },
                }
            } else if p == 39 {
                sgr.fg = Some(Color::Default);
                i = i + 1;
            } else if p == 49 {
                sgr.bg = Some(Color::Default);
                i = i + 1;
            } else {
                i = i + 1;
            }
        }
        sgr
    }
}

} // verus!
