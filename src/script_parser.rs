//! Removal of the header and footer lines that a terminal recorder writes
//! around a session.

use vstd::prelude::*;
use vstd::slice::slice_subrange;
use crate::escape_sequences::LINE_FEED;

verus! {

/// `Script started on`, which opens a recording.
pub open spec fn header_marker() -> Seq<u8> {
    seq![0x53u8, 0x63, 0x72, 0x69, 0x70, 0x74, 0x20, 0x73, 0x74, 0x61, 0x72, 0x74, 0x65, 0x64, 0x20, 0x6f, 0x6e]
}

/// `\nScript done on`, which closes a recording.
pub open spec fn footer_marker() -> Seq<u8> {
    seq![0x0au8, 0x53, 0x63, 0x72, 0x69, 0x70, 0x74, 0x20, 0x64, 0x6f, 0x6e, 0x65, 0x20, 0x6f, 0x6e]
}

/// Whether `m` occurs in `s` at position `i`.
pub open spec fn matches_at(s: Seq<u8>, m: Seq<u8>, i: int) -> bool {
    0 <= i && i + m.len() <= s.len() && s.subrange(i, i + m.len()) == m
}

/// Whether `i` is the position of the first line feed in `s`.
pub open spec fn is_first_newline(s: Seq<u8>, i: int) -> bool {
    0 <= i < s.len() && s[i] == LINE_FEED && forall|j: int| 0 <= j < i ==> s[j] != LINE_FEED
}

/// Where the content after a header line starts: just past the first line
/// feed where `s` opens with the header marker and holds one, else 0.
pub open spec fn header_end(s: Seq<u8>) -> int {
    if matches_at(s, header_marker(), 0) && exists|i: int| is_first_newline(s, i) {
        (choose|i: int| is_first_newline(s, i)) + 1
    } else {
        0
    }
}

/// Whether the footer marker occurs at `i`, with at least one byte after it,
/// and at no later such position.
pub open spec fn is_last_footer(s: Seq<u8>, i: int) -> bool {
    &&& matches_at(s, footer_marker(), i)
    &&& i + footer_marker().len() < s.len()
    &&& forall|j: int|
        i < j && j + footer_marker().len() < s.len() ==> !matches_at(s, footer_marker(), j)
}

/// Where a footer starts, or the length of `s` where there is none.
pub open spec fn footer_start(s: Seq<u8>) -> int {
    if exists|i: int| is_last_footer(s, i) {
        choose|i: int| is_last_footer(s, i)
    } else {
        s.len() as int
    }
}

/// `s` with header lines removed from the front while one is there.
pub open spec fn strip_headers(s: Seq<u8>) -> Seq<u8>
    decreases s.len(),
{
    let h = header_end(s);
    if h <= 0 || h > s.len() {
        s
    } else {
        strip_headers(s.subrange(h, s.len() as int))
    }
}

/// `s` with footers cut from the end while one is there.
pub open spec fn strip_footers(s: Seq<u8>) -> Seq<u8>
    decreases s.len(),
{
    let f = footer_start(s);
    if f < 0 || f >= s.len() {
        s
    } else {
        strip_footers(s.subrange(0, f))
    }
}

/// Whether `marker` occurs in `data` at position `i`.
pub fn bytes_match_at(data: &[u8], marker: &[u8], i: usize) -> (r: bool)
    ensures
        r == matches_at(data@, marker@, i as int),
{
    if i > data.len() || data.len() - i < marker.len() {
        return false;
    }
    let n = data.len();
    let mut k: usize = 0;
    while k < marker.len()
        invariant
            n == data@.len(),
            i + marker@.len() <= n,
            k <= marker@.len(),
            forall|j: int| 0 <= j < k ==> data@[i + j] == marker@[j],
        decreases marker@.len() - k,
    {
        if data[i + k] != marker[k] {
            assert(data@.subrange(i as int, i + marker@.len())[k as int] != marker@[k as int]);
            return false;
        }
        k = k + 1;
    }
    assert(data@.subrange(i as int, i + marker@.len()) =~= marker@);
    true
}

/// The length of a recorder's header line at the start of `data`,
/// terminator included, or 0 where there is none.
pub fn find_script_header_end(data: &[u8]) -> (r: usize)
    ensures
        r == header_end(data@),
        r <= data@.len(),
{
    let marker: [u8; 17] = [
        0x53, 0x63, 0x72, 0x69, 0x70, 0x74, 0x20, 0x73, 0x74, 0x61, 0x72, 0x74, 0x65, 0x64, 0x20,
        0x6f, 0x6e,
    ];
    assert(marker@ =~= header_marker());
    if !bytes_match_at(data, &marker, 0) {
        return 0;
    }
    let mut i: usize = 0;
    while i < data.len()
        invariant
            i <= data@.len(),
            matches_at(data@, header_marker(), 0),
            forall|j: int| 0 <= j < i ==> data@[j] != LINE_FEED,
        decreases data@.len() - i,
    {
        if data[i] == LINE_FEED {
            assert(is_first_newline(data@, i as int));
            let ghost k = choose|k: int| is_first_newline(data@, k);
            assert(k == i as int);
            return i + 1;
        }
        i = i + 1;
    }
    assert(!exists|k: int| is_first_newline(data@, k));
    0
}

/// Where a recorder's footer starts in `data`, or its length where there is
/// none.
pub fn find_script_footer_start(data: &[u8]) -> (r: usize)
    ensures
        r == footer_start(data@),
{
    let marker: [u8; 15] = [
        0x0a, 0x53, 0x63, 0x72, 0x69, 0x70, 0x74, 0x20, 0x64, 0x6f, 0x6e, 0x65, 0x20, 0x6f, 0x6e,
    ];
    assert(marker@ =~= footer_marker());
    let n = data.len();
    let mut i: usize = if n > 15 {
        n - 15
    } else {
        0
    };
    while i > 0
        invariant
            i + 15 <= n || i == 0,
            n == data@.len(),
            marker@ == footer_marker(),
            forall|j: int|
                i <= j && j + footer_marker().len() < n ==> !matches_at(data@, footer_marker(), j),
        decreases i,
    {
        i = i - 1;
        if bytes_match_at(data, &marker, i) {
            assert(is_last_footer(data@, i as int));
            let ghost k = choose|k: int| is_last_footer(data@, k);
            assert(k == i as int);
            return i;
        }
    }
    assert(!exists|k: int| is_last_footer(data@, k));
    n
}

/// `data` without the recorder's header lines and footers.
pub fn strip_script_wrapper(data: &[u8]) -> (r: &[u8])
    ensures
        r@ == strip_footers(strip_headers(data@)),
{
    let mut result = data;
    let mut h = find_script_header_end(result);
    while h != 0
        invariant
            h == header_end(result@),
            h <= result@.len(),
            strip_headers(result@) == strip_headers(data@),
        decreases result@.len(),
    {
        result = slice_subrange(result, h, result.len());
        h = find_script_header_end(result);
    }
    let ghost headless = result@;
    let mut f = find_script_footer_start(result);
    while f < result.len()
        invariant
            f == footer_start(result@),
            strip_footers(result@) == strip_footers(headless),
            headless == strip_headers(data@),
        decreases result@.len(),
    {
        result = slice_subrange(result, 0, f);
        f = find_script_footer_start(result);
    }
    result
}

} // verus!
