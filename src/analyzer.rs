//! The computations behind the comparison of two recorded sessions.

use vstd::prelude::*;
use crate::escape_sequences::{sync_end_seq, sync_start_seq};
use crate::script_parser::{bytes_match_at, matches_at};

verus! {

/// The number of positions below `k` at which `m` occurs in `s`.
pub open spec fn count_matches(s: Seq<u8>, m: Seq<u8>, k: int) -> nat
    decreases k,
{
    if k <= 0 {
        0
    } else {
        count_matches(s, m, k - 1) + if matches_at(s, m, k - 1) {
            1nat
        } else {
            0nat
        }
    }
}

/// The number of places at which `m` occurs in `s`.
pub open spec fn occurrences(s: Seq<u8>, m: Seq<u8>) -> nat {
    count_matches(s, m, s.len() as int)
}

proof fn lemma_count_bound(s: Seq<u8>, m: Seq<u8>, k: int)
    requires
        k >= 0,
    ensures
        count_matches(s, m, k) <= k,
    decreases k,
{
    if k > 0 {
        lemma_count_bound(s, m, k - 1);
    }
}

/// How many sync-start and sync-end markers `data` holds.
pub fn count_sync_markers(data: &[u8]) -> (r: (usize, usize))
    ensures
        r.0 == occurrences(data@, sync_start_seq()),
        r.1 == occurrences(data@, sync_end_seq()),
{
    let start: [u8; 8] = [0x1b, 0x5b, 0x3f, 0x32, 0x30, 0x32, 0x36, 0x68];
    let end: [u8; 8] = [0x1b, 0x5b, 0x3f, 0x32, 0x30, 0x32, 0x36, 0x6c];
    assert(start@ =~= sync_start_seq());
    assert(end@ =~= sync_end_seq());
    let mut starts: usize = 0;
    let mut ends: usize = 0;
    let mut i: usize = 0;
    while i < data.len()
        invariant
            i <= data@.len(),
            start@ == sync_start_seq(),
            end@ == sync_end_seq(),
            starts == count_matches(data@, sync_start_seq(), i as int),
            ends == count_matches(data@, sync_end_seq(), i as int),
        decreases data@.len() - i,
    {
        proof {
            lemma_count_bound(data@, sync_start_seq(), i as int);
            lemma_count_bound(data@, sync_end_seq(), i as int);
        }
        if bytes_match_at(data, &start, i) {
            starts = starts + 1;
        }
        if bytes_match_at(data, &end, i) {
            ends = ends + 1;
        }
        i = i + 1;
    }
    (starts, ends)
}

/// The first position at which `a` and `b` differ, within the shorter of
/// the two; `None` where one is a prefix of the other.
pub fn first_difference(a: &[u8], b: &[u8]) -> (r: Option<usize>)
    ensures
        match r {
            Some(i) => i < a@.len() && i < b@.len() && a@[i as int] != b@[i as int] && forall|
                j: int,
            |
                0 <= j < i ==> a@[j] == b@[j],
            None => forall|j: int| 0 <= j < a@.len() && j < b@.len() ==> a@[j] == b@[j],
        },
{
    let n = if a.len() < b.len() {
        a.len()
    } else {
        b.len()
    };
    let mut i: usize = 0;
    while i < n
        invariant
            i <= n,
            n <= a@.len(),
            n <= b@.len(),
            n == a@.len() || n == b@.len(),
            forall|j: int| 0 <= j < i ==> a@[j] == b@[j],
        decreases n - i,
    {
        if a[i] != b[i] {
            return Some(i);
        }
        i = i + 1;
    }
    None
}

} // verus!
