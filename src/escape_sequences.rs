//! The control sequences that the library recognizes and writes, and the
//! helpers that write bytes out.

use vstd::prelude::*;

verus! {

/// The escape byte that opens every control sequence.
pub const ESC: u8 = 0x1b;

/// The byte `[`, which after `ESC` opens a control sequence introducer.
pub const CSI_OPEN: u8 = 0x5b;

/// The byte `?`, which marks a private-mode control sequence.
pub const PRIVATE_MARK: u8 = 0x3f;

/// The line feed byte `\n`.
pub const LINE_FEED: u8 = 0x0a;

/// The carriage return byte `\r`.
pub const CARRIAGE_RETURN: u8 = 0x0d;

/// `ESC [ ? 2 0 2 6 h`: begin a synchronized update.
pub open spec fn sync_start_seq() -> Seq<u8> {
    seq![0x1bu8, 0x5b, 0x3f, 0x32, 0x30, 0x32, 0x36, 0x68]
}

/// `ESC [ ? 2 0 2 6 l`: end a synchronized update.
pub open spec fn sync_end_seq() -> Seq<u8> {
    seq![0x1bu8, 0x5b, 0x3f, 0x32, 0x30, 0x32, 0x36, 0x6c]
}

/// `ESC [ H ESC [ 2 J`: move the cursor home and erase the screen.
pub open spec fn reposition_seq() -> Seq<u8> {
    seq![0x1bu8, 0x5b, 0x48, 0x1b, 0x5b, 0x32, 0x4a]
}

/// Appends `src` to the end of `dst`.
pub fn append_bytes(dst: &mut Vec<u8>, src: &[u8])
    ensures
        final(dst)@ == old(dst)@ + src@,
{
    let mut i: usize = 0;
    while i < src.len()
        invariant
            i <= src@.len(),
            dst@ == old(dst)@ + src@.subrange(0, i as int),
        decreases src@.len() - i,
    {
        dst.push(src[i]);
        i = i + 1;
        assert(dst@ =~= old(dst)@ + src@.subrange(0, i as int));
    }
    assert(src@.subrange(0, src@.len() as int) =~= src@);
}

/// Appends the sync-start marker to `dst`.
pub fn push_sync_start(dst: &mut Vec<u8>)
    ensures
        final(dst)@ == old(dst)@ + sync_start_seq(),
{
    let m: [u8; 8] = [0x1b, 0x5b, 0x3f, 0x32, 0x30, 0x32, 0x36, 0x68];
    append_bytes(dst, &m);
    assert(m@ =~= sync_start_seq());
}

/// Appends the sync-end marker to `dst`.
pub fn push_sync_end(dst: &mut Vec<u8>)
    ensures
        final(dst)@ == old(dst)@ + sync_end_seq(),
{
    let m: [u8; 8] = [0x1b, 0x5b, 0x3f, 0x32, 0x30, 0x32, 0x36, 0x6c];
    append_bytes(dst, &m);
    assert(m@ =~= sync_end_seq());
}

/// Appends the cursor-home-and-erase prefix to `dst`.
pub fn push_reposition(dst: &mut Vec<u8>)
    ensures
        final(dst)@ == old(dst)@ + reposition_seq(),
{
    let m: [u8; 7] = [0x1b, 0x5b, 0x48, 0x1b, 0x5b, 0x32, 0x4a];
    append_bytes(dst, &m);
    assert(m@ =~= reposition_seq());
}

} // verus!
