//! A bounded, line-structured record of every byte the child wrote.
//!
//! Completed lines keep their `\n` terminator (and any `\r` before it);
//! the bytes after the last `\n` form the pending tail. Once more than
//! `max_lines` lines are complete, the oldest is dropped.

use vstd::prelude::*;
use std::collections::VecDeque;
use crate::escape_sequences::{append_bytes, LINE_FEED};

verus! {

/// The buffer as a mathematical value: completed lines without their
/// terminator, the pending tail, and the line capacity.
pub struct HistoryView {
    pub lines: Seq<Seq<u8>>,
    pub current: Seq<u8>,
    pub max_lines: nat,
}

/// The concatenation of `s`, first element first.
pub open spec fn join(s: Seq<Seq<u8>>) -> Seq<u8>
    decreases s.len(),
{
    if s.len() == 0 {
        seq![]
    } else {
        join(s.drop_last()) + s.last()
    }
}

/// The completed lines, each with its terminator.
pub open spec fn completed(v: HistoryView) -> Seq<Seq<u8>> {
    v.lines.map_values(|l: Seq<u8>| l.push(LINE_FEED))
}

/// The lines as they are written out: the completed ones with their
/// terminator, then the tail if it is not empty.
pub open spec fn entries(v: HistoryView) -> Seq<Seq<u8>> {
    if v.current.len() == 0 {
        completed(v)
    } else {
        completed(v).push(v.current)
    }
}

/// The last `n` elements of `s`, or all of them where there are fewer.
pub open spec fn last_n<T>(s: Seq<T>, n: nat) -> Seq<T> {
    if n >= s.len() {
        s
    } else {
        s.subrange(s.len() - n, s.len() as int)
    }
}

/// An empty buffer with room for `max_lines` completed lines.
pub open spec fn empty_history(max_lines: nat) -> HistoryView {
    HistoryView { lines: seq![], current: seq![], max_lines }
}

/// The buffer after one more byte.
pub open spec fn push_byte_spec(v: HistoryView, b: u8) -> HistoryView {
    if b == LINE_FEED {
        let ls = v.lines.push(v.current);
        HistoryView {
            lines: if ls.len() > v.max_lines {
                ls.drop_first()
            } else {
                ls
            },
            current: seq![],
            max_lines: v.max_lines,
        }
    } else {
        HistoryView { lines: v.lines, current: v.current.push(b), max_lines: v.max_lines }
    }
}

/// The buffer after the bytes of `s`, in order.
pub open spec fn push_bytes_spec(v: HistoryView, s: Seq<u8>) -> HistoryView
    decreases s.len(),
{
    if s.len() == 0 {
        v
    } else {
        push_byte_spec(push_bytes_spec(v, s.drop_last()), s.last())
    }
}

/// The number of bytes that the buffer writes out.
pub open spec fn byte_len(v: HistoryView) -> nat {
    join(entries(v)).len()
}

pub proof fn lemma_join_append(a: Seq<Seq<u8>>, b: Seq<Seq<u8>>)
    ensures
        join(a + b) == join(a) + join(b),
    decreases b.len(),
{
    if b.len() == 0 {
        assert(a + b =~= a);
        assert(join(a) + join(b) =~= join(a));
    } else {
        lemma_join_append(a, b.drop_last());
        assert((a + b).drop_last() =~= a + b.drop_last());
        assert(join(a) + (join(b.drop_last()) + b.last()) =~= (join(a) + join(b.drop_last()))
            + b.last());
    }
}

pub proof fn lemma_join_first(s: Seq<Seq<u8>>)
    requires
        s.len() > 0,
    ensures
        join(s) == s[0] + join(s.drop_first()),
{
    lemma_join_append(seq![s[0]], s.drop_first());
    assert(seq![s[0]] + s.drop_first() =~= s);
    let one = seq![s[0]];
    assert(one.drop_last() =~= Seq::<Seq<u8>>::empty());
    assert(join(one) == join(one.drop_last()) + one.last());
    assert(Seq::<u8>::empty() + s[0] =~= s[0]);
}

/// The written length of a sequence of non-empty pieces is at least their number.
pub proof fn lemma_join_len(s: Seq<Seq<u8>>)
    requires
        forall|i: int| 0 <= i < s.len() ==> #[trigger] s[i].len() >= 1,
    ensures
        join(s).len() >= s.len(),
    decreases s.len(),
{
    if s.len() > 0 {
        lemma_join_len(s.drop_last());
    }
}

/// The written length is that of the completed lines plus the tail.
pub proof fn lemma_entries_len(v: HistoryView)
    ensures
        byte_len(v) == join(completed(v)).len() + v.current.len(),
        join(completed(v)).len() >= v.lines.len(),
{
    let c = completed(v);
    if v.current.len() != 0 {
        assert(entries(v).drop_last() =~= c);
    }
    assert forall|i: int| 0 <= i < c.len() implies #[trigger] c[i].len() >= 1 by {
        assert(c[i] == v.lines[i].push(LINE_FEED));
    }
    lemma_join_len(c);
}

/// A byte changes the written length by at most one.
pub proof fn lemma_push_byte_len(v: HistoryView, b: u8)
    ensures
        byte_len(push_byte_spec(v, b)) <= byte_len(v) + 1,
{
    let w = push_byte_spec(v, b);
    let c = completed(v);
    lemma_entries_len(v);
    lemma_entries_len(w);
    if b == LINE_FEED {
        let ls = v.lines.push(v.current);
        let cl = HistoryView { lines: ls, current: seq![], max_lines: v.max_lines };
        let cc = completed(cl);
        assert(cc =~= c.push(v.current.push(LINE_FEED)));
        assert(cc.drop_last() =~= c);
        assert(join(cc) == join(cc.drop_last()) + cc.last());
        if ls.len() > v.max_lines {
            assert(completed(w) =~= cc.drop_first());
            lemma_join_first(cc);
        } else {
            assert(completed(w) =~= cc);
        }
    } else {
        assert(completed(w) =~= c);
    }
}

pub proof fn lemma_push_bytes_len(v: HistoryView, s: Seq<u8>)
    ensures
        byte_len(push_bytes_spec(v, s)) <= byte_len(v) + s.len(),
    decreases s.len(),
{
    if s.len() > 0 {
        lemma_push_bytes_len(v, s.drop_last());
        lemma_push_byte_len(push_bytes_spec(v, s.drop_last()), s.last());
    }
}

/// The completed lines `ls`, each followed by its terminator.
pub open spec fn terminated(ls: Seq<Seq<u8>>) -> Seq<Seq<u8>> {
    ls.map_values(|l: Seq<u8>| l.push(LINE_FEED))
}

pub proof fn lemma_push_bytes_split(v: HistoryView, a: Seq<u8>, b: Seq<u8>)
    ensures
        push_bytes_spec(v, a + b) == push_bytes_spec(push_bytes_spec(v, a), b),
    decreases b.len(),
{
    if b.len() == 0 {
        assert(a + b =~= a);
    } else {
        lemma_push_bytes_split(v, a, b.drop_last());
        assert((a + b).drop_last() =~= a + b.drop_last());
        assert((a + b).last() == b.last());
    }
}

/// Bytes without a terminator only extend the tail.
pub proof fn lemma_push_tail(v: HistoryView, l: Seq<u8>)
    requires
        !l.contains(LINE_FEED),
    ensures
        push_bytes_spec(v, l) == (HistoryView {
            lines: v.lines,
            current: v.current + l,
            max_lines: v.max_lines,
        }),
    decreases l.len(),
{
    if l.len() == 0 {
        assert(v.current + l =~= v.current);
    } else {
        assert(!l.drop_last().contains(LINE_FEED)) by {
            if l.drop_last().contains(LINE_FEED) {
                let j = choose|j: int| 0 <= j < l.drop_last().len() && l.drop_last()[j] == LINE_FEED;
                assert(l[j] == LINE_FEED);
            }
        }
        lemma_push_tail(v, l.drop_last());
        assert(l.last() != LINE_FEED) by {
            assert(l[l.len() - 1] == l.last());
        }
        assert((v.current + l.drop_last()).push(l.last()) =~= v.current + l);
    }
}

/// One complete line pushed after a finished line: it joins the completed
/// lines, and the oldest leaves where the capacity is exceeded.
pub proof fn lemma_push_line(u: HistoryView, l: Seq<u8>)
    requires
        u.current.len() == 0,
        !l.contains(LINE_FEED),
    ensures
        push_bytes_spec(u, l.push(LINE_FEED)) == push_byte_spec(
            (HistoryView { lines: u.lines, current: l, max_lines: u.max_lines }),
            LINE_FEED,
        ),
{
    let lf = seq![LINE_FEED];
    assert(l.push(LINE_FEED) =~= l + lf);
    lemma_push_bytes_split(u, l, lf);
    lemma_push_tail(u, l);
    assert(u.current + l =~= l);
    let w = push_bytes_spec(u, l);
    assert(lf.drop_last() =~= Seq::<u8>::empty());
    assert(push_bytes_spec(w, lf.drop_last()) == w);
    assert(lf.last() == LINE_FEED);
}

proof fn lemma_lines_kept(max_lines: nat, ls: Seq<Seq<u8>>)
    requires
        forall|i: int| 0 <= i < ls.len() ==> !(#[trigger] ls[i]).contains(LINE_FEED),
    ensures
        push_bytes_spec(empty_history(max_lines), join(terminated(ls))) == (HistoryView {
            lines: last_n(ls, max_lines),
            current: Seq::<u8>::empty(),
            max_lines,
        }),
    decreases ls.len(),
{
    let e = empty_history(max_lines);
    if ls.len() == 0 {
        assert(join(terminated(ls)) =~= Seq::<u8>::empty());
        assert(last_n(ls, max_lines) =~= ls);
        assert(e.lines =~= ls);
    } else {
        let init = ls.drop_last();
        let l = ls.last();
        lemma_lines_kept(max_lines, init);
        let u = push_bytes_spec(e, join(terminated(init)));
        assert(terminated(ls).drop_last() =~= terminated(init));
        assert(terminated(ls).last() == l.push(LINE_FEED));
        lemma_push_bytes_split(e, join(terminated(init)), l.push(LINE_FEED));
        assert(!l.contains(LINE_FEED)) by {
            assert(ls[ls.len() - 1] == l);
        }
        lemma_push_line(u, l);
        let prev = last_n(init, max_lines);
        if max_lines >= ls.len() {
            assert(last_n(ls, max_lines) =~= prev.push(l));
        } else {
            assert(last_n(ls, max_lines) =~= prev.push(l).drop_first());
        }
    }
}

/// Pushing the complete lines `ls` into an empty buffer of capacity
/// `max_lines` keeps exactly the last `max_lines` of them, in order, with an
/// empty tail; writing the buffer out gives those lines with their
/// terminators, and the tracked byte count is that output's length.
pub proof fn lemma_history_keeps_last_lines(max_lines: nat, ls: Seq<Seq<u8>>)
    requires
        forall|i: int| 0 <= i < ls.len() ==> !(#[trigger] ls[i]).contains(LINE_FEED),
    ensures
        push_bytes_spec(empty_history(max_lines), join(terminated(ls))).lines == last_n(
            ls,
            max_lines,
        ),
        push_bytes_spec(empty_history(max_lines), join(terminated(ls))).current.len() == 0,
        join(entries(push_bytes_spec(empty_history(max_lines), join(terminated(ls))))) == join(
            terminated(last_n(ls, max_lines)),
        ),
        byte_len(push_bytes_spec(empty_history(max_lines), join(terminated(ls)))) == join(
            terminated(last_n(ls, max_lines)),
        ).len(),
{
    lemma_lines_kept(max_lines, ls);
    let v = push_bytes_spec(empty_history(max_lines), join(terminated(ls)));
    assert(entries(v) =~= completed(v));
    assert(completed(v) =~= terminated(last_n(ls, max_lines)));
}

/// A window that reaches back over every line writes what `append_all`
/// writes, and an empty window writes nothing.
pub proof fn lemma_window_edges(v: HistoryView, n: nat)
    ensures
        n >= entries(v).len() ==> join(last_n(entries(v), n)) == join(entries(v)),
        join(last_n(entries(v), 0)) == Seq::<u8>::empty(),
{
    let s = entries(v);
    if s.len() > 0 {
        assert(last_n(s, 0) =~= Seq::<Seq<u8>>::empty());
    }
}

/// The bounded line history.
pub struct LineBuffer {
    lines: VecDeque<Vec<u8>>,
    current_line: Vec<u8>,
    max_lines: usize,
    cached_bytes: usize,
}

impl View for LineBuffer {
    type V = HistoryView;

    closed spec fn view(&self) -> HistoryView {
        HistoryView {
            lines: self.lines@.map_values(|l: Vec<u8>| l@),
            current: self.current_line@,
            max_lines: self.max_lines as nat,
        }
    }
}

impl LineBuffer {
    /// The buffer's internal invariant: the line count stays within the
    /// capacity and the byte count is kept in step with the contents.
    pub closed spec fn wf(&self) -> bool {
        &&& self.lines@.len() <= self.max_lines
        &&& self.cached_bytes == join(completed(self@)).len()
        &&& self.cached_bytes + self.current_line@.len() <= usize::MAX
    }

    pub fn new(max_lines: usize) -> (r: Self)
        ensures
            r.wf(),
            r@ == empty_history(max_lines as nat),
    {
        let r = LineBuffer {
            lines: VecDeque::new(),
            current_line: Vec::new(),
            max_lines,
            cached_bytes: 0,
        };
        assert(r@.lines =~= Seq::<Seq<u8>>::empty());
        assert(r@.current =~= Seq::<u8>::empty());
        assert(completed(r@) =~= Seq::<Seq<u8>>::empty());
        r
    }

    proof fn lemma_byte_len(&self)
        requires
            self.wf(),
        ensures
            byte_len(self@) == self.cached_bytes + self.current_line@.len(),
    {
        lemma_entries_len(self@);
    }

    /// Records one byte of output.
    pub fn push_byte(&mut self, byte: u8)
        requires
            old(self).wf(),
            byte_len(old(self)@) < usize::MAX,
        ensures
            final(self).wf(),
            final(self)@ == push_byte_spec(old(self)@, byte),
    {
        proof {
            self.lemma_byte_len();
        }
        if byte == LINE_FEED {
            let ghost c = completed(self@);
            let mut line: Vec<u8> = Vec::new();
            std::mem::swap(&mut line, &mut self.current_line);
            self.cached_bytes = self.cached_bytes + line.len() + 1;
            self.lines.push_back(line);
            assert(self@.lines =~= old(self)@.lines.push(old(self)@.current));
            assert(completed(self@) =~= c.push(line@.push(LINE_FEED)));
            assert(completed(self@).drop_last() =~= c);
            assert(join(completed(self@)) == join(completed(self@).drop_last()) + completed(
                self@,
            ).last());
            assert(self.cached_bytes == join(completed(self@)).len());
            if self.lines.len() > self.max_lines {
                let ghost before = completed(self@);
                let removed = self.lines.pop_front();
                proof {
                    lemma_join_first(before);
                }
                match removed {
                    Some(r) => {
                        assert(before[0] == r@.push(LINE_FEED));
                        self.cached_bytes = self.cached_bytes - (r.len() + 1);
                    },
                    None => {},
                }
                assert(completed(self@) =~= before.drop_first());
                assert(self@.lines =~= old(self)@.lines.push(old(self)@.current).drop_first());
            }
            assert(self@.current =~= Seq::<u8>::empty());
        } else {
            self.current_line.push(byte);
        }
    }

    /// Records the bytes of `bytes` in order.
    pub fn push_bytes(&mut self, bytes: &[u8])
        requires
            old(self).wf(),
            byte_len(old(self)@) + bytes@.len() <= usize::MAX,
        ensures
            final(self).wf(),
            final(self)@ == push_bytes_spec(old(self)@, bytes@),
    {
        let mut i: usize = 0;
        assert(bytes@.subrange(0, 0) =~= Seq::<u8>::empty());
        while i < bytes.len()
            invariant
                i <= bytes@.len(),
                self.wf(),
                self@ == push_bytes_spec(old(self)@, bytes@.subrange(0, i as int)),
                byte_len(old(self)@) + bytes@.len() <= usize::MAX,
            decreases bytes@.len() - i,
        {
            proof {
                lemma_push_bytes_len(old(self)@, bytes@.subrange(0, i as int));
            }
            self.push_byte(bytes[i]);
            assert(bytes@.subrange(0, i + 1).drop_last() =~= bytes@.subrange(0, i as int));
            i = i + 1;
        }
        assert(bytes@.subrange(0, bytes@.len() as int) =~= bytes@);
    }

    /// Forgets every line and the tail; the capacity stays.
    pub fn clear(&mut self)
        requires
            old(self).wf(),
        ensures
            final(self).wf(),
            final(self)@ == empty_history(old(self)@.max_lines),
    {
        self.lines.clear();
        self.current_line.clear();
        self.cached_bytes = 0;
        assert(self@.lines =~= Seq::<Seq<u8>>::empty());
        assert(self@.current =~= Seq::<u8>::empty());
        assert(completed(self@) =~= Seq::<Seq<u8>>::empty());
    }

    /// The number of lines, the tail counted where it is not empty.
    pub fn line_count(&self) -> (r: usize)
        requires
            self.wf(),
        ensures
            r == entries(self@).len(),
    {
        proof {
            self.lemma_byte_len();
            lemma_entries_len(self@);
        }
        self.lines.len() + if self.current_line.len() == 0 {
            0
        } else {
            1
        }
    }

    /// The number of bytes held, terminators included.
    pub fn total_bytes(&self) -> (r: usize)
        requires
            self.wf(),
        ensures
            r == byte_len(self@),
    {
        proof {
            self.lemma_byte_len();
        }
        self.cached_bytes + self.current_line.len()
    }

    /// Appends the last `n` lines to `output`, oldest first.
    pub fn append_last_n_lines(&self, n: usize, output: &mut Vec<u8>)
        requires
            self.wf(),
        ensures
            final(output)@ == old(output)@ + join(last_n(entries(self@), n as nat)),
    {
        let total = self.line_count();
        let skip: usize = if total > n {
            total - n
        } else {
            0
        };
        let nl = self.lines.len();
        let cskip: usize = if skip < nl {
            skip
        } else {
            nl
        };
        let ghost c = completed(self@);
        let mut i: usize = cskip;
        assert(c.subrange(cskip as int, cskip as int) =~= Seq::<Seq<u8>>::empty());
        assert(old(output)@ + join(Seq::<Seq<u8>>::empty()) =~= old(output)@);
        while i < nl
            invariant
                nl == self@.lines.len(),
                c == completed(self@),
                cskip <= i <= nl,
                output@ == old(output)@ + join(c.subrange(cskip as int, i as int)),
            decreases nl - i,
        {
            let ghost before = output@;
            append_bytes(output, self.lines[i].as_slice());
            output.push(LINE_FEED);
            assert(c.subrange(cskip as int, i + 1).drop_last() =~= c.subrange(
                cskip as int,
                i as int,
            ));
            assert(c[i as int] == self@.lines[i as int].push(LINE_FEED));
            assert(output@ =~= before + c[i as int]);
            i = i + 1;
        }
        let ghost e = entries(self@);
        let ghost t = e.len();
        assert(last_n(e, n as nat) =~= e.subrange(skip as int, t as int));
        if self.current_line.len() != 0 && skip < total {
            append_bytes(output, self.current_line.as_slice());
            assert(e.subrange(skip as int, t as int).drop_last() =~= c.subrange(
                skip as int,
                nl as int,
            ));
        } else if self.current_line.len() != 0 {
            assert(e.subrange(skip as int, t as int) =~= Seq::<Seq<u8>>::empty());
            assert(c.subrange(cskip as int, nl as int) =~= Seq::<Seq<u8>>::empty());
        } else {
            assert(e.subrange(skip as int, t as int) =~= c.subrange(cskip as int, nl as int));
        }
    }

    /// Appends every line, oldest first, and the tail.
    pub fn append_all(&self, output: &mut Vec<u8>)
        requires
            self.wf(),
        ensures
            final(output)@ == old(output)@ + join(entries(self@)),
    {
        self.append_last_n_lines(self.line_count(), output);
    }
}

} // verus!
