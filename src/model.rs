//! The abstract state of a line reader and how reads and drains change it.

use vstd::prelude::*;
use vstd::utf8::{encode_utf8, valid_utf8};

use crate::lines::{
    all_valid, complete_lines, final_lines, fragment_line, fragment_of, is_complete_line, joined,
    lemma_final_shape, lemma_split_shape, lemma_valid_stream_lines, lemma_valid_texts, lines_split, no_separator, separator_count,
    split_rest, texts_of,
};

verus! {

/// What a line reader has done so far, seen from outside.
pub struct ReaderView {
    /// Every byte taken from the stream, in order.
    pub consumed: Seq<u8>,
    /// Whether the stream has reported its end.
    pub ended: bool,
    /// The lines already handed to the caller.
    pub delivered: Seq<Seq<char>>,
    /// The lines recognized and not yet handed out.
    pub pending: Seq<Seq<char>>,
    /// The bytes taken from the stream and not yet split off as lines.
    pub buffered: Seq<u8>,
    /// Every line split off so far, as bytes, whether valid UTF-8 or not.
    pub taken: Seq<Seq<u8>>,
}

impl ReaderView {
    /// What was consumed is the lines taken off, then the buffer; the lines
    /// handed out and pending are the valid ones among those taken off, in
    /// order. Before the end every line taken off is complete, and where none
    /// was invalid the buffer holds no separator. After the end the buffer is
    /// empty, and where no invalid line came the lines taken off are exactly
    /// the stream's lines; for a stream of valid UTF-8 none came.
    pub open spec fn inv(self) -> bool {
        &&& self.consumed == joined(self.taken) + self.buffered
        &&& self.delivered + self.pending == texts_of(self.taken)
        &&& if self.ended {
            &&& self.buffered.len() == 0
            &&& all_valid(self.taken) ==> self.taken == final_lines(self.consumed)
            &&& valid_utf8(self.consumed) ==> all_valid(self.taken)
        } else {
            &&& forall|i: int|
                0 <= i < self.taken.len() ==> is_complete_line(#[trigger] self.taken[i])
            &&& all_valid(self.taken) ==> no_separator(self.buffered)
        }
    }
}

/// A reader that has read nothing.
pub open spec fn fresh_view() -> ReaderView {
    ReaderView {
        consumed: Seq::empty(),
        ended: false,
        delivered: Seq::empty(),
        pending: Seq::empty(),
        buffered: Seq::empty(),
        taken: Seq::empty(),
    }
}

/// The state after the pending lines were handed out.
pub open spec fn drained(v: ReaderView) -> ReaderView {
    ReaderView { delivered: v.delivered + v.pending, pending: Seq::empty(), ..v }
}

/// The state after a read that brought the bytes `d` or, where `ends`,
/// reported the end of the stream.
///
/// At the end, the whole buffer becomes the last line, if it is not empty. A
/// read that brought nothing changes nothing. Otherwise the buffer, with `d`
/// appended, is split up to the first line that is not valid UTF-8, which is
/// dropped; the bytes after it stay buffered.
pub open spec fn read_step(v: ReaderView, d: Seq<u8>, ends: bool) -> ReaderView {
    let b = v.buffered + d;
    if ends {
        ReaderView {
            consumed: v.consumed + d,
            ended: true,
            pending: v.pending + texts_of(fragment_line(b)),
            buffered: Seq::empty(),
            taken: v.taken + fragment_line(b),
            ..v
        }
    } else if d.len() == 0 {
        v
    } else {
        ReaderView {
            consumed: v.consumed + d,
            pending: v.pending + texts_of(lines_split(b)),
            buffered: split_rest(b),
            taken: v.taken + lines_split(b),
            ..v
        }
    }
}

/// Whether every line that such a read takes off is valid UTF-8.
pub open spec fn read_valid(v: ReaderView, d: Seq<u8>, ends: bool) -> bool {
    let b = v.buffered + d;
    if ends {
        all_valid(fragment_line(b))
    } else if d.len() == 0 {
        true
    } else {
        all_valid(lines_split(b))
    }
}

/// An operation on a reader: a read that brought bytes (and, where the flag
/// is set, the end of the stream), or a drain of the pending lines.
pub enum ReaderOp {
    Read(Seq<u8>, bool),
    Drain,
}

/// The state after `op`. A read on a reader that has ended changes nothing.
pub open spec fn after_op(v: ReaderView, op: ReaderOp) -> ReaderView {
    match op {
        ReaderOp::Read(d, ends) => if v.ended {
            v
        } else {
            read_step(v, d, ends)
        },
        ReaderOp::Drain => drained(v),
    }
}

/// The state after each of `ops` in turn.
pub open spec fn after_ops(v: ReaderView, ops: Seq<ReaderOp>) -> ReaderView
    decreases ops.len(),
{
    if ops.len() == 0 {
        v
    } else {
        after_op(after_ops(v, ops.drop_last()), ops.last())
    }
}

/// Once a reader has ended it stays ended whatever follows, takes no more
/// bytes, and adds no line: later drains only hand out what was pending.
pub proof fn lemma_end_is_kept(v: ReaderView, ops: Seq<ReaderOp>)
    requires
        v.ended,
    ensures
        after_ops(v, ops).ended,
        after_ops(v, ops).consumed == v.consumed,
        after_ops(v, ops).delivered + after_ops(v, ops).pending == v.delivered + v.pending,
    decreases ops.len(),
{
    if ops.len() > 0 {
        lemma_end_is_kept(v, ops.drop_last());
        let w = after_ops(v, ops.drop_last());
        assert(w.delivered + w.pending + Seq::<Seq<char>>::empty() == w.delivered + w.pending);
    }
}

/// Draining twice with no read in between hands out every pending line, then
/// nothing.
pub proof fn lemma_drain_twice(v: ReaderView)
    ensures
        drained(v).pending.len() == 0,
        drained(drained(v)) == drained(v),
        drained(v).delivered == v.delivered + v.pending,
{
    assert(v.delivered + v.pending + Seq::<Seq<char>>::empty() == v.delivered + v.pending);
}

/// Once a reader has seen the end of a stream of valid UTF-8, the lines handed out and pending are the stream's lines in order:
/// one per separator, plus one where a fragment trails; each encodes back to
/// exactly its bytes, separator included, and together they give back the
/// stream.
pub proof fn lemma_drained_stream(v: ReaderView)
    requires
        v.inv(),
        v.ended,
        valid_utf8(v.consumed),
    ensures
        (v.delivered + v.pending).len() == separator_count(v.consumed) + if fragment_of(
            v.consumed,
        ).len() > 0 {
            1int
        } else {
            0int
        },
        forall|i: int|
            0 <= i < (v.delivered + v.pending).len() ==> encode_utf8(
                #[trigger] (v.delivered + v.pending)[i],
            ) == final_lines(v.consumed)[i],
        joined(final_lines(v.consumed)) == v.consumed,
        forall|i: int|
            0 <= i < separator_count(v.consumed) ==> is_complete_line(
                #[trigger] final_lines(v.consumed)[i],
            ),
{
    lemma_valid_stream_lines(v.consumed);
    lemma_final_shape(v.consumed);
    lemma_split_shape(v.consumed);
    lemma_valid_texts(final_lines(v.consumed));
    assert forall|i: int| 0 <= i < separator_count(v.consumed) implies is_complete_line(
        #[trigger] final_lines(v.consumed)[i],
    ) by {
        assert(final_lines(v.consumed)[i] == complete_lines(v.consumed)[i]);
    }
}

} // verus!
