//! The line reader: a byte buffer fed by the outcome of each read attempt
//! and split at each separator.

use vstd::prelude::*;
use vstd::slice::slice_subrange;
use vstd::string::StringSliceAdditionalSpecFns;
use vstd::utf8::{decode_utf8, encode_utf8, valid_utf8};

use crate::deps::utf8_text;
use crate::lines::{
    all_valid, complete_lines, final_lines, fragment_line, is_complete_line, joined,
    lemma_all_valid_concat, lemma_all_valid_push, lemma_joined_concat, lemma_leading_all_valid,
    lemma_leading_stops, lemma_line_then_rest, lemma_lines_after_taken, lemma_no_separator,
    lemma_texts_concat, lemma_valid_stream_lines, lines_split, no_separator, split_rest, texts_of,
    SEPARATOR,
};
use crate::model::{
    after_op, drained, fresh_view, read_step, read_valid, ReaderOp, ReaderView,
};

verus! {

broadcast use vstd::utf8::encode_utf8_decode_utf8;

/// The room that each read attempt on the stream offers for new bytes.
pub const READ_CHUNK: usize = 8192;

/// What one read attempt on the stream reported.
pub enum ReadEvent {
    /// The bytes that arrived; none means the end of the stream.
    Data(Vec<u8>),
    /// No data is available right now.
    WouldBlock,
    /// The attempt was interrupted before any data arrived.
    Interrupted,
    /// Any other failure of the stream.
    Failed(std::io::Error),
}

/// The bytes that a read brought.
pub open spec fn event_bytes(ev: ReadEvent) -> Seq<u8> {
    match ev {
        ReadEvent::Data(v) => v@,
        _ => Seq::empty(),
    }
}

/// Whether a read found the end of the stream.
pub open spec fn event_ends(ev: ReadEvent) -> bool {
    ev matches ReadEvent::Data(v) && v@.len() == 0
}

/// Why a read attempt failed.
pub enum LineError {
    /// The stream failed; nothing was read.
    Io(std::io::Error),
    /// A line that was split off is not valid UTF-8; it is dropped.
    InvalidText,
}

/// Buffered non-blocking reader that hands out only complete lines.
pub struct LineReader<R> {
    reader: R,
    at_eof: bool,
    buf: Vec<u8>,
    scanned: usize,
    lines: Vec<String>,
    consumed: Ghost<Seq<u8>>,
    delivered: Ghost<Seq<Seq<char>>>,
    taken: Ghost<Seq<Seq<u8>>>,
}

/// The texts of a run of strings.
pub open spec fn texts(v: Seq<String>) -> Seq<Seq<char>> {
    v.map_values(|s: String| s@)
}

impl<R> View for LineReader<R> {
    type V = ReaderView;

    closed spec fn view(&self) -> ReaderView {
        ReaderView {
            consumed: self.consumed@,
            ended: self.at_eof,
            delivered: self.delivered@,
            pending: texts(self.lines@),
            buffered: self.buf@,
            taken: self.taken@,
        }
    }
}

impl<R> LineReader<R> {
    /// The buffer holds the trailing fragment of what was consumed, and the
    /// lines pending and handed out are the valid lines seen.
    pub closed spec fn wf(&self) -> bool {
        &&& self@.inv()
        &&& self.scanned <= self.buf@.len()
        &&& no_separator(self.buf@.subrange(0, self.scanned as int))
    }

    /// A well-formed reader shows the invariant of its view.
    pub proof fn lemma_wf_inv(&self)
        requires
            self.wf(),
        ensures
            self@.inv(),
    {
    }

    /// The stream that the reader owns.
    pub closed spec fn inner(&self) -> R {
        self.reader
    }

    /// Creates a reader on a stream whose switch to non-blocking mode had the
    /// outcome `nonblocking`; it fails with that error where the switch failed.
    pub fn new(reader: R, nonblocking: Result<(), std::io::Error>) -> (r: Result<Self, std::io::Error>)
        ensures
            r is Ok <==> nonblocking is Ok,
            r matches Ok(lr) ==> lr.wf() && lr@ == fresh_view() && lr.inner() == reader,
            r matches Err(e) ==> nonblocking == Err::<(), std::io::Error>(e),
    {
        match nonblocking {
            Ok(()) => Self::from_nonblocking(reader),
            Err(e) => Err(e),
        }
    }

    /// Creates a reader on a stream that is already non-blocking.
    pub fn from_nonblocking(reader: R) -> (r: Result<Self, std::io::Error>)
        ensures
            r matches Ok(lr) && lr.wf() && lr@ == fresh_view() && lr.inner() == reader,
    {
        let lr = LineReader {
            reader,
            at_eof: false,
            buf: Vec::new(),
            scanned: 0,
            lines: Vec::new(),
            consumed: Ghost(Seq::empty()),
            delivered: Ghost(Seq::empty()),
            taken: Ghost(Seq::empty()),
        };
        proof {
            assert(complete_lines(Seq::<u8>::empty()) == Seq::<Seq<u8>>::empty());
            assert(texts_of(Seq::<Seq<u8>>::empty()) == Seq::<Seq<char>>::empty());
            assert(texts(lr.lines@) == Seq::<Seq<char>>::empty());
            assert(lr@ == fresh_view());
            assert(joined(Seq::<Seq<u8>>::empty()) + Seq::<u8>::empty() == Seq::<u8>::empty());
            assert(lr.buf@.subrange(0, 0) == Seq::<u8>::empty());
        }
        Ok(lr)
    }

    /// The stream that the reader owns.
    pub fn get_ref(&self) -> (r: &R)
        ensures
            *r == self.inner(),
    {
        &self.reader
    }

    /// The stream that the reader owns, to read from; the reader's lines and
    /// buffer are not reachable through it.
    pub fn get_mut(&mut self) -> (r: &mut R)
        ensures
            *r == old(self).inner(),
            final(self).inner() == *final(r),
            final(self)@ == old(self)@,
            final(self).wf() == old(self).wf(),
    {
        &mut self.reader
    }

    /// Whether the stream has reported its end. From then on reads have no
    /// effect; lines may still be pending.
    pub fn eof(&self) -> (r: bool)
        ensures
            r == self@.ended,
    {
        self.at_eof
    }

    /// Whether lines are pending.
    pub fn has_lines(&self) -> (r: bool)
        ensures
            r == (self@.pending.len() > 0),
    {
        self.lines.len() > 0
    }

    /// Whether a caller that reads until a line is pending or the stream has
    /// ended can stop reading.
    pub fn read_available_done(&self) -> (r: bool)
        ensures
            r == (self@.ended || self@.pending.len() > 0),
    {
        self.at_eof || self.lines.len() > 0
    }

    /// Hands out the pending lines, in order, and leaves none pending.
    pub fn lines_get(&mut self) -> (r: Vec<String>)
        requires
            old(self).wf(),
        ensures
            final(self).wf(),
            final(self)@ == drained(old(self)@),
            final(self)@ == after_op(old(self)@, ReaderOp::Drain),
            texts(r@) == old(self)@.pending,
            final(self).inner() == old(self).inner(),
    {
        let mut out: Vec<String> = Vec::new();
        std::mem::swap(&mut self.lines, &mut out);
        self.delivered = Ghost(self.delivered@ + texts(out@));
        proof {
            assert(texts(self.lines@) == Seq::<Seq<char>>::empty());
            assert(self.delivered@ + Seq::<Seq<char>>::empty() == self.delivered@);
        }
        out
    }

    /// Takes in the outcome of one read attempt on the stream.
    ///
    /// After the end of the stream it does nothing and returns `Ok(false)`.
    /// Where the stream failed, nothing changes and its error is returned.
    /// Where no data was available or the attempt was interrupted, nothing
    /// changes and `Ok(true)` is returned. Where the stream reported its end,
    /// the whole buffer, if not empty, becomes the last line byte for byte.
    /// Otherwise the bytes that arrived are appended to the buffer, and the
    /// buffer is split at each separator, from the first byte not scanned
    /// before. At the first line that is not valid UTF-8 the split stops: that
    /// line is dropped, the bytes after it stay buffered until the next data,
    /// and `InvalidText` is returned.
    pub fn apply_read(&mut self, event: ReadEvent) -> (r: Result<bool, LineError>)
        requires
            old(self).wf(),
        ensures
            final(self).wf(),
            final(self).inner() == old(self).inner(),
            old(self)@.ended ==> r == Ok::<bool, LineError>(false) && final(self)@ == old(self)@,
            !(event is Failed) ==> final(self)@ == after_op(
                old(self)@,
                ReaderOp::Read(event_bytes(event), event_ends(event)),
            ),
            !old(self)@.ended ==> match event {
                ReadEvent::Failed(e) => r == Err::<bool, LineError>(LineError::Io(e)) && final(self)@
                    == old(self)@,
                ReadEvent::WouldBlock => r == Ok::<bool, LineError>(true) && final(self)@ == old(self)@,
                ReadEvent::Interrupted => r == Ok::<bool, LineError>(true) && final(self)@ == old(self)@,
                ReadEvent::Data(_) => {
                    &&& final(self)@ == read_step(old(self)@, event_bytes(event), event_ends(event))
                    &&& r == Ok::<bool, LineError>(true) <==> read_valid(
                        old(self)@,
                        event_bytes(event),
                        event_ends(event),
                    )
                    &&& r == Ok::<bool, LineError>(true) || r == Err::<bool, LineError>(
                        LineError::InvalidText,
                    )
                },
            },
    {
        if self.at_eof {
            return Ok(false);
        }
        let ghost before = self@;
        match event {
            ReadEvent::Failed(e) => Err(LineError::Io(e)),
            ReadEvent::WouldBlock => Ok(true),
            ReadEvent::Interrupted => Ok(true),
            ReadEvent::Data(mut data) => {
                if data.len() == 0 {
                    proof {
                        assert(before.buffered + data@ == before.buffered);
                        assert(before.consumed + data@ == before.consumed);
                    }
                    return self.finish();
                }
                let ghost d = data@;
                self.buf.append(&mut data);
                self.consumed = Ghost(self.consumed@ + d);
                proof {
                    assert(self.buf@ == before.buffered + d);
                    assert(self.buf@.subrange(0, self.scanned as int) == before.buffered.subrange(
                        0,
                        self.scanned as int,
                    ));
                }
                let ghost b = self.buf@;
                let start = self.scanned;
                let split = self.split_from(start);
                self.taken = Ghost(self.taken@ + lines_split(b));
                proof {
                    let t = before.taken;
                    let s = lines_split(b);
                    lemma_joined_concat(t, s);
                    lemma_texts_concat(t, s);
                    lemma_all_valid_concat(t, s);
                    assert(before.consumed + d == joined(t) + b);
                    assert(joined(t) + b == joined(t) + joined(s) + self.buf@);
                    assert(self@.consumed == joined(t + s) + self.buf@);
                    assert(before.delivered + (before.pending + texts_of(s)) == (before.delivered
                        + before.pending) + texts_of(s));
                    assert forall|i: int| 0 <= i < (t + s).len() implies is_complete_line(
                        #[trigger] (t + s)[i],
                    ) by {
                        if i < t.len() {
                            assert((t + s)[i] == t[i]);
                        } else {
                            assert((t + s)[i] == s[i - t.len()]);
                        }
                    }
                    assert(self.buf@.subrange(0, 0) == Seq::<u8>::empty());
                    assert(self@ == read_step(before, d, false));
                }
                match split {
                    Err(e) => Err(e),
                    Ok(_) => Ok(true),
                }
            },
        }
    }

    /// Ends the stream: the whole buffer, if not empty, becomes the last line.
    fn finish(&mut self) -> (r: Result<bool, LineError>)
        requires
            !old(self).at_eof,
            old(self).wf(),
        ensures
            final(self).wf(),
            final(self).inner() == old(self).inner(),
            final(self)@ == read_step(old(self)@, Seq::empty(), true),
            r == Ok::<bool, LineError>(true) <==> all_valid(fragment_line(old(self).buf@)),
            r == Ok::<bool, LineError>(true) || r == Err::<bool, LineError>(LineError::InvalidText),
    {
        let ghost before = self@;
        let ghost f = self.buf@;
        let ghost t = self.taken@;
        let ghost fl = fragment_line(f);
        proof {
            assert(f + Seq::<u8>::empty() == f);
            assert(before.consumed + Seq::<u8>::empty() == before.consumed);
            lemma_joined_concat(t, fl);
            lemma_texts_concat(t, fl);
            lemma_all_valid_concat(t, fl);
            if f.len() > 0 {
                assert(fl == seq![f]);
                assert(seq![f].drop_last() == Seq::<Seq<u8>>::empty());
                assert(Seq::<u8>::empty() + f == f);
                assert(joined(Seq::<Seq<u8>>::empty()) == Seq::<u8>::empty());
                assert(fl.last() == f);
                assert(joined(fl) == joined(fl.drop_last()) + fl.last());
                assert(joined(fl) == f);
                assert(t + fl == t.push(f));
            } else {
                assert(joined(fl) == Seq::<u8>::empty());
                assert(t + fl == t);
                assert(f == Seq::<u8>::empty());
            }
            assert(before.consumed == joined(t + fl) + Seq::<u8>::empty());
            lemma_lines_after_taken(t, f);
            if all_valid(t) {
                lemma_no_separator(f);
                assert(t + Seq::<Seq<u8>>::empty() == t);
                assert(t + fl == final_lines(before.consumed));
            }
            if valid_utf8(before.consumed) {
                lemma_valid_stream_lines(before.consumed);
                lemma_all_valid_concat(t, complete_lines(f));
                lemma_no_separator(f);
                if f.len() > 0 {
                    lemma_all_valid_push(Seq::empty(), f);
                    assert(Seq::<Seq<u8>>::empty().push(f) == fl);
                } else {
                    assert(all_valid(fl));
                }
            }
            assert(before.delivered + (before.pending + texts_of(fl)) == (before.delivered
                + before.pending) + texts_of(fl));
        }
        let mut result: Result<bool, LineError> = Ok(true);
        if self.buf.len() > 0 {
            let mut last: Vec<u8> = Vec::new();
            std::mem::swap(&mut self.buf, &mut last);
            let ghost lines_before = self.lines@;
            match utf8_text(last.as_slice()) {
                Some(text) => {
                    self.lines.push(text.to_owned());
                    proof {
                        assert(decode_utf8(encode_utf8(text@)) == text@);
                        assert(texts(self.lines@) =~= texts(lines_before).push(text@));
                    }
                },
                None => {
                    result = Err(LineError::InvalidText);
                },
            }
            proof {
                lemma_all_valid_push(Seq::empty(), f);
                assert(Seq::<Seq<u8>>::empty().push(f) == fl);
                assert(fl.drop_last() == Seq::<Seq<u8>>::empty());
                assert(texts_of(Seq::<Seq<u8>>::empty()) == Seq::<Seq<char>>::empty());
            }
        } else {
            proof {
                assert(texts_of(Seq::<Seq<u8>>::empty()) == Seq::<Seq<char>>::empty());
                assert(before.pending + Seq::<Seq<char>>::empty() == before.pending);
            }
        }
        self.taken = Ghost(self.taken@ + fl);
        self.scanned = 0;
        self.at_eof = true;
        proof {
            assert(self.buf@.subrange(0, 0) == Seq::<u8>::empty());
            assert(self@.pending == before.pending + texts_of(fl));
        }
        result
    }

    /// Splits lines off the front of the buffer, scanning from `start` (the
    /// bytes before it hold no separator), up to and including the first line
    /// that is not valid UTF-8; that line is dropped.
    fn split_from(&mut self, start: usize) -> (r: Result<bool, LineError>)
        requires
            start <= old(self).buf@.len(),
            no_separator(old(self).buf@.subrange(0, start as int)),
        ensures
            final(self).buf@ == split_rest(old(self).buf@),
            old(self).buf@ == joined(lines_split(old(self).buf@)) + final(self).buf@,
            forall|i: int|
                0 <= i < lines_split(old(self).buf@).len() ==> is_complete_line(
                    #[trigger] lines_split(old(self).buf@)[i],
                ),
            texts(final(self).lines@) == texts(old(self).lines@) + texts_of(
                lines_split(old(self).buf@),
            ),
            r == Ok::<bool, LineError>(true) <==> all_valid(lines_split(old(self).buf@)),
            r == Ok::<bool, LineError>(true) || r == Err::<bool, LineError>(LineError::InvalidText),
            r is Ok ==> no_separator(final(self).buf@) && final(self).scanned == final(self).buf@.len(),
            r is Err ==> final(self).scanned == 0,
            final(self).reader == old(self).reader,
            final(self).at_eof == old(self).at_eof,
            final(self).consumed == old(self).consumed,
            final(self).delivered == old(self).delivered,
            final(self).taken == old(self).taken,
    {
        let ghost live0 = self.buf@;
        let ghost lines0 = texts(self.lines@);
        let ghost mut done: Seq<Seq<u8>> = Seq::empty();
        let mut pos: usize = start;
        proof {
            assert(done + complete_lines(live0) == complete_lines(live0));
            assert(lines0 + texts_of(done) == lines0);
            assert(joined(done) + live0 == live0);
        }
        loop
            invariant
                pos <= self.buf@.len(),
                no_separator(self.buf@.subrange(0, pos as int)),
                live0 == joined(done) + self.buf@,
                live0 == old(self).buf@,
                lines0 == texts(old(self).lines@),
                complete_lines(live0) == done + complete_lines(self.buf@),
                all_valid(done),
                forall|i: int| 0 <= i < done.len() ==> is_complete_line(#[trigger] done[i]),
                texts(self.lines@) == lines0 + texts_of(done),
                self.reader == old(self).reader,
                self.at_eof == old(self).at_eof,
                self.consumed == old(self).consumed,
                self.delivered == old(self).delivered,
                self.taken == old(self).taken,
            ensures
                no_separator(self.buf@),
                live0 == joined(done) + self.buf@,
                live0 == old(self).buf@,
                lines0 == texts(old(self).lines@),
                complete_lines(live0) == done + complete_lines(self.buf@),
                all_valid(done),
                forall|i: int| 0 <= i < done.len() ==> is_complete_line(#[trigger] done[i]),
                texts(self.lines@) == lines0 + texts_of(done),
                self.reader == old(self).reader,
                self.at_eof == old(self).at_eof,
                self.consumed == old(self).consumed,
                self.delivered == old(self).delivered,
                self.taken == old(self).taken,
            decreases self.buf@.len() - pos,
        {
            let hay = slice_subrange(self.buf.as_slice(), pos, self.buf.len());
            match memchr::memchr(SEPARATOR, hay) {
                None => {
                    proof {
                        let live = self.buf@;
                        assert forall|j: int| 0 <= j < live.len() implies live[j] != SEPARATOR by {
                            if j < pos {
                                assert(live[j] == self.buf@.subrange(0, pos as int)[j]);
                            } else {
                                assert(live[j] == hay@[j - pos]);
                            }
                        }
                    }
                    break ;
                },
                Some(i) => {
                    let ghost before = self.buf@;
                    let ghost lines_before = self.lines@;
                    let k = pos + i + 1;
                    let mut line = self.buf.split_off(k);
                    std::mem::swap(&mut self.buf, &mut line);
                    let ghost rest = self.buf@;
                    proof {
                        assert(line@.last() == hay@[i as int]);
                        assert forall|j: int| 0 <= j < line@.drop_last().len() implies line@.drop_last()[j]
                            != SEPARATOR by {
                            if j < pos {
                                assert(line@.drop_last()[j] == before.subrange(0, pos as int)[j]);
                            } else {
                                assert(line@.drop_last()[j] == hay@[j - pos]);
                            }
                        }
                        assert(is_complete_line(line@));
                        assert(line@ + rest == before);
                        lemma_line_then_rest(line@, rest);
                        assert(done + (seq![line@] + complete_lines(rest)) == done.push(line@)
                            + complete_lines(rest));
                        assert(done.push(line@).drop_last() == done);
                        assert(joined(done.push(line@)) == joined(done) + line@);
                        assert(live0 == joined(done.push(line@)) + rest);
                        lemma_all_valid_push(done, line@);
                    }
                    match utf8_text(line.as_slice()) {
                        Some(text) => {
                            self.lines.push(text.to_owned());
                            proof {
                                assert(decode_utf8(encode_utf8(text@)) == text@);
                                assert(texts(self.lines@) =~= texts(lines_before).push(text@));
                                let done0 = done;
                                done = done.push(line@);
                                assert(lines0 + texts_of(done0).push(decode_utf8(line@)) == (lines0
                                    + texts_of(done0)).push(decode_utf8(line@)));
                                assert forall|j: int| 0 <= j < done.len() implies is_complete_line(
                                    #[trigger] done[j],
                                ) by {
                                    if j < done0.len() {
                                        assert(done[j] == done0[j]);
                                    }
                                }
                                assert(rest.subrange(0, 0) == Seq::<u8>::empty());
                            }
                            pos = 0;
                        },
                        None => {
                            self.scanned = 0;
                            proof {
                                let ls = complete_lines(live0);
                                lemma_leading_stops(done, line@, complete_lines(rest));
                                assert(ls == done.push(line@) + complete_lines(rest));
                                assert(ls.subrange(0, done.len() as int + 1) == done.push(line@));
                                assert(lines_split(live0) == done.push(line@));
                                assert(texts_of(done.push(line@)) == texts_of(done));
                                assert(!all_valid(lines_split(live0)));
                                assert(live0.subrange(
                                    joined(done.push(line@)).len() as int,
                                    live0.len() as int,
                                ) == rest);
                                let s = done.push(line@);
                                assert(split_rest(live0) == rest);
                                assert(live0 == joined(lines_split(live0)) + rest);
                                assert forall|j: int| 0 <= j < s.len() implies is_complete_line(
                                    #[trigger] s[j],
                                ) by {
                                    if j < done.len() {
                                        assert(s[j] == done[j]);
                                    }
                                }
                            }
                            return Err(LineError::InvalidText);
                        },
                    }
                },
            }
        }
        self.scanned = self.buf.len();
        proof {
            lemma_no_separator(self.buf@);
            assert(done + Seq::<Seq<u8>>::empty() == done);
            lemma_leading_all_valid(done);
            assert(lines_split(live0) == done);
            assert(live0.subrange(joined(done).len() as int, live0.len() as int) == self.buf@);
        }
        Ok(true)
    }
}

} // verus!
