//! The mathematical model of splitting a byte stream into lines.
//!
//! A line is a run of bytes that ends with the separator `\n`, separator
//! included. The bytes after the last separator form the trailing fragment,
//! which becomes a line of its own only once the stream has ended.

use vstd::prelude::*;
use vstd::utf8::{
    decode_utf8, decode_utf8_encode_utf8, encode_utf8, is_char_boundary, length_of_first_scalar,
    pop_first_scalar, valid_first_scalar, valid_utf8, valid_utf8_concat, valid_utf8_split,
};

verus! {

/// The byte that ends a line.
pub const SEPARATOR: u8 = 10;

/// `s` holds no separator.
pub open spec fn no_separator(s: Seq<u8>) -> bool {
    forall|i: int| 0 <= i < s.len() ==> s[i] != SEPARATOR
}

/// The bytes of `s` after its last separator (all of `s` if it has none).
pub open spec fn fragment_of(s: Seq<u8>) -> Seq<u8>
    decreases s.len(),
{
    if s.len() == 0 {
        Seq::empty()
    } else if s.last() == SEPARATOR {
        Seq::empty()
    } else {
        fragment_of(s.drop_last()).push(s.last())
    }
}

/// The complete lines of `s`, in order, each with its separator.
pub open spec fn complete_lines(s: Seq<u8>) -> Seq<Seq<u8>>
    decreases s.len(),
{
    if s.len() == 0 {
        Seq::empty()
    } else if s.last() == SEPARATOR {
        complete_lines(s.drop_last()).push(fragment_of(s.drop_last()).push(SEPARATOR))
    } else {
        complete_lines(s.drop_last())
    }
}

/// The lines of a stream that has ended after the bytes `s`: its complete
/// lines, then the trailing fragment if it is not empty.
pub open spec fn final_lines(s: Seq<u8>) -> Seq<Seq<u8>> {
    if fragment_of(s).len() == 0 {
        complete_lines(s)
    } else {
        complete_lines(s).push(fragment_of(s))
    }
}

/// The text of each line that is valid UTF-8, in order; invalid lines are
/// left out.
pub open spec fn texts_of(lines: Seq<Seq<u8>>) -> Seq<Seq<char>>
    decreases lines.len(),
{
    if lines.len() == 0 {
        Seq::empty()
    } else if valid_utf8(lines.last()) {
        texts_of(lines.drop_last()).push(decode_utf8(lines.last()))
    } else {
        texts_of(lines.drop_last())
    }
}

/// Every line of `lines` is valid UTF-8.
pub open spec fn all_valid(lines: Seq<Seq<u8>>) -> bool {
    forall|i: int| 0 <= i < lines.len() ==> valid_utf8(#[trigger] lines[i])
}

/// The number of separators in `s`.
pub open spec fn separator_count(s: Seq<u8>) -> nat
    decreases s.len(),
{
    if s.len() == 0 {
        0
    } else if s.last() == SEPARATOR {
        separator_count(s.drop_last()) + 1
    } else {
        separator_count(s.drop_last())
    }
}

/// All lines of `lines` laid end to end.
pub open spec fn joined(lines: Seq<Seq<u8>>) -> Seq<u8>
    decreases lines.len(),
{
    if lines.len() == 0 {
        Seq::empty()
    } else {
        joined(lines.drop_last()) + lines.last()
    }
}

/// `line` is a complete line: it ends with the separator and holds no other.
pub open spec fn is_complete_line(line: Seq<u8>) -> bool {
    line.len() > 0 && line.last() == SEPARATOR && no_separator(line.drop_last())
}

pub proof fn lemma_fragment_has_no_separator(s: Seq<u8>)
    ensures
        no_separator(fragment_of(s)),
    decreases s.len(),
{
    if s.len() > 0 && s.last() != SEPARATOR {
        lemma_fragment_has_no_separator(s.drop_last());
    }
}

/// Bytes without a separator make no line and are all fragment.
pub proof fn lemma_no_separator(x: Seq<u8>)
    requires
        no_separator(x),
    ensures
        complete_lines(x) == Seq::<Seq<u8>>::empty(),
        fragment_of(x) == x,
    decreases x.len(),
{
    if x.len() > 0 {
        lemma_no_separator(x.drop_last());
        assert(x.drop_last().push(x.last()) == x);
    }
}

/// Appending `d` to `a` adds the lines that `d` completes on top of what was
/// left of `a`.
pub proof fn lemma_append(a: Seq<u8>, d: Seq<u8>)
    ensures
        complete_lines(a + d) == complete_lines(a) + complete_lines(fragment_of(a) + d),
        fragment_of(a + d) == fragment_of(fragment_of(a) + d),
    decreases d.len(),
{
    if d.len() == 0 {
        lemma_fragment_has_no_separator(a);
        lemma_no_separator(fragment_of(a));
        assert(a + d == a);
        assert(fragment_of(a) + d == fragment_of(a));
        assert(complete_lines(a) + Seq::<Seq<u8>>::empty() == complete_lines(a));
    } else {
        let d0 = d.drop_last();
        lemma_append(a, d0);
        assert((a + d).drop_last() == a + d0);
        assert((a + d).last() == d.last());
        assert((fragment_of(a) + d).drop_last() == fragment_of(a) + d0);
        assert((fragment_of(a) + d).last() == d.last());
        if d.last() == SEPARATOR {
            assert(complete_lines(a) + complete_lines(fragment_of(a) + d0).push(
                fragment_of(fragment_of(a) + d0).push(SEPARATOR),
            ) == (complete_lines(a) + complete_lines(fragment_of(a) + d0)).push(
                fragment_of(fragment_of(a) + d0).push(SEPARATOR),
            ));
        }
    }
}

/// A complete line followed by `rest` gives that line, then the lines of `rest`.
pub proof fn lemma_line_then_rest(line: Seq<u8>, rest: Seq<u8>)
    requires
        is_complete_line(line),
    ensures
        complete_lines(line + rest) == seq![line] + complete_lines(rest),
        fragment_of(line + rest) == fragment_of(rest),
{
    lemma_append(line, rest);
    lemma_no_separator(line.drop_last());
    assert(line.drop_last().push(SEPARATOR) == line);
    assert(fragment_of(line) == Seq::<u8>::empty());
    assert(Seq::<u8>::empty() + rest == rest);
    assert(complete_lines(line) == seq![line]);
}

/// The texts of two runs of lines laid end to end are the texts of each run.
pub proof fn lemma_texts_concat(a: Seq<Seq<u8>>, b: Seq<Seq<u8>>)
    ensures
        texts_of(a + b) == texts_of(a) + texts_of(b),
    decreases b.len(),
{
    if b.len() == 0 {
        assert(a + b == a);
        assert(texts_of(a) + Seq::<Seq<char>>::empty() == texts_of(a));
    } else {
        lemma_texts_concat(a, b.drop_last());
        assert((a + b).drop_last() == a + b.drop_last());
        assert((a + b).last() == b.last());
        if valid_utf8(b.last()) {
            assert(texts_of(a) + texts_of(b.drop_last()).push(decode_utf8(b.last())) == (
            texts_of(a) + texts_of(b.drop_last())).push(decode_utf8(b.last())));
        }
    }
}

pub proof fn lemma_all_valid_push(lines: Seq<Seq<u8>>, line: Seq<u8>)
    ensures
        all_valid(lines.push(line)) <==> all_valid(lines) && valid_utf8(line),
{
    if all_valid(lines) && valid_utf8(line) {
        assert forall|i: int| 0 <= i < lines.push(line).len() implies valid_utf8(
            #[trigger] lines.push(line)[i],
        ) by {
            if i < lines.len() {
                assert(lines.push(line)[i] == lines[i]);
            }
        }
    }
    if all_valid(lines.push(line)) {
        assert(lines.push(line)[lines.len() as int] == line);
        assert forall|i: int| 0 <= i < lines.len() implies valid_utf8(#[trigger] lines[i]) by {
            assert(lines.push(line)[i] == lines[i]);
        }
    }
}

/// Splitting loses, reorders and adds no byte: the complete lines laid end to
/// end, then the trailing fragment, give back the stream. There is one
/// complete line per separator, each ending with it and holding no other.
pub proof fn lemma_split_shape(s: Seq<u8>)
    ensures
        joined(complete_lines(s)) + fragment_of(s) == s,
        complete_lines(s).len() == separator_count(s),
        forall|i: int|
            0 <= i < complete_lines(s).len() ==> is_complete_line(#[trigger] complete_lines(s)[i]),
    decreases s.len(),
{
    if s.len() == 0 {
        assert(joined(Seq::<Seq<u8>>::empty()) + Seq::<u8>::empty() == s);
    } else {
        let s0 = s.drop_last();
        lemma_split_shape(s0);
        assert(s0.push(s.last()) == s);
        if s.last() == SEPARATOR {
            let line = fragment_of(s0).push(SEPARATOR);
            lemma_fragment_has_no_separator(s0);
            assert(line.drop_last() == fragment_of(s0));
            assert(complete_lines(s).drop_last() == complete_lines(s0));
            assert(joined(complete_lines(s0)) + line == (joined(complete_lines(s0)) + fragment_of(
                s0,
            )).push(SEPARATOR));
            assert(joined(complete_lines(s)) + Seq::<u8>::empty() == joined(complete_lines(s)));
            assert forall|i: int|
                0 <= i < complete_lines(s).len() implies is_complete_line(
                #[trigger] complete_lines(s)[i],
            ) by {
                if i < complete_lines(s0).len() {
                    assert(complete_lines(s)[i] == complete_lines(s0)[i]);
                }
            }
        } else {
            assert(joined(complete_lines(s0)) + fragment_of(s0).push(s.last()) == (joined(
                complete_lines(s0),
            ) + fragment_of(s0)).push(s.last()));
        }
    }
}

/// At the end of a stream its lines laid end to end give back the stream,
/// and there is one line per separator, plus one where a fragment trails.
pub proof fn lemma_final_shape(s: Seq<u8>)
    ensures
        joined(final_lines(s)) == s,
        final_lines(s).len() == separator_count(s) + if fragment_of(s).len() > 0 {
            1int
        } else {
            0int
        },
        forall|i: int|
            0 <= i < complete_lines(s).len() ==> #[trigger] final_lines(s)[i] == complete_lines(
                s,
            )[i],
        fragment_of(s).len() > 0 ==> final_lines(s).last() == fragment_of(s),
        no_separator(fragment_of(s)),
{
    lemma_split_shape(s);
    lemma_fragment_has_no_separator(s);
    if fragment_of(s).len() > 0 {
        assert(final_lines(s).drop_last() == complete_lines(s));
    } else {
        assert(fragment_of(s) == Seq::<u8>::empty());
        assert(joined(complete_lines(s)) + Seq::<u8>::empty() == joined(complete_lines(s)));
    }
}

/// Where every line is valid UTF-8, each is kept and decoded in order, and
/// its text encodes back to exactly its bytes.
pub proof fn lemma_valid_texts(lines: Seq<Seq<u8>>)
    requires
        all_valid(lines),
    ensures
        texts_of(lines).len() == lines.len(),
        forall|i: int| 0 <= i < lines.len() ==> #[trigger] texts_of(lines)[i] == decode_utf8(lines[i]),
        forall|i: int| 0 <= i < lines.len() ==> encode_utf8(#[trigger] texts_of(lines)[i]) == lines[i],
    decreases lines.len(),
{
    if lines.len() > 0 {
        let l0 = lines.drop_last();
        assert(all_valid(l0)) by {
            assert forall|i: int| 0 <= i < l0.len() implies valid_utf8(#[trigger] l0[i]) by {
                assert(l0[i] == lines[i]);
            }
        }
        assert(valid_utf8(lines[lines.len() - 1]));
        lemma_valid_texts(l0);
        assert forall|i: int| 0 <= i < lines.len() implies encode_utf8(
            #[trigger] texts_of(lines)[i],
        ) == lines[i] by {
            if i < l0.len() {
                assert(lines[i] == l0[i]);
            }
            decode_utf8_encode_utf8(lines[i]);
        }
    }
}

/// The number of lines at the front of `lines` that are valid UTF-8.
pub open spec fn leading_valid(lines: Seq<Seq<u8>>) -> nat
    decreases lines.len(),
{
    if lines.len() == 0 {
        0
    } else {
        let k = leading_valid(lines.drop_last());
        if k < lines.len() - 1 {
            k
        } else if valid_utf8(lines.last()) {
            lines.len()
        } else {
            (lines.len() - 1) as nat
        }
    }
}

/// The lines that one split of the bytes `b` takes off: its complete lines up
/// to and including the first that is not valid UTF-8, or all of them.
pub open spec fn lines_split(b: Seq<u8>) -> Seq<Seq<u8>> {
    let ls = complete_lines(b);
    let k = leading_valid(ls);
    if k < ls.len() {
        ls.subrange(0, k as int + 1)
    } else {
        ls
    }
}

/// The bytes that one split of `b` leaves in place: those after the lines
/// that it takes off.
pub open spec fn split_rest(b: Seq<u8>) -> Seq<u8> {
    b.subrange(joined(lines_split(b)).len() as int, b.len() as int)
}

/// The trailing fragment `f` as a line of its own, where it is not empty.
pub open spec fn fragment_line(f: Seq<u8>) -> Seq<Seq<u8>> {
    if f.len() > 0 {
        seq![f]
    } else {
        Seq::empty()
    }
}

pub proof fn lemma_leading_all_valid(lines: Seq<Seq<u8>>)
    requires
        all_valid(lines),
    ensures
        leading_valid(lines) == lines.len(),
    decreases lines.len(),
{
    if lines.len() > 0 {
        let l0 = lines.drop_last();
        assert forall|i: int| 0 <= i < l0.len() implies valid_utf8(#[trigger] l0[i]) by {
            assert(l0[i] == lines[i]);
        }
        lemma_leading_all_valid(l0);
        assert(valid_utf8(lines[lines.len() - 1]));
    }
}

pub proof fn lemma_leading_stops(a: Seq<Seq<u8>>, x: Seq<u8>, b: Seq<Seq<u8>>)
    requires
        all_valid(a),
        !valid_utf8(x),
    ensures
        leading_valid(a.push(x) + b) == a.len(),
    decreases b.len(),
{
    if b.len() == 0 {
        assert(a.push(x) + b == a.push(x));
        assert(a.push(x).drop_last() == a);
        lemma_leading_all_valid(a);
    } else {
        lemma_leading_stops(a, x, b.drop_last());
        assert((a.push(x) + b).drop_last() == a.push(x) + b.drop_last());
    }
}

/// Complete lines laid end to end split back into those lines, with nothing
/// trailing.
pub proof fn lemma_joined_lines(lines: Seq<Seq<u8>>)
    requires
        forall|i: int| 0 <= i < lines.len() ==> is_complete_line(#[trigger] lines[i]),
    ensures
        complete_lines(joined(lines)) == lines,
        fragment_of(joined(lines)).len() == 0,
    decreases lines.len(),
{
    if lines.len() == 0 {
        assert(complete_lines(Seq::<u8>::empty()) == Seq::<Seq<u8>>::empty());
    } else {
        let l0 = lines.drop_last();
        let l = lines.last();
        assert forall|i: int| 0 <= i < l0.len() implies is_complete_line(#[trigger] l0[i]) by {
            assert(l0[i] == lines[i]);
        }
        lemma_joined_lines(l0);
        assert(is_complete_line(lines[lines.len() - 1]));
        lemma_append(joined(l0), l);
        assert(fragment_of(joined(l0)) == Seq::<u8>::empty());
        assert(Seq::<u8>::empty() + l == l);
        lemma_line_then_rest(l, Seq::empty());
        assert(l + Seq::<u8>::empty() == l);
        assert(complete_lines(Seq::<u8>::empty()) == Seq::<Seq<u8>>::empty());
        assert(fragment_of(Seq::<u8>::empty()) == Seq::<u8>::empty());
        assert(seq![l] + Seq::<Seq<u8>>::empty() == seq![l]);
        assert(l0 + seq![l] == lines);
    }
}

/// In valid UTF-8 an ASCII byte starts a character.
proof fn lemma_ascii_boundary(s: Seq<u8>, i: int)
    requires
        valid_utf8(s),
        0 <= i < s.len(),
        s[i] < 0x80,
    ensures
        is_char_boundary(s, i),
    decreases s.len(),
{
    if i > 0 {
        let l = length_of_first_scalar(s);
        assert(valid_first_scalar(s));
        assert(i >= l);
        let pop = pop_first_scalar(s);
        assert(pop[i - l] == s[i]);
        if i > l {
            lemma_ascii_boundary(pop, i - l);
        }
    }
}

/// The index of the last separator in `s`, or -1 where there is none.
pub open spec fn last_separator(s: Seq<u8>) -> int
    decreases s.len(),
{
    if s.len() == 0 {
        -1
    } else if s.last() == SEPARATOR {
        s.len() - 1
    } else {
        last_separator(s.drop_last())
    }
}

proof fn lemma_last_separator(s: Seq<u8>)
    ensures
        -1 <= last_separator(s) < s.len(),
        last_separator(s) >= 0 ==> s[last_separator(s)] == SEPARATOR,
        no_separator(s.subrange(last_separator(s) + 1, s.len() as int)),
    decreases s.len(),
{
    if s.len() > 0 && s.last() != SEPARATOR {
        lemma_last_separator(s.drop_last());
        let p = last_separator(s);
        let suf = s.subrange(p + 1, s.len() as int);
        let suf0 = s.drop_last().subrange(p + 1, s.len() - 1);
        assert forall|j: int| 0 <= j < suf.len() implies #[trigger] suf[j] != SEPARATOR by {
            if p + 1 + j < s.len() - 1 {
                assert(suf[j] == suf0[j]);
            }
        }
    }
}

/// Valid UTF-8 splits into lines that are each valid UTF-8.
pub proof fn lemma_valid_stream_lines(s: Seq<u8>)
    requires
        valid_utf8(s),
    ensures
        all_valid(complete_lines(s)),
        valid_utf8(fragment_of(s)),
        all_valid(final_lines(s)),
    decreases s.len(),
{
    lemma_last_separator(s);
    let p = last_separator(s);
    if p < 0 {
        assert(s.subrange(0, s.len() as int) == s);
        lemma_no_separator(s);
    } else {
        let a0 = s.subrange(0, p);
        let a = s.subrange(0, p + 1);
        let rest = s.subrange(p + 1, s.len() as int);
        lemma_ascii_boundary(s, p);
        valid_utf8_split(s, p);
        let tail = s.subrange(p, s.len() as int);
        assert(valid_utf8(tail));
        assert(length_of_first_scalar(tail) == 1);
        assert(pop_first_scalar(tail) == rest);
        assert(valid_utf8(rest));
        lemma_valid_stream_lines(a0);
        assert(a + rest == s);
        lemma_append(a, rest);
        assert(a.drop_last() == a0);
        assert(a.last() == SEPARATOR);
        assert(fragment_of(a) == Seq::<u8>::empty());
        assert(Seq::<u8>::empty() + rest == rest);
        lemma_no_separator(rest);
        assert(complete_lines(a) + Seq::<Seq<u8>>::empty() == complete_lines(a));
        let line = fragment_of(a0).push(SEPARATOR);
        let sep_line = seq![SEPARATOR];
        assert(valid_first_scalar(sep_line));
        assert(pop_first_scalar(sep_line) == Seq::<u8>::empty());
        assert(valid_utf8(Seq::<u8>::empty()));
        assert(valid_utf8(sep_line));
        valid_utf8_concat(fragment_of(a0), seq![SEPARATOR]);
        assert(fragment_of(a0) + seq![SEPARATOR] == line);
        lemma_all_valid_push(complete_lines(a0), line);
    }
    if fragment_of(s).len() > 0 {
        lemma_all_valid_push(complete_lines(s), fragment_of(s));
    }
}

pub proof fn lemma_joined_concat(a: Seq<Seq<u8>>, b: Seq<Seq<u8>>)
    ensures
        joined(a + b) == joined(a) + joined(b),
    decreases b.len(),
{
    if b.len() == 0 {
        assert(a + b == a);
        assert(joined(a) + Seq::<u8>::empty() == joined(a));
    } else {
        lemma_joined_concat(a, b.drop_last());
        assert((a + b).drop_last() == a + b.drop_last());
        assert((a + b).last() == b.last());
        assert(joined(a) + joined(b.drop_last()) + b.last() == joined(a) + (joined(b.drop_last())
            + b.last()));
    }
}

pub proof fn lemma_all_valid_concat(a: Seq<Seq<u8>>, b: Seq<Seq<u8>>)
    ensures
        all_valid(a + b) <==> all_valid(a) && all_valid(b),
{
    if all_valid(a + b) {
        assert forall|i: int| 0 <= i < a.len() implies valid_utf8(#[trigger] a[i]) by {
            assert((a + b)[i] == a[i]);
        }
        assert forall|i: int| 0 <= i < b.len() implies valid_utf8(#[trigger] b[i]) by {
            assert((a + b)[a.len() + i] == b[i]);
        }
    }
    if all_valid(a) && all_valid(b) {
        assert forall|i: int| 0 <= i < (a + b).len() implies valid_utf8(#[trigger] (a + b)[i]) by {
            if i < a.len() {
                assert((a + b)[i] == a[i]);
            } else {
                assert((a + b)[i] == b[i - a.len()]);
            }
        }
    }
}

/// After complete lines come bytes `f`: the lines are those lines, then the
/// lines of `f`, and what trails is what trails `f`.
pub proof fn lemma_lines_after_taken(t: Seq<Seq<u8>>, f: Seq<u8>)
    requires
        forall|i: int| 0 <= i < t.len() ==> is_complete_line(#[trigger] t[i]),
    ensures
        complete_lines(joined(t) + f) == t + complete_lines(f),
        fragment_of(joined(t) + f) == fragment_of(f),
{
    lemma_joined_lines(t);
    lemma_append(joined(t), f);
    assert(fragment_of(joined(t)) == Seq::<u8>::empty());
    assert(Seq::<u8>::empty() + f == f);
}

} // verus!
