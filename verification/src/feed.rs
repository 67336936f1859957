//! Lines of a feed that arrives in chunks: which lines of a byte string are
//! complete, which of them are parsed, and what is left over for the next
//! chunk.

use crate::scan::{
    column_end, first_delim, lemma_first_delim, lemma_split_step, split, NEWLINE,
};
use vstd::slice::slice_subrange;
use vstd::prelude::*;

verus! {

/// The lines of `s` that a line feed ends, in order and without their line
/// feeds.
pub open spec fn complete_lines(s: Seq<u8>) -> Seq<Seq<u8>> {
    split(s, NEWLINE).drop_last()
}

/// The bytes of `s` after its last line feed: a line that is not complete
/// yet.
pub open spec fn pending(s: Seq<u8>) -> Seq<u8> {
    split(s, NEWLINE).last()
}

/// The lines among `lines` that are parsed. The first line of a feed is its
/// header and is never parsed: unless the header was skipped before, it is
/// the first of `lines`.
pub open spec fn parsed_lines(lines: Seq<Seq<u8>>, header_skipped: bool) -> Seq<Seq<u8>> {
    if header_skipped || lines.len() == 0 {
        lines
    } else {
        lines.drop_first()
    }
}

/// The complete lines of `s` that are parsed.
pub open spec fn body_lines(s: Seq<u8>, header_skipped: bool) -> Seq<Seq<u8>> {
    parsed_lines(complete_lines(s), header_skipped)
}

/// One step of reading lines: up to the first line feed is one complete
/// line, and the rest of the lines are those of what follows it.
pub proof fn lemma_lines_step(s: Seq<u8>)
    ensures
        first_delim(s, NEWLINE) < s.len() ==> {
            let rest = s.subrange(first_delim(s, NEWLINE) + 1, s.len() as int);
            &&& complete_lines(s) == seq![s.subrange(0, first_delim(s, NEWLINE))] + complete_lines(
                rest,
            )
            &&& pending(s) == pending(rest)
        },
        first_delim(s, NEWLINE) >= s.len() ==> {
            &&& complete_lines(s) == Seq::<Seq<u8>>::empty()
            &&& pending(s) == s
        },
{
    lemma_first_delim(s, NEWLINE);
    lemma_split_step(s, NEWLINE);
    let i = first_delim(s, NEWLINE);
    if i < s.len() {
        let rest = s.subrange(i + 1, s.len() as int);
        lemma_split_step(rest, NEWLINE);
        let head = seq![s.subrange(0, i)];
        assert(split(s, NEWLINE) == head + split(rest, NEWLINE));
        assert((head + split(rest, NEWLINE)).drop_last() =~= head + split(rest, NEWLINE).drop_last());
    } else {
        assert(split(s, NEWLINE).drop_last() =~= Seq::<Seq<u8>>::empty());
    }
}

/// The pending bytes are a suffix of the byte string.
pub proof fn lemma_pending_is_suffix(s: Seq<u8>)
    ensures
        pending(s).len() <= s.len(),
        pending(s) == s.subrange(s.len() - pending(s).len(), s.len() as int),
    decreases s.len(),
{
    lemma_first_delim(s, NEWLINE);
    lemma_lines_step(s);
    let i = first_delim(s, NEWLINE);
    if i < s.len() {
        let rest = s.subrange(i + 1, s.len() as int);
        lemma_pending_is_suffix(rest);
        assert(rest.subrange(rest.len() - pending(rest).len(), rest.len() as int) =~= s.subrange(
            s.len() - pending(rest).len(),
            s.len() as int,
        ));
    } else {
        assert(s.subrange(0, s.len() as int) =~= s);
    }
}

/// Appending bytes to a byte string keeps its complete lines and adds those
/// that the pending bytes and the new bytes complete together.
pub proof fn lemma_lines_append(a: Seq<u8>, b: Seq<u8>)
    ensures
        complete_lines(a + b) == complete_lines(a) + complete_lines(pending(a) + b),
        pending(a + b) == pending(pending(a) + b),
    decreases a.len(),
{
    lemma_first_delim(a, NEWLINE);
    lemma_lines_step(a);
    let i = first_delim(a, NEWLINE);
    if i < a.len() {
        let rest = a.subrange(i + 1, a.len() as int);
        crate::scan::lemma_first_delim_is(a + b, NEWLINE, i);
        lemma_lines_step(a + b);
        assert((a + b).subrange(i + 1, (a + b).len() as int) =~= rest + b);
        assert((a + b).subrange(0, i) =~= a.subrange(0, i));
        lemma_lines_append(rest, b);
        assert(complete_lines(a + b) =~= complete_lines(a) + complete_lines(pending(a) + b));
    } else {
        assert(complete_lines(a) + complete_lines(pending(a) + b) =~= complete_lines(a + b));
    }
}

/// What scanning `buf` from offset `pos` gives: the state after folding
/// `step` over the parsed lines among the complete lines found there, the
/// offset after the last complete line, and whether the header has been
/// passed.
pub open spec fn scan_lines<S>(
    buf: Seq<u8>,
    state: S,
    pos: int,
    header_skipped: bool,
    step: spec_fn(S, Seq<u8>) -> S,
) -> (S, int, bool) {
    let rest = buf.subrange(pos, buf.len() as int);
    (
        body_lines(rest, header_skipped).fold_left(state, step),
        buf.len() - pending(rest).len(),
        header_skipped || complete_lines(rest).len() > 0,
    )
}

/// The chunks joined end to end.
pub open spec fn joined(chunks: Seq<Seq<u8>>) -> Seq<u8>
    decreases chunks.len(),
{
    if chunks.len() == 0 {
        Seq::empty()
    } else {
        joined(chunks.drop_last()) + chunks.last()
    }
}

/// Where folding a feed chunk by chunk arrives: the buffer, the folded
/// state, the offset after the last complete line and the header flag. Each
/// chunk is appended to the buffer, which is then scanned from the offset
/// that the chunk before left.
pub open spec fn fold_chunks<S>(chunks: Seq<Seq<u8>>, init: S, step: spec_fn(S, Seq<u8>) -> S) -> (
    Seq<u8>,
    S,
    int,
    bool,
)
    decreases chunks.len(),
{
    if chunks.len() == 0 {
        (Seq::empty(), init, 0, false)
    } else {
        let before = fold_chunks(chunks.drop_last(), init, step);
        let buf = before.0 + chunks.last();
        let after = scan_lines(buf, before.1, before.2, before.3, step);
        (buf, after.0, after.1, after.2)
    }
}

/// Where a feed arrives when all of it comes as one chunk.
pub open spec fn fold_whole<S>(content: Seq<u8>, init: S, step: spec_fn(S, Seq<u8>) -> S) -> (
    Seq<u8>,
    S,
    int,
    bool,
) {
    let after = scan_lines(content, init, 0, false, step);
    (content, after.0, after.1, after.2)
}

/// Scanning what a chunk adds, from where the scan of the bytes before it
/// stopped, arrives where scanning all the bytes at once does.
pub proof fn lemma_scan_resumes<S>(a: Seq<u8>, b: Seq<u8>, init: S, step: spec_fn(S, Seq<u8>) -> S)
    ensures
        ({
            let first = scan_lines(a, init, 0, false, step);
            scan_lines(a + b, first.0, first.1, first.2, step)
        }) == scan_lines(a + b, init, 0, false, step),
{
    let first = scan_lines(a, init, 0, false, step);
    let whole = a + b;
    lemma_pending_is_suffix(a);
    lemma_lines_append(a, b);
    assert(a.subrange(0, a.len() as int) =~= a);
    assert(whole.subrange(0, whole.len() as int) =~= whole);
    assert(whole.subrange(first.1, whole.len() as int) =~= pending(a) + b);
    let old_lines = complete_lines(a);
    let new_lines = complete_lines(pending(a) + b);
    let old_body = parsed_lines(old_lines, false);
    let new_body = parsed_lines(new_lines, first.2);
    let body = parsed_lines(old_lines + new_lines, false);
    assert(body =~= old_body + new_body);
    body.lemma_fold_left_split(init, step, old_body.len() as int);
    assert(body.subrange(0, old_body.len() as int) =~= old_body);
    assert(body.subrange(old_body.len() as int, body.len() as int) =~= new_body);
}

/// Chunk invariance: however a feed's bytes are cut into chunks, folding it
/// chunk by chunk arrives where folding all of it as one chunk does.
pub proof fn lemma_chunk_invariance<S>(
    chunks: Seq<Seq<u8>>,
    init: S,
    step: spec_fn(S, Seq<u8>) -> S,
)
    ensures
        fold_chunks(chunks, init, step) == fold_whole(joined(chunks), init, step),
        fold_chunks(chunks, init, step) == fold_chunks(seq![joined(chunks)], init, step),
    decreases chunks.len(),
{
    let content = joined(chunks);
    assert(fold_chunks(seq![content], init, step) == fold_whole(content, init, step)) by {
        let one = seq![content];
        assert(one.drop_last() =~= Seq::<Seq<u8>>::empty());
        assert(fold_chunks(one.drop_last(), init, step) == (Seq::<u8>::empty(), init, 0int, false));
        assert(Seq::<u8>::empty() + content =~= content);
    }
    if chunks.len() == 0 {
        let empty = Seq::<u8>::empty();
        lemma_lines_step(empty);
        lemma_first_delim(empty, NEWLINE);
        assert(empty.subrange(0, 0) =~= empty);
        assert(parsed_lines(Seq::<Seq<u8>>::empty(), false) =~= Seq::<Seq<u8>>::empty());
    } else {
        let head = chunks.drop_last();
        lemma_chunk_invariance(head, init, step);
        lemma_scan_resumes(joined(head), chunks.last(), init, step);
    }
}

/// Chunk invariance at one cut: a feed cut in two at any byte offset folds
/// to what the uncut feed folds to.
pub proof fn lemma_cut_invariance<S>(
    content: Seq<u8>,
    cut: int,
    init: S,
    step: spec_fn(S, Seq<u8>) -> S,
)
    requires
        0 <= cut <= content.len(),
    ensures
        fold_chunks(
            seq![content.subrange(0, cut), content.subrange(cut, content.len() as int)],
            init,
            step,
        ) == fold_whole(content, init, step),
{
    let chunks = seq![content.subrange(0, cut), content.subrange(cut, content.len() as int)];
    lemma_chunk_invariance(chunks, init, step);
    assert(chunks.drop_last() =~= seq![content.subrange(0, cut)]);
    assert(chunks.drop_last().drop_last() =~= Seq::<Seq<u8>>::empty());
    assert(joined(chunks.drop_last().drop_last()) =~= Seq::<u8>::empty());
    assert(chunks.drop_last().last() == content.subrange(0, cut));
    assert(joined(chunks.drop_last()) =~= content.subrange(0, cut));
    assert(joined(chunks) =~= content);
}

/// A state that a feed is folded into, one parsed line at a time.
pub trait LineFold: Sized {
    /// The state as a mathematical value.
    type Model;

    /// The state's model.
    spec fn model(&self) -> Self::Model;

    /// What one parsed line does to the model.
    spec fn step() -> spec_fn(Self::Model, Seq<u8>) -> Self::Model;

    /// Takes one parsed line.
    fn take_line(&mut self, line: &[u8])
        ensures
            final(self).model() == (Self::step())(old(self).model(), line@),
    ;
}

/// Folds the complete lines of `buf` from `last_processed` on into `state`,
/// passing over the header line unless it was passed before. Returns the
/// state, the offset after the last complete line, and whether the header
/// line has been passed.
pub fn scan_buffer<F: LineFold>(
    buf: &[u8],
    state: F,
    last_processed: usize,
    first_line_skipped: bool,
) -> (r: (F, usize, bool))
    requires
        last_processed <= buf@.len(),
    ensures
        (r.0.model(), r.1 as int, r.2) == scan_lines(
            buf@,
            state.model(),
            last_processed as int,
            first_line_skipped,
            F::step(),
        ),
{
    let n: usize = buf.len();
    let ghost rest0 = buf@.subrange(last_processed as int, n as int);
    let ghost st0 = state.model();
    let mut folded = state;
    let mut pos: usize = last_processed;
    let mut skipped: bool = first_line_skipped;
    let ghost mut done: Seq<Seq<u8>> = Seq::empty();
    proof {
        assert(done + complete_lines(rest0) =~= complete_lines(rest0));
    }
    loop
        invariant
            n == buf@.len(),
            last_processed <= pos <= n,
            rest0 == buf@.subrange(last_processed as int, n as int),
            complete_lines(rest0) == done + complete_lines(buf@.subrange(pos as int, n as int)),
            pending(rest0) == pending(buf@.subrange(pos as int, n as int)),
            skipped == (first_line_skipped || done.len() > 0),
            st0 == state.model(),
            folded.model() == parsed_lines(done, first_line_skipped).fold_left(st0, F::step()),
        decreases n - pos,
    {
        let ghost rest = buf@.subrange(pos as int, n as int);
        let end: usize = column_end(buf, NEWLINE, pos);
        proof {
            lemma_lines_step(rest);
        }
        if end == n {
            proof {
                assert(done + Seq::<Seq<u8>>::empty() =~= done);
            }
            return (folded, pos, skipped);
        }
        let line = slice_subrange(buf, pos, end);
        proof {
            assert(rest.subrange(0, end - pos) =~= line@);
            assert(rest.subrange(end - pos + 1, rest.len() as int) =~= buf@.subrange(
                end + 1,
                n as int,
            ));
            assert(done + (seq![line@] + complete_lines(buf@.subrange(end + 1, n as int)))
                =~= done.push(line@) + complete_lines(buf@.subrange(end + 1, n as int)));
        }
        if skipped {
            folded.take_line(line);
            proof {
                let body = parsed_lines(done, first_line_skipped);
                assert(parsed_lines(done.push(line@), first_line_skipped) =~= body.push(line@));
                assert(body.push(line@).drop_last() =~= body);
            }
        } else {
            proof {
                assert(parsed_lines(done.push(line@), first_line_skipped) =~= Seq::<
                    Seq<u8>,
                >::empty());
            }
        }
        skipped = true;
        pos = end + 1;
        proof {
            done = done.push(line@);
        }
    }
}

} // verus!
