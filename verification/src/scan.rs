//! Delimiter scanning over byte strings: where a delimiter first occurs, how a
//! byte string splits into columns, and the executable scanners that find
//! column boundaries without looking past the column asked for.

use vstd::prelude::*;
use vstd::slice::slice_subrange;

verus! {

/// Line feed, the line terminator of every feed.
pub const NEWLINE: u8 = 10u8;

/// Semicolon, the column delimiter of the static feeds.
pub const SEMICOLON: u8 = 59u8;

/// Comma, the column delimiter of the arrival feed and of identifier lists.
pub const COMMA: u8 = 44u8;

/// Index of the first `delim` in `s`, or `s.len()` when `s` holds none.
pub open spec fn first_delim(s: Seq<u8>, delim: u8) -> int
    decreases s.len(),
{
    if s.len() == 0 || s[0] == delim {
        0
    } else {
        1 + first_delim(s.drop_first(), delim)
    }
}

/// The pieces of `s` between occurrences of `delim`. There is always at least
/// one piece; the pieces joined by `delim` give `s` back.
pub open spec fn split(s: Seq<u8>, delim: u8) -> Seq<Seq<u8>>
    decreases s.len(),
{
    let i = first_delim(s, delim);
    if 0 <= i < s.len() {
        seq![s.subrange(0, i)] + split(s.subrange(i + 1, s.len() as int), delim)
    } else {
        seq![s]
    }
}

/// Column `k` (zero-based) of `s`, or `None` when `s` has fewer columns.
pub open spec fn column(s: Seq<u8>, delim: u8, k: int) -> Option<Seq<u8>> {
    let cols = split(s, delim);
    if 0 <= k < cols.len() {
        Some(cols[k])
    } else {
        None
    }
}

/// `needle` occurs in `hay` at offset `i`.
pub open spec fn occurs_at(hay: Seq<u8>, needle: Seq<u8>, i: int) -> bool {
    0 <= i && i + needle.len() <= hay.len() && hay.subrange(i, i + needle.len()) == needle
}

/// Offset of the first occurrence of `needle` in `hay`, or `hay.len()` when
/// there is none.
pub open spec fn first_occurrence(hay: Seq<u8>, needle: Seq<u8>) -> int
    decreases hay.len(),
{
    if hay.len() == 0 || occurs_at(hay, needle, 0) {
        0
    } else {
        1 + first_occurrence(hay.drop_first(), needle)
    }
}

/// `first_delim` lies within `s`, no delimiter stands before it, and one
/// stands at it unless it is the end of `s`.
pub proof fn lemma_first_delim(s: Seq<u8>, delim: u8)
    ensures
        0 <= first_delim(s, delim) <= s.len(),
        forall|j: int| 0 <= j < first_delim(s, delim) ==> s[j] != delim,
        first_delim(s, delim) < s.len() ==> s[first_delim(s, delim)] == delim,
    decreases s.len(),
{
    if s.len() == 0 || s[0] == delim {
    } else {
        let t = s.drop_first();
        lemma_first_delim(t, delim);
        assert forall|j: int| 0 <= j < first_delim(s, delim) implies s[j] != delim by {
            if j > 0 {
                assert(s[j] == t[j - 1]);
            }
        }
        if first_delim(s, delim) < s.len() {
            assert(s[first_delim(s, delim)] == t[first_delim(t, delim)]);
        }
    }
}

/// An offset with no delimiter before it, at which a delimiter or the end of
/// `s` stands, is `first_delim`.
pub proof fn lemma_first_delim_is(s: Seq<u8>, delim: u8, i: int)
    requires
        0 <= i <= s.len(),
        forall|j: int| 0 <= j < i ==> s[j] != delim,
        i < s.len() ==> s[i] == delim,
    ensures
        first_delim(s, delim) == i,
    decreases s.len(),
{
    if s.len() == 0 || s[0] == delim {
    } else {
        let t = s.drop_first();
        assert forall|j: int| 0 <= j < i - 1 implies t[j] != delim by {
            assert(t[j] == s[j + 1]);
        }
        if i < s.len() {
            assert(t[i - 1] == s[i]);
        }
        lemma_first_delim_is(t, delim, i - 1);
    }
}

/// One step of `split`: the first piece ends at the first delimiter, and the
/// remaining pieces are the pieces of what follows that delimiter.
pub proof fn lemma_split_step(s: Seq<u8>, delim: u8)
    ensures
        split(s, delim).len() >= 1,
        split(s, delim)[0] == s.subrange(0, first_delim(s, delim)),
        first_delim(s, delim) < s.len() ==> split(s, delim).skip(1) == split(
            s.subrange(first_delim(s, delim) + 1, s.len() as int),
            delim,
        ),
        first_delim(s, delim) >= s.len() ==> split(s, delim) == seq![s],
{
    lemma_first_delim(s, delim);
    let i = first_delim(s, delim);
    if i < s.len() {
        let rest = split(s.subrange(i + 1, s.len() as int), delim);
        assert(split(s, delim) == seq![s.subrange(0, i)] + rest);
        assert((seq![s.subrange(0, i)] + rest).skip(1) =~= rest);
    } else {
        assert(s.subrange(0, i) =~= s);
    }
}

/// `first_occurrence` lies within `hay`, `needle` occurs nowhere before it,
/// and occurs at it unless it is the end of `hay`.
pub proof fn lemma_first_occurrence(hay: Seq<u8>, needle: Seq<u8>)
    ensures
        0 <= first_occurrence(hay, needle) <= hay.len(),
        forall|j: int| 0 <= j < first_occurrence(hay, needle) ==> !occurs_at(hay, needle, j),
        first_occurrence(hay, needle) < hay.len() ==> occurs_at(
            hay,
            needle,
            first_occurrence(hay, needle),
        ),
    decreases hay.len(),
{
    if hay.len() == 0 || occurs_at(hay, needle, 0) {
    } else {
        let t = hay.drop_first();
        lemma_first_occurrence(t, needle);
        let f = first_occurrence(t, needle);
        assert forall|j: int| 0 <= j < f + 1 implies !occurs_at(hay, needle, j) by {
            if j > 0 && occurs_at(hay, needle, j) {
                assert(t.subrange(j - 1, j - 1 + needle.len()) =~= hay.subrange(
                    j,
                    j + needle.len(),
                ));
                assert(occurs_at(t, needle, j - 1));
            }
        }
        if f < t.len() {
            assert(hay.subrange(f + 1, f + 1 + needle.len()) =~= t.subrange(
                f,
                f + needle.len(),
            ));
        }
    }
}

/// An offset before which `needle` does not occur, and at which it occurs or
/// `hay` ends, is `first_occurrence`.
pub proof fn lemma_first_occurrence_is(hay: Seq<u8>, needle: Seq<u8>, i: int)
    requires
        0 <= i <= hay.len(),
        forall|j: int| 0 <= j < i ==> !occurs_at(hay, needle, j),
        i < hay.len() ==> occurs_at(hay, needle, i),
    ensures
        first_occurrence(hay, needle) == i,
    decreases hay.len(),
{
    if hay.len() == 0 || occurs_at(hay, needle, 0) {
    } else {
        let t = hay.drop_first();
        assert forall|j: int| 0 <= j < i - 1 implies !occurs_at(t, needle, j) by {
            if occurs_at(t, needle, j) {
                assert(hay.subrange(j + 1, j + 1 + needle.len()) =~= t.subrange(
                    j,
                    j + needle.len(),
                ));
                assert(occurs_at(hay, needle, j + 1));
            }
        }
        if i < hay.len() {
            assert(t.subrange(i - 1, i - 1 + needle.len()) =~= hay.subrange(
                i,
                i + needle.len(),
            ));
        }
        lemma_first_occurrence_is(t, needle, i - 1);
    }
}

/// `memchr::memchr`: the index of the first byte of `haystack` equal to
/// `needle`, or `None` when no byte of it is.
#[verifier::external_body]
fn find_byte(needle: u8, haystack: &[u8]) -> (r: Option<usize>)
    ensures
        match r {
            Some(i) => i < haystack@.len() && haystack@[i as int] == needle && forall|j: int|
                0 <= j < i ==> haystack@[j] != needle,
            None => forall|j: int| 0 <= j < haystack@.len() ==> haystack@[j] != needle,
        },
{
    memchr::memchr(needle, haystack)
}

/// `memchr::memmem::find`: the offset of the first occurrence of `needle` in
/// `haystack`, or `None` when it does not occur.
#[verifier::external_body]
fn find_bytes(haystack: &[u8], needle: &[u8]) -> (r: Option<usize>)
    ensures
        match r {
            Some(i) => occurs_at(haystack@, needle@, i as int) && forall|j: int|
                0 <= j < i ==> !occurs_at(haystack@, needle@, j),
            None => forall|j: int| 0 <= j <= haystack@.len() ==> !occurs_at(haystack@, needle@, j),
        },
{
    memchr::memmem::find(haystack, needle)
}

/// Where the column that starts at `start` ends: the index of the next
/// `delim` at or after `start`, or `line.len()`.
pub fn column_end(line: &[u8], delim: u8, start: usize) -> (end: usize)
    requires
        start <= line@.len(),
    ensures
        end == start + first_delim(line@.subrange(start as int, line@.len() as int), delim),
        start <= end <= line@.len(),
{
    let rest = slice_subrange(line, start, line.len());
    proof {
        lemma_first_delim(rest@, delim);
    }
    match find_byte(delim, rest) {
        Some(p) => {
            proof {
                lemma_first_delim_is(rest@, delim, p as int);
            }
            start + p
        },
        None => {
            proof {
                lemma_first_delim_is(rest@, delim, rest@.len() as int);
            }
            line.len()
        },
    }
}

/// Where `needle` next occurs at or after `start`, or `hay.len()`.
pub fn occurrence_from(hay: &[u8], needle: &[u8], start: usize) -> (at: usize)
    requires
        start <= hay@.len(),
        needle@.len() > 0,
    ensures
        at == start + first_occurrence(hay@.subrange(start as int, hay@.len() as int), needle@),
        start <= at <= hay@.len(),
{
    let rest = slice_subrange(hay, start, hay.len());
    proof {
        lemma_first_occurrence(rest@, needle@);
    }
    match find_bytes(rest, needle) {
        Some(p) => {
            proof {
                lemma_first_occurrence_is(rest@, needle@, p as int);
            }
            start + p
        },
        None => {
            proof {
                lemma_first_occurrence_is(rest@, needle@, rest@.len() as int);
            }
            hay.len()
        },
    }
}

/// Finds column `skip` of the suffix of `line` that starts at `start`, as a
/// span of `line`. Scanning stops at the end of that column.
pub fn seek_column(line: &[u8], delim: u8, start: usize, skip: usize) -> (r: Option<
    (usize, usize),
>)
    requires
        start <= line@.len(),
    ensures
        match r {
            Some((a, b)) => {
                &&& start <= a <= b <= line@.len()
                &&& column(line@.subrange(start as int, line@.len() as int), delim, skip as int)
                    == Some(line@.subrange(a as int, b as int))
                &&& split(line@.subrange(start as int, line@.len() as int), delim).skip(skip + 1)
                    == if b < line@.len() {
                    split(line@.subrange(b + 1, line@.len() as int), delim)
                } else {
                    Seq::<Seq<u8>>::empty()
                }
            },
            None => split(line@.subrange(start as int, line@.len() as int), delim).len() <= skip,
        },
{
    let ghost whole = line@.subrange(start as int, line@.len() as int);
    let mut pos: usize = start;
    let mut col: usize = 0;
    proof {
        assert(split(whole, delim).skip(0) =~= split(whole, delim));
    }
    loop
        invariant
            start <= pos <= line@.len(),
            col <= skip,
            whole == line@.subrange(start as int, line@.len() as int),
            col < split(whole, delim).len(),
            split(whole, delim).skip(col as int) == split(
                line@.subrange(pos as int, line@.len() as int),
                delim,
            ),
        decreases line@.len() - pos,
    {
        let ghost rest = line@.subrange(pos as int, line@.len() as int);
        let end = column_end(line, delim, pos);
        proof {
            lemma_split_step(rest, delim);
            assert(split(whole, delim)[col as int] == split(whole, delim).skip(col as int)[0]);
            assert(rest.subrange(0, end - pos) =~= line@.subrange(pos as int, end as int));
            assert(split(whole, delim).skip(col as int).skip(1) =~= split(whole, delim).skip(
                col + 1,
            ));
            if end < line@.len() {
                assert(rest.subrange(end - pos + 1, rest.len() as int) =~= line@.subrange(
                    end + 1,
                    line@.len() as int,
                ));
            } else {
                assert(split(whole, delim).skip(col as int).len() == 1);
                assert(split(whole, delim).skip(col + 1) =~= Seq::<Seq<u8>>::empty());
            }
        }
        if col == skip {
            return Some((pos, end));
        }
        if end == line.len() {
            return None;
        }
        pos = end + 1;
        col = col + 1;
    }
}

/// The columns that follow a column ending at offset `end`: those of what
/// stands after the delimiter at `end`, or none when the line ends there.
pub open spec fn columns_after(line: Seq<u8>, delim: u8, end: int) -> Seq<Seq<u8>> {
    if end < line.len() {
        split(line.subrange(end + 1, line.len() as int), delim)
    } else {
        Seq::empty()
    }
}

/// The first column of a line, and the columns after it.
pub proof fn lemma_first_column(line: Seq<u8>, delim: u8)
    ensures
        split(line, delim).len() >= 1,
        split(line, delim)[0] == line.subrange(0, first_delim(line, delim)),
        split(line, delim).skip(1) == columns_after(line, delim, first_delim(line, delim)),
{
    lemma_split_step(line, delim);
    if first_delim(line, delim) >= line.len() {
        assert(split(line, delim).skip(1) =~= Seq::<Seq<u8>>::empty());
    }
}

/// Finds column `skip` among the columns that follow a column ending at
/// offset `end`, as a span of `line`. Scanning stops at the end of that
/// column.
pub fn seek_after(line: &[u8], delim: u8, end: usize, skip: usize) -> (r: Option<(usize, usize)>)
    requires
        end <= line@.len(),
    ensures
        match r {
            Some((a, b)) => {
                &&& end < a <= b <= line@.len()
                &&& skip < columns_after(line@, delim, end as int).len()
                &&& columns_after(line@, delim, end as int)[skip as int] == line@.subrange(
                    a as int,
                    b as int,
                )
                &&& columns_after(line@, delim, end as int).skip(skip + 1) == columns_after(
                    line@,
                    delim,
                    b as int,
                )
            },
            None => columns_after(line@, delim, end as int).len() <= skip,
        },
{
    if end == line.len() {
        None
    } else {
        seek_column(line, delim, end + 1, skip)
    }
}

/// The byte strings that the slices of `v` hold.
pub open spec fn slices_view(v: Seq<&[u8]>) -> Seq<Seq<u8>> {
    Seq::new(v.len(), |i: int| v[i]@)
}

/// The pieces of `data` between occurrences of `delim`, as slices of it.
pub fn split_slices<'a>(data: &'a [u8], delim: u8) -> (r: Vec<&'a [u8]>)
    ensures
        slices_view(r@) == split(data@, delim),
{
    let n: usize = data.len();
    let mut pieces: Vec<&'a [u8]> = Vec::new();
    let mut pos: usize = 0;
    proof {
        assert(data@.subrange(0, n as int) =~= data@);
        assert(slices_view(pieces@) + split(data@, delim) =~= split(data@, delim));
    }
    loop
        invariant
            n == data@.len(),
            pos <= n,
            split(data@, delim) == slices_view(pieces@) + split(
                data@.subrange(pos as int, n as int),
                delim,
            ),
        decreases n - pos,
    {
        let ghost rest = data@.subrange(pos as int, n as int);
        let ghost before = slices_view(pieces@);
        let end: usize = column_end(data, delim, pos);
        let piece = slice_subrange(data, pos, end);
        pieces.push(piece);
        proof {
            lemma_split_step(rest, delim);
            assert(slices_view(pieces@) =~= before.push(piece@));
            assert(rest.subrange(0, end - pos) =~= piece@);
        }
        if end == n {
            proof {
                assert(rest =~= piece@);
                assert(before + seq![rest] =~= before.push(piece@));
            }
            return pieces;
        }
        proof {
            assert(rest.subrange(end - pos + 1, rest.len() as int) =~= data@.subrange(
                end + 1,
                n as int,
            ));
            let tail = split(data@.subrange(end + 1, n as int), delim);
            assert(split(rest, delim) =~= seq![piece@] + tail) by {
                assert(split(rest, delim).skip(1) == tail);
                assert(split(rest, delim)[0] == piece@);
            }
            assert(before + (seq![piece@] + tail) =~= before.push(piece@) + tail);
        }
        pos = end + 1;
    }
}

/// The bytes of column `target` of a semicolon-delimited line, or `None` when
/// the line has fewer columns.
pub fn col_at_memchr_bytes(line: &[u8], target: usize) -> (r: Option<&[u8]>)
    ensures
        match r {
            Some(c) => column(line@, SEMICOLON, target as int) == Some(c@),
            None => column(line@, SEMICOLON, target as int) is None,
        },
{
    proof {
        assert(line@.subrange(0, line@.len() as int) =~= line@);
    }
    match seek_column(line, SEMICOLON, 0, target) {
        Some((a, b)) => Some(slice_subrange(line, a, b)),
        None => None,
    }
}

} // verus!
