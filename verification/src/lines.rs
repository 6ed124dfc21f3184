//! The byte-level model of a line-structured file.
//!
//! A file is a sequence of bytes; a line is a maximal run of non-newline
//! bytes terminated by a newline.  The bytes after the last newline form a
//! line still in progress.  The spec functions here name those notions and
//! the lemmas pin down their properties: where the trailing partial line
//! starts, that a backward scan from the end finds exactly that offset, and
//! that a byte stream has only one decomposition into terminated lines plus
//! a newline-free remainder.

use vstd::prelude::*;

verus! {

/// The line terminator byte.
pub const NEWLINE: u8 = 10;

/// Holds when no byte of `s` is a newline.
pub open spec fn newline_free(s: Seq<u8>) -> bool {
    forall|i: int| 0 <= i < s.len() ==> s[i] != NEWLINE
}

/// Holds when `c` has the shape of one attempt of a line-oriented read:
/// a newline may stand only as the final byte.  The empty chunk (nothing
/// to read yet) is well-formed.
pub open spec fn wf_chunk(c: Seq<u8>) -> bool {
    forall|i: int| 0 <= i < c.len() - 1 ==> c[i] != NEWLINE
}

/// Holds when `c` finishes a line: nonempty and newline-terminated.
pub open spec fn completes_line(c: Seq<u8>) -> bool {
    c.len() > 0 && c.last() == NEWLINE
}

/// The offset just after the last newline of `s`, or `0` if `s` holds no
/// newline: the offset where the trailing, still unterminated line begins.
pub open spec fn line_start(s: Seq<u8>) -> int
    decreases s.len(),
{
    if s.len() == 0 {
        0
    } else if s.last() == NEWLINE {
        s.len() as int
    } else {
        line_start(s.drop_last())
    }
}

/// The trailing bytes of `s` after its last newline: a line in progress.
pub open spec fn tail_partial(s: Seq<u8>) -> Seq<u8> {
    s.skip(line_start(s))
}

/// Where a backward scan over `s` stops when it currently stands at offset
/// `next`: the scan inspects the byte just before its offset, stops at the
/// current offset when that byte is a newline, stops at `0` when it reaches
/// the start of the file, and otherwise steps back one byte.
pub open spec fn scan_result(s: Seq<u8>, next: int) -> int
    decreases next,
{
    if next <= 0 {
        0
    } else if s[next - 1] == NEWLINE {
        next
    } else {
        scan_result(s, next - 1)
    }
}

/// The bytes that a sequence of lines occupied in the file: each line
/// followed by its newline terminator.
pub open spec fn join_lines(ls: Seq<Seq<u8>>) -> Seq<u8>
    decreases ls.len(),
{
    if ls.len() == 0 {
        Seq::empty()
    } else {
        ls.first() + seq![NEWLINE] + join_lines(ls.drop_first())
    }
}

/// Holds when every line of `ls` is newline-free.
pub open spec fn all_newline_free(ls: Seq<Seq<u8>>) -> bool {
    forall|i: int| 0 <= i < ls.len() ==> newline_free(#[trigger] ls[i])
}

/// `line_start` is a valid offset into `s`; it directly follows a newline
/// unless it is `0`; and everything from it onward — the line still in
/// progress — is newline-free.
pub proof fn lemma_line_start(s: Seq<u8>)
    ensures
        0 <= line_start(s) <= s.len(),
        line_start(s) > 0 ==> s[line_start(s) - 1] == NEWLINE,
        newline_free(tail_partial(s)),
    decreases s.len(),
{
    if s.len() == 0 {
    } else if s.last() == NEWLINE {
        assert(s.skip(s.len() as int) =~= Seq::<u8>::empty());
    } else {
        let d = s.drop_last();
        lemma_line_start(d);
        let p = line_start(d);
        assert(line_start(s) == p);
        assert(s.skip(p) =~= d.skip(p).push(s.last()));
    }
}

/// Appending one more line extends the joined bytes by that line followed
/// by its terminator.
pub proof fn lemma_join_lines_push(ls: Seq<Seq<u8>>, l: Seq<u8>)
    ensures
        join_lines(ls.push(l)) == join_lines(ls) + l + seq![NEWLINE],
    decreases ls.len(),
{
    if ls.len() == 0 {
        assert(ls =~= Seq::<Seq<u8>>::empty());
        assert(ls.push(l).drop_first() =~= ls);
        assert(ls.push(l).first() == l);
        assert(join_lines(ls.push(l)) == l + seq![NEWLINE] + join_lines(ls));
        assert(join_lines(ls.push(l)) =~= join_lines(ls) + l + seq![NEWLINE]);
    } else {
        let a = ls.first();
        let rest = ls.drop_first();
        assert(ls.push(l).first() == a);
        assert(ls.push(l).drop_first() =~= rest.push(l));
        assert(join_lines(ls.push(l)) == a + seq![NEWLINE] + join_lines(rest.push(l)));
        lemma_join_lines_push(rest, l);
        assert(join_lines(ls) == a + seq![NEWLINE] + join_lines(rest));
        assert(a + seq![NEWLINE] + (join_lines(rest) + l + seq![NEWLINE]) =~= (a + seq![NEWLINE]
            + join_lines(rest)) + l + seq![NEWLINE]);
    }
}

/// Where a backward scan from offset `next` stops depends only on the
/// bytes before `next`: later appends to the file cannot disturb it.
pub proof fn lemma_scan_prefix_agree(s: Seq<u8>, t: Seq<u8>, next: int)
    requires
        0 <= next <= s.len(),
        next <= t.len(),
        forall|i: int| 0 <= i < next ==> s[i] == t[i],
    ensures
        scan_result(s, next) == scan_result(t, next),
    decreases next,
{
    if next > 0 && s[next - 1] != NEWLINE {
        lemma_scan_prefix_agree(s, t, next - 1);
    }
}

/// The backward scan from the end of the file stops exactly where the
/// trailing, still unterminated line begins: just after the last newline
/// of the file, or at offset `0` when the file holds no newline, in which
/// case all existing content counts as a line in progress.
pub proof fn lemma_scan_finds_line_start(s: Seq<u8>)
    ensures
        scan_result(s, s.len() as int) == line_start(s),
    decreases s.len(),
{
    if s.len() == 0 {
    } else if s.last() == NEWLINE {
    } else {
        let d = s.drop_last();
        lemma_scan_finds_line_start(d);
        lemma_scan_prefix_agree(s, d, s.len() - 1);
    }
}

/// A byte stream decomposes in only one way into newline-terminated lines
/// followed by a newline-free remainder.  So a tail that accounts for its
/// bytes this way cannot duplicate, drop, merge or reorder lines: the
/// lines it produces are determined by the bytes alone, however the reads
/// were chunked.
pub proof fn lemma_decomposition_unique(
    e1: Seq<Seq<u8>>,
    p1: Seq<u8>,
    e2: Seq<Seq<u8>>,
    p2: Seq<u8>,
)
    requires
        all_newline_free(e1),
        all_newline_free(e2),
        newline_free(p1),
        newline_free(p2),
        join_lines(e1) + p1 == join_lines(e2) + p2,
    ensures
        e1 == e2,
        p1 == p2,
    decreases e1.len(),
{
    let d = join_lines(e1) + p1;
    if e1.len() == 0 {
        assert(d =~= p1);
        if e2.len() > 0 {
            let b = e2.first().len() as int;
            let r2 = join_lines(e2.drop_first()) + p2;
            assert(d =~= (e2.first() + seq![NEWLINE]) + r2);
            assert(d[b] == NEWLINE);
            assert(newline_free(e2[0]));
            assert(false);
        }
        assert(e1 =~= e2);
        assert(p2 =~= d);
    } else if e2.len() == 0 {
        lemma_decomposition_unique(e2, p2, e1, p1);
    } else {
        let a = e1.first().len() as int;
        let b = e2.first().len() as int;
        let r1 = join_lines(e1.drop_first()) + p1;
        let r2 = join_lines(e2.drop_first()) + p2;
        assert(d =~= (e1.first() + seq![NEWLINE]) + r1);
        assert(d =~= (e2.first() + seq![NEWLINE]) + r2);
        assert(newline_free(e1[0]));
        assert(newline_free(e2[0]));
        assert(d[a] == NEWLINE);
        assert(d[b] == NEWLINE);
        assert forall|i: int| 0 <= i < a implies d[i] != NEWLINE by {
            assert(d[i] == e1.first()[i]);
        }
        assert forall|i: int| 0 <= i < b implies d[i] != NEWLINE by {
            assert(d[i] == e2.first()[i]);
        }
        assert(a == b);
        assert forall|i: int| 0 <= i < a implies e1.first()[i] == e2.first()[i] by {
            assert(d[i] == e1.first()[i]);
            assert(d[i] == e2.first()[i]);
        }
        assert(e1.first() =~= e2.first());
        assert(d.len() == a + 1 + r1.len());
        assert(d.len() == b + 1 + r2.len());
        assert forall|k: int| 0 <= k < r1.len() implies r1[k] == r2[k] by {
            assert(d[a + 1 + k] == r1[k]);
            assert(d[a + 1 + k] == r2[k]);
        }
        assert(r1 =~= r2);
        assert forall|i: int| 0 <= i < e1.drop_first().len() implies newline_free(
            #[trigger] e1.drop_first()[i],
        ) by {
            assert(e1.drop_first()[i] == e1[i + 1]);
            assert(newline_free(e1[i + 1]));
        }
        assert forall|i: int| 0 <= i < e2.drop_first().len() implies newline_free(
            #[trigger] e2.drop_first()[i],
        ) by {
            assert(e2.drop_first()[i] == e2[i + 1]);
            assert(newline_free(e2[i + 1]));
        }
        lemma_decomposition_unique(e1.drop_first(), p1, e2.drop_first(), p2);
        assert(e1.len() == e2.len());
        assert forall|i: int| 0 <= i < e1.len() implies e1[i] == e2[i] by {
            if i == 0 {
                assert(e1[0] == e1.first());
                assert(e2[0] == e2.first());
            } else {
                assert(e1.drop_first()[i - 1] == e1[i]);
                assert(e2.drop_first()[i - 1] == e2[i]);
            }
        }
        assert(e1 =~= e2);
    }
}

} // verus!
