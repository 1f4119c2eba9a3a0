//! Byte-level line primitives: whitespace trimming, blank detection,
//! splitting a text into lines, joining lines, and trailing-blank trimming.
//!
//! A text is a sequence of bytes; a line is a byte sequence without the
//! terminating newline. Whitespace means ASCII whitespace.

use vstd::prelude::*;

verus! {

/// ASCII whitespace: space, tab, line feed, vertical tab, form feed,
/// carriage return.
pub open spec fn is_space(c: u8) -> bool {
    c == 32 || c == 9 || c == 10 || c == 11 || c == 12 || c == 13
}

/// The line with its leading whitespace removed.
pub open spec fn trim_start_spec(s: Seq<u8>) -> Seq<u8>
    decreases s.len(),
{
    if s.len() == 0 {
        s
    } else if is_space(s[0]) {
        trim_start_spec(s.skip(1))
    } else {
        s
    }
}

/// The line with its trailing whitespace removed.
pub open spec fn trim_end_spec(s: Seq<u8>) -> Seq<u8>
    decreases s.len(),
{
    if s.len() == 0 {
        s
    } else if is_space(s.last()) {
        trim_end_spec(s.drop_last())
    } else {
        s
    }
}

/// The line with whitespace removed at both ends.
pub open spec fn trim_spec(s: Seq<u8>) -> Seq<u8> {
    trim_end_spec(trim_start_spec(s))
}

/// A line is blank when it consists of whitespace only.
pub open spec fn is_blank_spec(s: Seq<u8>) -> bool {
    trim_start_spec(s).len() == 0
}

/// The byte sequences held by a sequence of byte vectors.
pub open spec fn lines_of(vs: Seq<Vec<u8>>) -> Seq<Seq<u8>> {
    vs.map_values(|v: Vec<u8>| v@)
}

/// Trimming the start keeps a suffix: the one past the leading whitespace.
pub proof fn lemma_trim_start_skip(s: Seq<u8>, k: int)
    requires
        0 <= k <= s.len(),
        forall|i: int| 0 <= i < k ==> is_space(s[i]),
        k == s.len() || !is_space(s[k]),
    ensures
        trim_start_spec(s) == s.skip(k),
    decreases k,
{
    if k == 0 {
        assert(s.skip(0) =~= s);
    } else {
        assert(is_space(s[0]));
        lemma_trim_start_skip(s.skip(1), k - 1);
        assert(s.skip(1).skip(k - 1) =~= s.skip(k));
    }
}

/// Trimming the end keeps a prefix: the one before the trailing whitespace.
pub proof fn lemma_trim_end_take(s: Seq<u8>, k: int)
    requires
        0 <= k <= s.len(),
        forall|i: int| k <= i < s.len() ==> is_space(s[i]),
        k == 0 || !is_space(s[k - 1]),
    ensures
        trim_end_spec(s) == s.take(k),
    decreases s.len(),
{
    if k == s.len() {
        assert(s.take(k) =~= s);
    } else {
        assert(is_space(s.last()));
        lemma_trim_end_take(s.drop_last(), k);
        assert(s.drop_last().take(k) =~= s.take(k));
    }
}

/// The trimmed line is never longer than the line.
pub proof fn lemma_trim_start_len(s: Seq<u8>)
    ensures
        trim_start_spec(s).len() <= s.len(),
    decreases s.len(),
{
    if s.len() > 0 && is_space(s[0]) {
        lemma_trim_start_len(s.skip(1));
    }
}

/// Whether a byte is ASCII whitespace.
pub fn is_space_byte(c: u8) -> (r: bool)
    ensures
        r == is_space(c),
{
    c == 32 || c == 9 || c == 10 || c == 11 || c == 12 || c == 13
}

/// The index of the first byte that is not whitespace (the line's length if
/// every byte is whitespace).
pub fn trim_start_index(s: &[u8]) -> (i: usize)
    ensures
        i <= s@.len(),
        trim_start_spec(s@) == s@.skip(i as int),
        forall|j: int| 0 <= j < i ==> is_space(s@[j]),
        i < s@.len() ==> !is_space(s@[i as int]),
{
    let mut i: usize = 0;
    while i < s.len() && is_space_byte(s[i])
        invariant
            i <= s@.len(),
            forall|j: int| 0 <= j < i ==> is_space(s@[j]),
        decreases s@.len() - i,
    {
        i = i + 1;
    }
    proof {
        lemma_trim_start_skip(s@, i as int);
    }
    i
}

/// The bounds of the trimmed middle of a line: `trim_spec(s@)` is exactly
/// `s@.subrange(lo, hi)`.
pub fn trimmed_range(s: &Vec<u8>) -> (r: (usize, usize))
    ensures
        r.0 <= r.1 <= s@.len(),
        trim_spec(s@) == s@.subrange(r.0 as int, r.1 as int),
{
    let lo = trim_start_index(s.as_slice());
    let mut hi: usize = s.len();
    while hi > lo && is_space_byte(s[hi - 1])
        invariant
            lo <= hi <= s@.len(),
            forall|j: int| hi <= j < s@.len() ==> is_space(s@[j]),
            forall|j: int| 0 <= j < lo ==> is_space(s@[j]),
        decreases hi,
    {
        hi = hi - 1;
    }
    proof {
        let t = s@.skip(lo as int);
        assert(trim_start_spec(s@) == t);
        lemma_trim_end_take(t, hi - lo);
        assert(t.take(hi - lo) =~= s@.subrange(lo as int, hi as int));
    }
    (lo, hi)
}

/// Whether a line is blank (whitespace only).
pub fn is_blank_line(s: &Vec<u8>) -> (r: bool)
    ensures
        r == is_blank_spec(s@),
{
    let i = trim_start_index(s.as_slice());
    i == s.len()
}

/// A copy of a byte vector.
pub fn copy_bytes(s: &Vec<u8>) -> (r: Vec<u8>)
    ensures
        r@ == s@,
{
    let mut r: Vec<u8> = Vec::new();
    let mut i: usize = 0;
    while i < s.len()
        invariant
            i <= s@.len(),
            r@ == s@.take(i as int),
        decreases s@.len() - i,
    {
        r.push(s[i]);
        proof {
            assert(s@.take(i + 1) =~= s@.take(i as int).push(s@[i as int]));
        }
        i = i + 1;
    }
    proof {
        assert(s@.take(s@.len() as int) =~= s@);
    }
    r
}

/// Appends `src[lo..hi]` to `dst`.
pub fn push_range(dst: &mut Vec<u8>, src: &Vec<u8>, lo: usize, hi: usize)
    requires
        lo <= hi <= src@.len(),
    ensures
        final(dst)@ == old(dst)@ + src@.subrange(lo as int, hi as int),
{
    let mut i: usize = lo;
    while i < hi
        invariant
            lo <= i <= hi <= src@.len(),
            dst@ == old(dst)@ + src@.subrange(lo as int, i as int),
        decreases hi - i,
    {
        dst.push(src[i]);
        proof {
            assert(old(dst)@ + src@.subrange(lo as int, i + 1) =~= (old(dst)@
                + src@.subrange(lo as int, i as int)).push(src@[i as int]));
        }
        i = i + 1;
    }
    proof {
        assert(dst@ =~= old(dst)@ + src@.subrange(lo as int, hi as int));
    }
}

/// The index of the first newline byte, or the text's length if it has none.
pub open spec fn line_break(s: Seq<u8>) -> nat
    decreases s.len(),
{
    if s.len() == 0 {
        0
    } else if s[0] == 10 {
        0
    } else {
        1 + line_break(s.skip(1))
    }
}

/// The line without one trailing carriage return, if it has one.
pub open spec fn strip_cr(s: Seq<u8>) -> Seq<u8> {
    if s.len() > 0 && s.last() == 13 {
        s.drop_last()
    } else {
        s
    }
}

/// The lines of a text: split on newline bytes, one trailing carriage return
/// removed from each line, and no empty final line for a text that ends in a
/// newline.
pub open spec fn split_lines_spec(s: Seq<u8>) -> Seq<Seq<u8>>
    decreases s.len(),
{
    if s.len() == 0 {
        Seq::empty()
    } else {
        let i = line_break(s) as int;
        if i >= s.len() {
            seq![strip_cr(s)]
        } else {
            seq![strip_cr(s.take(i))] + split_lines_spec(s.skip(i + 1))
        }
    }
}

/// `line_break` is the position of the first newline.
pub proof fn lemma_line_break_at(s: Seq<u8>, k: int)
    requires
        0 <= k <= s.len(),
        forall|i: int| 0 <= i < k ==> s[i] != 10,
        k == s.len() || s[k] == 10,
    ensures
        line_break(s) == k,
    decreases k,
{
    if k == 0 {
    } else {
        lemma_line_break_at(s.skip(1), k - 1);
    }
}

/// The lines of the text, in order.
pub fn split_lines(input: &[u8]) -> (r: Vec<Vec<u8>>)
    ensures
        lines_of(r@) == split_lines_spec(input@),
{
    let s = input;
    let mut r: Vec<Vec<u8>> = Vec::new();
    let mut cur: Vec<u8> = Vec::new();
    let mut pos: usize = 0;
    let mut j: usize = 0;
    proof {
        assert(s@.skip(0) =~= s@);
        assert(lines_of(r@) =~= Seq::<Seq<u8>>::empty());
        assert(cur@ =~= s@.subrange(0, 0));
    }
    while j < s.len()
        invariant
            pos <= j <= s@.len(),
            cur@ == s@.subrange(pos as int, j as int),
            forall|t: int| pos <= t < j ==> s@[t] != 10,
            split_lines_spec(s@) == lines_of(r@) + split_lines_spec(s@.skip(pos as int)),
        decreases s@.len() - j,
    {
        let c = s[j];
        if c == 10 {
            let ghost p = pos as int;
            let ghost rest = s@.skip(p);
            let ghost r_old = r@;
            let ghost cur_old = cur@;
            proof {
                assert(rest.len() > 0);
                assert(forall|i: int| 0 <= i < j - p ==> rest[i] != 10);
                assert(rest[j - p] == 10);
                lemma_line_break_at(rest, j - p);
                assert(rest.take(j - p) =~= cur_old);
                assert(rest.skip(j - p + 1) =~= s@.skip(j + 1));
                assert(split_lines_spec(rest) == seq![strip_cr(cur_old)] + split_lines_spec(
                    s@.skip(j + 1),
                ));
            }
            let line = finish_line(cur);
            r.push(line);
            cur = Vec::new();
            pos = j + 1;
            proof {
                assert(lines_of(r@) =~= lines_of(r_old).push(strip_cr(cur_old)));
                assert(lines_of(r_old).push(strip_cr(cur_old)) + split_lines_spec(
                    s@.skip(pos as int),
                ) =~= lines_of(r_old) + (seq![strip_cr(cur_old)] + split_lines_spec(
                    s@.skip(pos as int),
                )));
                assert(cur@ =~= s@.subrange(pos as int, j + 1));
            }
        } else {
            cur.push(c);
            proof {
                assert(s@.subrange(pos as int, j + 1) =~= s@.subrange(pos as int, j as int).push(
                    s@[j as int],
                ));
            }
        }
        j = j + 1;
    }
    if cur.len() > 0 {
        let ghost rest = s@.skip(pos as int);
        let ghost r_old = r@;
        proof {
            assert(rest =~= cur@);
            lemma_line_break_at(rest, rest.len() as int);
            assert(split_lines_spec(rest) == seq![strip_cr(rest)]);
        }
        let line = finish_line(cur);
        r.push(line);
        proof {
            assert(lines_of(r@) =~= lines_of(r_old).push(strip_cr(rest)));
            assert(lines_of(r_old) + seq![strip_cr(rest)] =~= lines_of(r@));
        }
    } else {
        proof {
            assert(s@.skip(pos as int) =~= Seq::<u8>::empty());
            assert(lines_of(r@) + split_lines_spec(s@.skip(pos as int)) =~= lines_of(r@));
        }
    }
    r
}

/// Removes one trailing carriage return from a finished line.
fn finish_line(line: Vec<u8>) -> (r: Vec<u8>)
    ensures
        r@ == strip_cr(line@),
{
    let ghost orig = line@;
    let mut l = line;
    if l.len() > 0 && l[l.len() - 1] == 13 {
        let _ = l.pop();
        proof {
            assert(l@ =~= strip_cr(orig));
        }
    }
    l
}

/// The text formed by the lines, joined with single newline bytes.
pub open spec fn join_lines_spec(lines: Seq<Seq<u8>>) -> Seq<u8>
    decreases lines.len(),
{
    if lines.len() == 0 {
        Seq::empty()
    } else if lines.len() == 1 {
        lines[0]
    } else {
        join_lines_spec(lines.drop_last()) + seq![10u8] + lines.last()
    }
}

/// The lines joined with single newline bytes.
pub fn join_lines(lines: &Vec<Vec<u8>>) -> (r: Vec<u8>)
    ensures
        r@ == join_lines_spec(lines_of(lines@)),
{
    let ghost lseq = lines_of(lines@);
    let mut r: Vec<u8> = Vec::new();
    let mut i: usize = 0;
    proof {
        assert(lseq.take(0) =~= Seq::<Seq<u8>>::empty());
    }
    while i < lines.len()
        invariant
            i <= lines@.len(),
            lseq == lines_of(lines@),
            r@ == join_lines_spec(lseq.take(i as int)),
        decreases lines@.len() - i,
    {
        if i > 0 {
            r.push(10);
        }
        let n = lines[i].len();
        push_range(&mut r, &lines[i], 0, n);
        proof {
            assert(lines@[i as int]@.subrange(0, n as int) =~= lseq[i as int]);
            assert(lseq.take(i + 1).drop_last() =~= lseq.take(i as int));
            assert(lseq.take(i + 1).last() == lseq[i as int]);
            if i == 0 {
                assert(r@ =~= lseq[0]);
            } else {
                assert(r@ =~= join_lines_spec(lseq.take(i as int)) + seq![10u8] + lseq[i as int]);
            }
        }
        i = i + 1;
    }
    proof {
        assert(lseq.take(lseq.len() as int) =~= lseq);
    }
    r
}

/// The lines with every trailing empty line removed.
pub open spec fn trim_trailing_spec(lines: Seq<Seq<u8>>) -> Seq<Seq<u8>>
    decreases lines.len(),
{
    if lines.len() > 0 && lines.last().len() == 0 {
        trim_trailing_spec(lines.drop_last())
    } else {
        lines
    }
}

/// Trimming trailing empty lines keeps a prefix, drops only empty lines, and
/// leaves no empty line at the end.
pub proof fn lemma_trim_trailing_props(lines: Seq<Seq<u8>>)
    ensures
        trim_trailing_spec(lines).len() <= lines.len(),
        trim_trailing_spec(lines) == lines.take(trim_trailing_spec(lines).len() as int),
        forall|i: int|
            trim_trailing_spec(lines).len() <= i < lines.len() ==> #[trigger] lines[i].len() == 0,
        trim_trailing_spec(lines).len() > 0 ==> trim_trailing_spec(lines).last().len() != 0,
    decreases lines.len(),
{
    if lines.len() > 0 && lines.last().len() == 0 {
        lemma_trim_trailing_props(lines.drop_last());
        assert(lines.drop_last().take(trim_trailing_spec(lines).len() as int) =~= lines.take(
            trim_trailing_spec(lines).len() as int,
        ));
        assert forall|i: int|
            trim_trailing_spec(lines).len() <= i < lines.len() implies #[trigger] lines[i].len()
            == 0 by {
            if i < lines.len() - 1 {
                assert(lines.drop_last()[i].len() == 0);
            }
        }
    } else {
        assert(lines.take(lines.len() as int) =~= lines);
    }
}

} // verus!
