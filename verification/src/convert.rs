//! The conversion pass: a single sweep over the input lines that copies
//! fenced code and existing Markdown through verbatim and folds runs of
//! plain prose into list items, followed by a trailing-blank trim and a
//! newline join.

use vstd::prelude::*;

use crate::classify::{
    is_fence_line, is_fence_spec, is_markdown_line, is_markdown_spec, last_non_empty_is_heading,
    last_non_empty_is_heading_spec,
};
use crate::lines::{
    copy_bytes, is_blank_line, is_blank_spec, join_lines, join_lines_spec, lines_of, push_range,
    split_lines, split_lines_spec, trim_spec, trim_trailing_spec, trimmed_range,
};

verus! {

/// The sub-items that the tail of a paragraph buffer becomes in nested mode:
/// each line with a non-blank trimmed form becomes `"  - "` plus that form;
/// blank lines are dropped.
pub open spec fn nested_tail_spec(rest: Seq<Seq<u8>>) -> Seq<Seq<u8>>
    decreases rest.len(),
{
    if rest.len() == 0 {
        Seq::empty()
    } else {
        let t = trim_spec(rest.last());
        nested_tail_spec(rest.drop_last()) + if t.len() > 0 {
            seq![seq![32u8, 32u8, 45u8, 32u8] + t]
        } else {
            Seq::<Seq<u8>>::empty()
        }
    }
}

/// What flushing the paragraph buffer appends to the output: nothing for an
/// empty buffer; otherwise a list-item head `"- "` plus the trimmed first
/// line (preceded by one empty line when the nearest non-blank output line
/// is a heading), then the remaining lines: verbatim after one empty line in
/// plain-text mode, as nested sub-items otherwise.
pub open spec fn flush_spec(out: Seq<Seq<u8>>, buf: Seq<Seq<u8>>, plain: bool) -> Seq<Seq<u8>> {
    if buf.len() == 0 {
        out
    } else {
        let first = trim_spec(buf[0]);
        let headed = if first.len() > 0 {
            (if last_non_empty_is_heading_spec(out) {
                out.push(Seq::empty())
            } else {
                out
            }).push(seq![45u8, 32u8] + first)
        } else {
            out
        };
        if plain {
            headed.push(Seq::empty()) + buf.skip(1)
        } else {
            headed + nested_tail_spec(buf.skip(1))
        }
    }
}

/// One step of the pass: a fence delimiter flushes, toggles the code state
/// and passes through; inside code every line passes through; a blank line
/// only flushes; an existing Markdown line flushes and passes through; plain
/// prose is buffered.
pub open spec fn step_spec(
    st: (Seq<Seq<u8>>, Seq<Seq<u8>>, bool),
    line: Seq<u8>,
    plain: bool,
) -> (Seq<Seq<u8>>, Seq<Seq<u8>>, bool) {
    let (out, buf, in_code) = st;
    if is_fence_spec(line) {
        (flush_spec(out, buf, plain).push(line), Seq::empty(), !in_code)
    } else if in_code {
        (out.push(line), buf, in_code)
    } else if is_blank_spec(line) {
        (flush_spec(out, buf, plain), Seq::empty(), in_code)
    } else if is_markdown_spec(line) {
        (flush_spec(out, buf, plain).push(line), Seq::empty(), in_code)
    } else {
        (out, buf.push(line), in_code)
    }
}

/// The state before any line: empty output, empty buffer, outside code.
pub open spec fn init_state() -> (Seq<Seq<u8>>, Seq<Seq<u8>>, bool) {
    (Seq::<Seq<u8>>::empty(), Seq::<Seq<u8>>::empty(), false)
}

/// The state after running the pass over `lines`, starting from `st`.
pub open spec fn run_from(
    st: (Seq<Seq<u8>>, Seq<Seq<u8>>, bool),
    lines: Seq<Seq<u8>>,
    plain: bool,
) -> (Seq<Seq<u8>>, Seq<Seq<u8>>, bool)
    decreases lines.len(),
{
    if lines.len() == 0 {
        st
    } else {
        step_spec(run_from(st, lines.drop_last(), plain), lines.last(), plain)
    }
}

/// The output lines for the given input lines: run the pass, flush what is
/// left in the buffer, and trim trailing empty lines.
pub open spec fn output_lines_spec(lines: Seq<Seq<u8>>, plain: bool) -> Seq<Seq<u8>> {
    let st = run_from(init_state(), lines, plain);
    trim_trailing_spec(flush_spec(st.0, st.1, plain))
}

/// The whole conversion: split the input into lines, convert, and join with
/// newlines.
pub open spec fn convert_spec(s: Seq<u8>, plain: bool) -> Seq<u8> {
    join_lines_spec(output_lines_spec(split_lines_spec(s), plain))
}

/// Flushes the paragraph buffer into the output and clears it.
fn flush_buf(out: &mut Vec<Vec<u8>>, buf: &mut Vec<Vec<u8>>, is_plane_text: bool)
    ensures
        lines_of(final(out)@) == flush_spec(
            lines_of(old(out)@),
            lines_of(old(buf)@),
            is_plane_text,
        ),
        final(buf)@.len() == 0,
{
    let ghost out0 = lines_of(out@);
    let ghost bufseq = lines_of(buf@);
    if buf.len() == 0 {
        return ;
    }
    let (lo, hi) = trimmed_range(&buf[0]);
    let ghost first = trim_spec(bufseq[0]);
    if hi > lo {
        if last_non_empty_is_heading(out) {
            out.push(Vec::new());
        }
        let mut head: Vec<u8> = Vec::new();
        head.push(45);
        head.push(32);
        push_range(&mut head, &buf[0], lo, hi);
        proof {
            assert(head@ =~= seq![45u8, 32u8] + first);
        }
        out.push(head);
    }
    let ghost headed = lines_of(out@);
    proof {
        if first.len() > 0 {
            if last_non_empty_is_heading_spec(out0) {
                assert(headed =~= out0.push(Seq::<u8>::empty()).push(seq![45u8, 32u8] + first));
            } else {
                assert(headed =~= out0.push(seq![45u8, 32u8] + first));
            }
        } else {
            assert(headed =~= out0);
        }
    }
    if is_plane_text {
        out.push(Vec::new());
        let ghost base = lines_of(out@);
        proof {
            assert(base =~= headed.push(Seq::<u8>::empty()));
            assert(base + bufseq.subrange(1, 1) =~= base);
        }
        let mut i: usize = 1;
        while i < buf.len()
            invariant
                1 <= i <= buf@.len(),
                bufseq == lines_of(buf@),
                lines_of(out@) == base + bufseq.subrange(1, i as int),
            decreases buf@.len() - i,
        {
            let line = copy_bytes(&buf[i]);
            out.push(line);
            proof {
                assert(lines_of(out@) =~= (base + bufseq.subrange(1, i as int)).push(
                    bufseq[i as int],
                ));
                assert((base + bufseq.subrange(1, i as int)).push(bufseq[i as int]) =~= base
                    + bufseq.subrange(1, i + 1));
            }
            i = i + 1;
        }
        proof {
            assert(bufseq.subrange(1, bufseq.len() as int) =~= bufseq.skip(1));
        }
    } else {
        proof {
            assert(nested_tail_spec(bufseq.subrange(1, 1)) == Seq::<Seq<u8>>::empty());
            assert(headed + nested_tail_spec(bufseq.subrange(1, 1)) =~= headed);
        }
        let mut i: usize = 1;
        while i < buf.len()
            invariant
                1 <= i <= buf@.len(),
                bufseq == lines_of(buf@),
                lines_of(out@) == headed + nested_tail_spec(bufseq.subrange(1, i as int)),
            decreases buf@.len() - i,
        {
            let ghost pre = bufseq.subrange(1, i as int);
            let ghost cur = bufseq.subrange(1, i + 1);
            proof {
                assert(cur.drop_last() =~= pre);
                assert(cur.last() == bufseq[i as int]);
            }
            let (l2, h2) = trimmed_range(&buf[i]);
            if h2 > l2 {
                let mut item: Vec<u8> = Vec::new();
                item.push(32);
                item.push(32);
                item.push(45);
                item.push(32);
                push_range(&mut item, &buf[i], l2, h2);
                proof {
                    assert(item@ =~= seq![32u8, 32u8, 45u8, 32u8] + trim_spec(bufseq[i as int]));
                }
                out.push(item);
                proof {
                    assert(lines_of(out@) =~= (headed + nested_tail_spec(pre)).push(item@));
                    assert((headed + nested_tail_spec(pre)).push(item@) =~= headed + (
                    nested_tail_spec(pre) + seq![item@]));
                }
            } else {
                proof {
                    assert(nested_tail_spec(cur) =~= nested_tail_spec(pre));
                }
            }
            i = i + 1;
        }
        proof {
            assert(bufseq.subrange(1, bufseq.len() as int) =~= bufseq.skip(1));
        }
    }
    buf.clear();
}

/// Converts a text to Markdown. Existing Markdown lines and fenced code pass
/// through verbatim; runs of plain prose become a list item with nested
/// sub-items, or with verbatim continuation lines in plain-text mode; blank
/// lines separate paragraphs; trailing empty lines are trimmed.
pub fn convert_text_to_md(input: &[u8], is_plane_text: bool) -> (r: Vec<u8>)
    ensures
        r@ == convert_spec(input@, is_plane_text),
{
    let lines = split_lines(input);
    let ghost lseq = lines_of(lines@);
    let mut out: Vec<Vec<u8>> = Vec::new();
    let mut buf: Vec<Vec<u8>> = Vec::new();
    let mut in_code = false;
    let mut i: usize = 0;
    proof {
        assert(lseq.take(0) =~= Seq::<Seq<u8>>::empty());
        assert(lines_of(out@) =~= Seq::<Seq<u8>>::empty());
        assert(lines_of(buf@) =~= Seq::<Seq<u8>>::empty());
    }
    while i < lines.len()
        invariant
            i <= lines@.len(),
            lseq == lines_of(lines@),
            (lines_of(out@), lines_of(buf@), in_code) == run_from(
                init_state(),
                lseq.take(i as int),
                is_plane_text,
            ),
        decreases lines@.len() - i,
    {
        let ghost st = (lines_of(out@), lines_of(buf@), in_code);
        proof {
            assert(lseq.take(i + 1).drop_last() =~= lseq.take(i as int));
            assert(lseq.take(i + 1).last() == lseq[i as int]);
        }
        let line = &lines[i];
        if is_fence_line(line) {
            flush_buf(&mut out, &mut buf, is_plane_text);
            out.push(copy_bytes(line));
            in_code = !in_code;
            proof {
                assert(lines_of(out@) =~= flush_spec(st.0, st.1, is_plane_text).push(
                    lseq[i as int],
                ));
                assert(lines_of(buf@) =~= Seq::<Seq<u8>>::empty());
            }
        } else if in_code {
            out.push(copy_bytes(line));
            proof {
                assert(lines_of(out@) =~= st.0.push(lseq[i as int]));
            }
        } else if is_blank_line(line) {
            flush_buf(&mut out, &mut buf, is_plane_text);
            proof {
                assert(lines_of(buf@) =~= Seq::<Seq<u8>>::empty());
            }
        } else if is_markdown_line(line.as_slice()) {
            flush_buf(&mut out, &mut buf, is_plane_text);
            out.push(copy_bytes(line));
            proof {
                assert(lines_of(out@) =~= flush_spec(st.0, st.1, is_plane_text).push(
                    lseq[i as int],
                ));
                assert(lines_of(buf@) =~= Seq::<Seq<u8>>::empty());
            }
        } else {
            buf.push(copy_bytes(line));
            proof {
                assert(lines_of(buf@) =~= st.1.push(lseq[i as int]));
            }
        }
        i = i + 1;
    }
    proof {
        assert(lseq.take(lseq.len() as int) =~= lseq);
    }
    flush_buf(&mut out, &mut buf, is_plane_text);
    while out.len() > 0 && out[out.len() - 1].len() == 0
        invariant
            trim_trailing_spec(lines_of(out@)) == output_lines_spec(lseq, is_plane_text),
        decreases out@.len(),
    {
        let ghost prev = lines_of(out@);
        let _ = out.pop();
        proof {
            assert(prev.last().len() == 0);
            assert(lines_of(out@) =~= prev.drop_last());
        }
    }
    proof {
        assert(trim_trailing_spec(lines_of(out@)) == lines_of(out@));
    }
    join_lines(&out)
}

} // verus!
