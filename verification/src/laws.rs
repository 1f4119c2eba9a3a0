//! Properties of the conversion pass: existing Markdown passes through
//! unchanged, fenced content is preserved verbatim (also when the fence is
//! never closed), and the final trim removes trailing empty lines only.

use vstd::prelude::*;

use crate::classify::{is_fence_spec, is_markdown_spec, lemma_markdown_not_blank};
use crate::convert::{flush_spec, init_state, output_lines_spec, run_from, step_spec};
use crate::lines::{lemma_trim_start_len, lemma_trim_trailing_props, trim_trailing_spec};

verus! {

/// Whether the pass is inside a code fence after these lines: the parity of
/// the fence delimiters seen.
pub open spec fn fence_parity(lines: Seq<Seq<u8>>) -> bool
    decreases lines.len(),
{
    if lines.len() == 0 {
        false
    } else if is_fence_spec(lines.last()) {
        !fence_parity(lines.drop_last())
    } else {
        fence_parity(lines.drop_last())
    }
}

/// The pass is inside a code fence exactly when it has seen an odd number of
/// fence delimiters.
pub proof fn lemma_in_code_is_fence_parity(lines: Seq<Seq<u8>>, plain: bool)
    ensures
        run_from(init_state(), lines, plain).2 == fence_parity(lines),
    decreases lines.len(),
{
    if lines.len() > 0 {
        lemma_in_code_is_fence_parity(lines.drop_last(), plain);
    }
}

/// A fence delimiter line is never empty.
pub proof fn lemma_fence_line_nonempty(line: Seq<u8>)
    requires
        is_fence_spec(line),
    ensures
        line.len() > 0,
{
    lemma_trim_start_len(line);
}

/// Flushing only appends: the output so far stays a prefix.
proof fn lemma_flush_appends(out: Seq<Seq<u8>>, buf: Seq<Seq<u8>>, plain: bool)
    ensures
        out.len() <= flush_spec(out, buf, plain).len(),
        flush_spec(out, buf, plain).take(out.len() as int) == out,
{
    assert(flush_spec(out, buf, plain).take(out.len() as int) =~= out);
}

/// One step only appends to the output.
proof fn lemma_step_appends(st: (Seq<Seq<u8>>, Seq<Seq<u8>>, bool), line: Seq<u8>, plain: bool)
    ensures
        st.0.len() <= step_spec(st, line, plain).0.len(),
        step_spec(st, line, plain).0.take(st.0.len() as int) == st.0,
{
    lemma_flush_appends(st.0, st.1, plain);
    let f = flush_spec(st.0, st.1, plain);
    assert(f.push(line).take(st.0.len() as int) =~= f.take(st.0.len() as int));
    assert(st.0.push(line).take(st.0.len() as int) =~= st.0);
    assert(st.0.take(st.0.len() as int) =~= st.0);
}

/// The whole pass only appends to the output.
proof fn lemma_run_from_appends(
    st: (Seq<Seq<u8>>, Seq<Seq<u8>>, bool),
    lines: Seq<Seq<u8>>,
    plain: bool,
)
    ensures
        st.0.len() <= run_from(st, lines, plain).0.len(),
        run_from(st, lines, plain).0.take(st.0.len() as int) == st.0,
    decreases lines.len(),
{
    if lines.len() == 0 {
        assert(st.0.take(st.0.len() as int) =~= st.0);
    } else {
        let prev = run_from(st, lines.drop_last(), plain);
        lemma_run_from_appends(st, lines.drop_last(), plain);
        lemma_step_appends(prev, lines.last(), plain);
        let cur = step_spec(prev, lines.last(), plain);
        assert(cur.0.take(st.0.len() as int) =~= cur.0.take(prev.0.len() as int).take(
            st.0.len() as int,
        ));
    }
}

/// The pass over concatenated line sequences is the pass over the first,
/// continued over the second.
proof fn lemma_run_from_concat(
    st: (Seq<Seq<u8>>, Seq<Seq<u8>>, bool),
    a: Seq<Seq<u8>>,
    b: Seq<Seq<u8>>,
    plain: bool,
)
    ensures
        run_from(st, a + b, plain) == run_from(run_from(st, a, plain), b, plain),
    decreases b.len(),
{
    if b.len() == 0 {
        assert(a + b =~= a);
    } else {
        assert((a + b).drop_last() =~= a + b.drop_last());
        assert((a + b).last() == b.last());
        lemma_run_from_concat(st, a, b.drop_last(), plain);
    }
}

/// Inside a code fence, lines pass through verbatim: no classification, no
/// buffering.
proof fn lemma_run_in_code(st: (Seq<Seq<u8>>, Seq<Seq<u8>>, bool), c: Seq<Seq<u8>>, plain: bool)
    requires
        st.2,
        forall|i: int| 0 <= i < c.len() ==> !is_fence_spec(#[trigger] c[i]),
    ensures
        run_from(st, c, plain) == (st.0 + c, st.1, st.2),
    decreases c.len(),
{
    if c.len() == 0 {
        assert(st.0 + c =~= st.0);
        assert(st == (st.0, st.1, st.2));
    } else {
        assert forall|i: int| 0 <= i < c.drop_last().len() implies !is_fence_spec(
            #[trigger] c.drop_last()[i],
        ) by {
            assert(c.drop_last()[i] == c[i]);
        }
        lemma_run_in_code(st, c.drop_last(), plain);
        assert(c.last() == c[c.len() - 1]);
        assert((st.0 + c.drop_last()).push(c.last()) =~= st.0 + c);
    }
}

/// The pass over a single line is one step.
proof fn lemma_run_single(st: (Seq<Seq<u8>>, Seq<Seq<u8>>, bool), line: Seq<u8>, plain: bool)
    ensures
        run_from(st, seq![line], plain) == step_spec(st, line, plain),
{
    let one = seq![line];
    assert(one.drop_last() =~= Seq::<Seq<u8>>::empty());
    assert(run_from(st, one.drop_last(), plain) == st);
    assert(one.last() == line);
}

/// Runs the pass over the lines when every line outside a fence is already
/// Markdown: every line passes through verbatim and the buffer stays empty.
proof fn lemma_markdown_run(lines: Seq<Seq<u8>>, plain: bool)
    requires
        forall|i: int|
            #![trigger lines[i]]
            0 <= i < lines.len() ==> fence_parity(lines.take(i)) || is_markdown_spec(lines[i]),
    ensures
        run_from(init_state(), lines, plain) == (
            lines,
            Seq::<Seq<u8>>::empty(),
            fence_parity(lines),
        ),
    decreases lines.len(),
{
    if lines.len() == 0 {
        assert(lines =~= Seq::<Seq<u8>>::empty());
    } else {
        let l = lines.drop_last();
        let x = lines.last();
        assert forall|i: int|
            #![trigger l[i]]
            0 <= i < l.len() implies fence_parity(l.take(i)) || is_markdown_spec(l[i]) by {
            assert(l[i] == lines[i]);
            assert(l.take(i) =~= lines.take(i));
        }
        lemma_markdown_run(l, plain);
        assert(lines[lines.len() - 1] == x);
        assert(lines.take(lines.len() - 1) =~= l);
        let empty = Seq::<Seq<u8>>::empty();
        assert(flush_spec(l, empty, plain) == l);
        if is_fence_spec(x) {
            assert(l.push(x) =~= lines);
        } else if fence_parity(l) {
            assert(l.push(x) =~= lines);
        } else {
            assert(is_markdown_spec(x));
            lemma_markdown_not_blank(x);
            assert(l.push(x) =~= lines);
        }
    }
}

/// Law: an input whose every line outside fenced code is already a valid
/// Markdown line converts to itself, except that trailing empty lines are
/// trimmed. (A blank line outside a fence only separates paragraphs and does
/// not pass through, so such lines are outside this law.)
pub proof fn lemma_markdown_passthrough(lines: Seq<Seq<u8>>, plain: bool)
    requires
        forall|i: int|
            #![trigger lines[i]]
            0 <= i < lines.len() ==> fence_parity(lines.take(i)) || is_markdown_spec(lines[i]),
    ensures
        output_lines_spec(lines, plain) == trim_trailing_spec(lines),
{
    lemma_markdown_run(lines, plain);
    assert(flush_spec(lines, Seq::<Seq<u8>>::empty(), plain) == lines);
}

/// Law: the content between a pair of fence delimiters appears in the output
/// verbatim, as one contiguous block, whatever stands before and after.
pub proof fn lemma_fence_preservation(
    before: Seq<Seq<u8>>,
    opening: Seq<u8>,
    content: Seq<Seq<u8>>,
    closing: Seq<u8>,
    after: Seq<Seq<u8>>,
    plain: bool,
)
    requires
        is_fence_spec(opening),
        is_fence_spec(closing),
        !fence_parity(before),
        forall|i: int| 0 <= i < content.len() ==> !is_fence_spec(#[trigger] content[i]),
    ensures
        ({
            let out = output_lines_spec(
                before + seq![opening] + content + seq![closing] + after,
                plain,
            );
            exists|j: int|
                #![trigger out.subrange(j, j + content.len() as int)]
                0 <= j && j + content.len() <= out.len() && out.subrange(
                    j,
                    j + content.len() as int,
                ) == content
        }),
{
    let full = before + seq![opening] + content + seq![closing] + after;
    let tail1 = seq![opening] + (content + (seq![closing] + after));
    assert(full =~= before + tail1);
    let st_b = run_from(init_state(), before, plain);
    lemma_in_code_is_fence_parity(before, plain);
    lemma_run_from_concat(init_state(), before, tail1, plain);

    // The opening delimiter: flush, pass through, enter code.
    let one = seq![opening];
    let st1 = run_from(st_b, one, plain);
    lemma_run_single(st_b, opening, plain);
    assert(st1 == step_spec(st_b, opening, plain));
    let headed = flush_spec(st_b.0, st_b.1, plain).push(opening);
    assert(st1 == (headed, Seq::<Seq<u8>>::empty(), true));

    // The fenced content passes through verbatim.
    lemma_run_from_concat(st_b, one, content + (seq![closing] + after), plain);
    assert(tail1 =~= one + (content + (seq![closing] + after)));
    lemma_run_from_concat(st1, content, seq![closing] + after, plain);
    lemma_run_in_code(st1, content, plain);
    let st2 = run_from(st1, content, plain);
    assert(st2 == (headed + content, Seq::<Seq<u8>>::empty(), true));

    // The closing delimiter: pass through, leave code.
    lemma_run_from_concat(st2, seq![closing], after, plain);
    let two = seq![closing];
    let st3 = run_from(st2, two, plain);
    lemma_run_single(st2, closing, plain);
    assert(st3 == step_spec(st2, closing, plain));
    assert(flush_spec(st2.0, st2.1, plain) == st2.0);
    assert(st3 == ((headed + content).push(closing), Seq::<Seq<u8>>::empty(), false));

    // Whatever follows only appends, the final flush only appends, and the
    // trim cannot reach past the closing delimiter, which is not empty.
    let st4 = run_from(st3, after, plain);
    assert(run_from(init_state(), full, plain) == st4);
    lemma_run_from_appends(st3, after, plain);
    let f = flush_spec(st4.0, st4.1, plain);
    lemma_flush_appends(st4.0, st4.1, plain);
    let n3 = st3.0.len() as int;
    assert(f.take(n3) =~= f.take(st4.0.len() as int).take(n3));
    assert(f.take(n3) == st3.0);
    lemma_trim_trailing_props(f);
    let out = output_lines_spec(full, plain);
    assert(out == f.take(out.len() as int));

    let j = headed.len() as int;
    let p = j + content.len() as int;
    assert(st3.0[p] == closing);
    assert(f[p] == f.take(n3)[p]);
    lemma_fence_line_nonempty(closing);
    assert(f[p].len() > 0);
    assert(p < out.len());
    assert forall|t: int| 0 <= t < content.len() implies out[j + t] == content[t] by {
        assert(f[j + t] == f.take(n3)[j + t]);
        assert(st3.0[j + t] == content[t]);
    }
    assert(out.subrange(j, j + content.len() as int) =~= content);
    assert(0 <= j && j + content.len() <= out.len() && out.subrange(j, j + content.len() as int)
        == content);
}

/// Law: after an opening fence delimiter that is never closed, every line
/// passes through verbatim, with no list conversion applied; only trailing
/// empty lines are trimmed.
pub proof fn lemma_unterminated_fence(
    before: Seq<Seq<u8>>,
    opening: Seq<u8>,
    content: Seq<Seq<u8>>,
    plain: bool,
)
    requires
        is_fence_spec(opening),
        !fence_parity(before),
        forall|i: int| 0 <= i < content.len() ==> !is_fence_spec(#[trigger] content[i]),
    ensures
        ({
            let st = run_from(init_state(), before, plain);
            output_lines_spec(before + seq![opening] + content, plain) == trim_trailing_spec(
                flush_spec(st.0, st.1, plain).push(opening) + content,
            )
        }),
{
    let full = before + seq![opening] + content;
    let tail1 = seq![opening] + content;
    assert(full =~= before + tail1);
    let st_b = run_from(init_state(), before, plain);
    lemma_in_code_is_fence_parity(before, plain);
    lemma_run_from_concat(init_state(), before, tail1, plain);
    let one = seq![opening];
    let st1 = run_from(st_b, one, plain);
    lemma_run_single(st_b, opening, plain);
    assert(st1 == step_spec(st_b, opening, plain));
    let headed = flush_spec(st_b.0, st_b.1, plain).push(opening);
    assert(st1 == (headed, Seq::<Seq<u8>>::empty(), true));
    lemma_run_from_concat(st_b, one, content, plain);
    assert(tail1 =~= one + content);
    lemma_run_in_code(st1, content, plain);
    let st2 = run_from(st1, content, plain);
    assert(run_from(init_state(), full, plain) == st2);
    assert(flush_spec(st2.0, st2.1, plain) == st2.0);
}

/// Law: the conversion's output never ends in an empty line, and the final
/// trim removes trailing empty lines only: what it keeps is exactly what the
/// pass produced, unchanged.
pub proof fn lemma_trailing_blank_trim(lines: Seq<Seq<u8>>, plain: bool)
    ensures
        ({
            let st = run_from(init_state(), lines, plain);
            let produced = flush_spec(st.0, st.1, plain);
            let out = output_lines_spec(lines, plain);
            &&& out.len() <= produced.len()
            &&& out == produced.take(out.len() as int)
            &&& forall|i: int|
                out.len() <= i < produced.len() ==> #[trigger] produced[i].len() == 0
            &&& out.len() > 0 ==> out.last().len() != 0
        }),
{
    let st = run_from(init_state(), lines, plain);
    lemma_trim_trailing_props(flush_spec(st.0, st.1, plain));
}

} // verus!
