//! Line classification: code-fence delimiters, headings, recognized Markdown
//! prefixes, and the ordered-list marker (digits followed by `.` or `)`
//! followed by a space or the end of the line).

use vstd::prelude::*;

use crate::lines::{is_blank_line, is_blank_spec, lines_of, trim_start_index, trim_start_spec};

verus! {

/// A fence delimiter: the line starts, after leading whitespace, with three
/// backticks.
pub open spec fn is_fence_spec(s: Seq<u8>) -> bool {
    let t = trim_start_spec(s);
    t.len() >= 3 && t[0] == 96 && t[1] == 96 && t[2] == 96
}

/// A heading: the line starts, after leading whitespace, with `#`.
pub open spec fn is_heading_spec(s: Seq<u8>) -> bool {
    let t = trim_start_spec(s);
    t.len() >= 1 && t[0] == 35
}

/// An ASCII decimal digit.
pub open spec fn is_digit(c: u8) -> bool {
    48 <= c && c <= 57
}

/// An ordered-list marker: one or more leading digits, then `.` or `)`, then
/// a space or the end of the line.
pub open spec fn ordered_marker_spec(t: Seq<u8>) -> bool {
    exists|k: int|
        #![trigger t[k]]
        1 <= k < t.len() && (forall|i: int| 0 <= i < k ==> is_digit(#[trigger] t[i])) && (t[k] == 46
            || t[k] == 41) && (k + 1 == t.len() || t[k + 1] == 32)
}

/// A recognized Markdown prefix on an already left-trimmed line: a heading
/// (`#`), a fence, a blockquote (`> `), a bullet (`- `, `+ `, `* `), or a
/// task-list shorthand (`-[`).
pub open spec fn md_prefix_spec(t: Seq<u8>) -> bool {
    ||| (t.len() >= 1 && t[0] == 35)
    ||| (t.len() >= 3 && t[0] == 96 && t[1] == 96 && t[2] == 96)
    ||| (t.len() >= 2 && t[0] == 62 && t[1] == 32)
    ||| (t.len() >= 2 && t[0] == 45 && t[1] == 32)
    ||| (t.len() >= 2 && t[0] == 43 && t[1] == 32)
    ||| (t.len() >= 2 && t[0] == 42 && t[1] == 32)
    ||| (t.len() >= 2 && t[0] == 45 && t[1] == 91)
}

/// An already-valid Markdown line: after leading whitespace it carries a
/// recognized prefix or an ordered-list marker.
pub open spec fn is_markdown_spec(s: Seq<u8>) -> bool {
    md_prefix_spec(trim_start_spec(s)) || ordered_marker_spec(trim_start_spec(s))
}

/// A Markdown line is never blank.
pub proof fn lemma_markdown_not_blank(s: Seq<u8>)
    requires
        is_markdown_spec(s),
    ensures
        !is_blank_spec(s),
{
}

/// Whether the line is a fence delimiter.
pub fn is_fence_line(s: &Vec<u8>) -> (r: bool)
    ensures
        r == is_fence_spec(s@),
{
    let lo = trim_start_index(s.as_slice());
    let n = s.len();
    n - lo >= 3 && s[lo] == 96 && s[lo + 1] == 96 && s[lo + 2] == 96
}

/// Whether the line is already a valid Markdown line.
pub fn is_markdown_line(s: &[u8]) -> (r: bool)
    ensures
        r == is_markdown_spec(s@),
{
    let lo = trim_start_index(s);
    let n = s.len();
    let ghost t = trim_start_spec(s@);
    if n - lo >= 1 && s[lo] == 35 {
        return true;
    }
    if n - lo >= 3 && s[lo] == 96 && s[lo + 1] == 96 && s[lo + 2] == 96 {
        return true;
    }
    if n - lo >= 2 {
        let a = s[lo];
        let b = s[lo + 1];
        if (a == 62 && b == 32) || (a == 45 && b == 32) || (a == 43 && b == 32) || (a == 42 && b
            == 32) || (a == 45 && b == 91) {
            return true;
        }
    }
    // Scan the maximal run of leading digits of the trimmed line.
    let mut k: usize = lo;
    while k < n && 48 <= s[k] && s[k] <= 57
        invariant
            lo <= k <= n,
            n == s@.len(),
            forall|i: int| lo <= i < k ==> is_digit(#[trigger] s@[i]),
        decreases n - k,
    {
        k = k + 1;
    }
    proof {
        assert(forall|i: int| 0 <= i < k - lo ==> is_digit(#[trigger] t[i]));
    }
    if k > lo && k < n && (s[k] == 46 || s[k] == 41) {
        if k + 1 == n || s[k + 1] == 32 {
            proof {
                let kk = k - lo;
                assert(t[kk] == s@[k as int]);
                assert(kk + 1 == t.len() || t[kk + 1] == s@[k + 1]);
                assert(ordered_marker_spec(t));
            }
            return true;
        }
    }
    proof {
        if ordered_marker_spec(t) {
            let k0 = choose|k0: int|
                #![trigger t[k0]]
                1 <= k0 < t.len() && (forall|i: int| 0 <= i < k0 ==> is_digit(#[trigger] t[i])) && (
                t[k0] == 46 || t[k0] == 41) && (k0 + 1 == t.len() || t[k0 + 1] == 32);
            // The scanned run is maximal, and `.`/`)` is not a digit, so the
            // run ends exactly at the marker's delimiter.
            let r = k - lo;
            assert(!is_digit(t[k0]));
            if k0 < r {
                assert(is_digit(t[k0]));
                assert(false);
            } else if k0 > r {
                assert(r < t.len());
                assert(!is_digit(t[r]));
                assert(is_digit(t[r]));
                assert(false);
            } else {
                assert(t[k0] == s@[k as int]);
                assert(k0 + 1 == t.len() ==> k + 1 == n);
                assert(k0 + 1 < t.len() ==> t[k0 + 1] == s@[k + 1]);
                assert(false);
            }
        }
    }
    false
}

/// The nearest non-blank line, scanning the output backward, is a heading;
/// false when every line is blank or there is none.
pub open spec fn last_non_empty_is_heading_spec(out: Seq<Seq<u8>>) -> bool
    decreases out.len(),
{
    if out.len() == 0 {
        false
    } else if !is_blank_spec(out.last()) {
        is_heading_spec(out.last())
    } else {
        last_non_empty_is_heading_spec(out.drop_last())
    }
}

/// Whether the nearest non-blank output line is a heading.
pub fn last_non_empty_is_heading(out: &Vec<Vec<u8>>) -> (r: bool)
    ensures
        r == last_non_empty_is_heading_spec(lines_of(out@)),
{
    let ghost full = lines_of(out@);
    proof {
        assert(full.take(out@.len() as int) =~= full);
    }
    let mut i = out.len();
    while i > 0
        invariant
            i <= out@.len(),
            full == lines_of(out@),
            last_non_empty_is_heading_spec(full) == last_non_empty_is_heading_spec(
                full.take(i as int),
            ),
        decreases i,
    {
        proof {
            assert(full.take(i as int).last() == out@[i - 1]@);
            assert(full.take(i as int).drop_last() =~= full.take(i - 1));
        }
        if !is_blank_line(&out[i - 1]) {
            let lo = trim_start_index(out[i - 1].as_slice());
            return lo < out[i - 1].len() && out[i - 1][lo] == 35;
        }
        i = i - 1;
    }
    proof {
        assert(full.take(0) =~= Seq::<Seq<u8>>::empty());
    }
    false
}

} // verus!
