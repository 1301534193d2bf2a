//! The query path's own rules: score penalties for test paths and container
//! chunks, and construction of highlighted snippets from a hit's text and
//! its match ranges.
//!
//! Scores travel here as non-negative integers in a fixed-point unit chosen
//! by the caller; only their relative order matters, and the penalty rules
//! divide them so that order comparisons stay exact.

use vstd::prelude::*;
use vstd::string::StringSliceAdditionalSpecFns;
use vstd::seq_lib::group_to_multiset_ensures;
use vstd::multiset::group_multiset_axioms;

use crate::text::clip;
use crate::text::to_lower;
use crate::text::lower_byte;

verus! {

/// The four bytes at `i` spell `test`, ignoring ASCII case.
pub open spec fn match_test_at(s: Seq<u8>, i: int) -> bool {
    &&& 0 <= i
    &&& i + 4 <= s.len()
    &&& to_lower(s[i]) == 116
    &&& to_lower(s[i + 1]) == 101
    &&& to_lower(s[i + 2]) == 115
    &&& to_lower(s[i + 3]) == 116
}

/// The path contains the substring `test`, ignoring ASCII case.
pub open spec fn contains_test(s: Seq<u8>) -> bool {
    exists|i: int| match_test_at(s, i)
}

/// The stored chunk type names a container: such hits are down-ranked in
/// favour of methods.
pub open spec fn kind_penalized(ct: Option<Seq<u8>>) -> bool {
    match ct {
        Some(t) => t == "Class".spec_bytes() || t == "Interface".spec_bytes() || t
            == "Struct".spec_bytes(),
        None => false,
    }
}

/// The adjusted score: halved for test paths, then multiplied by 3/5 for
/// container chunks.
pub open spec fn spec_adjusted(score: int, test_pen: bool, kind_pen: bool) -> int {
    let s1 = if test_pen {
        score / 2
    } else {
        score
    };
    if kind_pen {
        s1 * 3 / 5
    } else {
        s1
    }
}

/// Whether `s` contains the substring `test`, ignoring ASCII case.
pub fn path_contains_test(s: &[u8]) -> (r: bool)
    ensures
        r == contains_test(s@),
{
    let n = s.len();
    if n < 4 {
        return false;
    }
    let mut i: usize = 0;
    while i <= n - 4
        invariant
            4 <= n == s@.len(),
            i <= n - 3,
            forall|k: int| 0 <= k < i ==> !match_test_at(s@, k),
        decreases n - i,
    {
        if lower_byte(s[i]) == 116 && lower_byte(s[i + 1]) == 101 && lower_byte(s[i + 2]) == 115
            && lower_byte(s[i + 3]) == 116 {
            proof {
                assert(match_test_at(s@, i as int));
            }
            return true;
        }
        i = i + 1;
    }
    false
}

fn kind_is_penalized(ct: Option<&str>) -> (r: bool)
    ensures
        r == kind_penalized(
            match ct {
                Some(t) => Some(t.spec_bytes()),
                None => None,
            },
        ),
{
    match ct {
        Some(t) => {
            let b = t.as_bytes();
            crate::text::bytes_eq(b, "Class".as_bytes()) || crate::text::bytes_eq(
                b,
                "Interface".as_bytes(),
            ) || crate::text::bytes_eq(b, "Struct".as_bytes())
        },
        None => false,
    }
}

/// Applies the score penalties: half score for a path containing `test`
/// (ignoring case), and three fifths for a Class, Interface or Struct
/// chunk. The multipliers compose.
pub fn apply_score_penalties(score: u64, path: &str, chunk_type: Option<&str>) -> (r: u64)
    ensures
        r == spec_adjusted(
            score as int,
            contains_test(path.spec_bytes()),
            kind_penalized(
                match chunk_type {
                    Some(t) => Some(t.spec_bytes()),
                    None => None,
                },
            ),
        ),
{
    let s1 = if path_contains_test(path.as_bytes()) {
        score / 2
    } else {
        score
    };
    if kind_is_penalized(chunk_type) {
        let wide = (s1 as u128) * 3 / 5;
        proof {
            assert((s1 as u128) * 3 / 5 <= s1 as u128) by (nonlinear_arith);
            assert(s1 as int * 3 / 5 == ((s1 as u128) * 3 / 5) as int) by (nonlinear_arith);
        }
        wide as u64
    } else {
        s1
    }
}

/// Score-penalty monotonicity: a penalty never raises a score, so of two
/// otherwise-identical hits the one in a test path scores no higher, and of
/// two hits of equal base score the container chunk ranks no higher than
/// the method.
pub proof fn lemma_score_penalty_monotonic(score: int, test_pen: bool, kind_pen: bool)
    requires
        score >= 0,
    ensures
        spec_adjusted(score, true, kind_pen) <= spec_adjusted(score, false, kind_pen),
        spec_adjusted(score, test_pen, true) <= spec_adjusted(score, test_pen, false),
{
    let s1 = if test_pen {
        score / 2
    } else {
        score
    };
    assert(score / 2 <= score);
    assert(s1 >= 0);
    assert(s1 * 3 / 5 <= s1) by (nonlinear_arith)
        requires
            s1 >= 0,
    ;
    assert((score / 2) * 3 / 5 <= score * 3 / 5) by (nonlinear_arith)
        requires
            score >= 0,
    ;
}

/// Which snippet form a hit gets, by its stored chunk type.
#[derive(Clone, Copy, Debug, PartialEq, Eq, Structural)]
pub enum SnippetPlan {
    /// A callable without a body: render just the highlighted declaration.
    DeclarationOnly,
    /// A callable with a body: highlighted declaration, then highlighted
    /// body.
    DeclarationThenBody,
    /// A whole-file hit: a window of source lines around the best match.
    FileWindow,
    /// Anything else: the default best-matching fragment.
    DefaultFragment,
}

/// The snippet form for a stored chunk type: callables show declaration and
/// body (declaration alone if the body is blank), whole-file hits show a
/// line window, and everything else the default fragment.
pub open spec fn spec_snippet_plan(ct: Option<Seq<u8>>, body_blank: bool) -> SnippetPlan {
    match ct {
        Some(t) => if t == "Function".spec_bytes() || t == "Method".spec_bytes() {
            if body_blank {
                SnippetPlan::DeclarationOnly
            } else {
                SnippetPlan::DeclarationThenBody
            }
        } else if t == "Other".spec_bytes() || t == "file".spec_bytes() {
            SnippetPlan::FileWindow
        } else {
            SnippetPlan::DefaultFragment
        },
        None => SnippetPlan::DefaultFragment,
    }
}

/// Decides the snippet form for a hit.
pub fn snippet_plan(chunk_type: Option<&str>, body_blank: bool) -> (r: SnippetPlan)
    ensures
        r == spec_snippet_plan(
            match chunk_type {
                Some(t) => Some(t.spec_bytes()),
                None => None,
            },
            body_blank,
        ),
{
    match chunk_type {
        Some(t) => {
            let b = t.as_bytes();
            if crate::text::bytes_eq(b, "Function".as_bytes()) || crate::text::bytes_eq(
                b,
                "Method".as_bytes(),
            ) {
                if body_blank {
                    SnippetPlan::DeclarationOnly
                } else {
                    SnippetPlan::DeclarationThenBody
                }
            } else if crate::text::bytes_eq(b, "Other".as_bytes()) || crate::text::bytes_eq(
                b,
                "file".as_bytes(),
            ) {
                SnippetPlan::FileWindow
            } else {
                SnippetPlan::DefaultFragment
            }
        },
        None => SnippetPlan::DefaultFragment,
    }
}

/// Match ranges ordered by start offset.
pub open spec fn sorted_by_start(s: Seq<(usize, usize)>) -> bool {
    forall|i: int, j: int| 0 <= i < j < s.len() ==> (#[trigger] s[i]).0 <= (#[trigger] s[j]).0
}

/// Sorts match ranges by their start offset.
pub fn sort_ranges(v: Vec<(usize, usize)>) -> (r: Vec<(usize, usize)>)
    ensures
        sorted_by_start(r@),
        r@.to_multiset() == v@.to_multiset(),
        r@.len() == v@.len(),
        forall|k: int| 0 <= k < r@.len() ==> v@.contains(#[trigger] r@[k]),
{
    broadcast use group_to_multiset_ensures, group_multiset_axioms;

    let ghost v0 = v@;
    let mut rest = v;
    let mut out: Vec<(usize, usize)> = Vec::new();
    proof {
        assert(out@.to_multiset().add(rest@.to_multiset()) =~= v0.to_multiset());
    }
    while rest.len() > 0
        invariant
            out@.to_multiset().add(rest@.to_multiset()) == v0.to_multiset(),
            out@.len() + rest@.len() == v0.len(),
            sorted_by_start(out@),
            forall|k: int, m: int|
                0 <= k < out@.len() && 0 <= m < rest@.len() ==> (#[trigger] out@[k]).0 <= (
                #[trigger] rest@[m]).0,
            forall|k: int| 0 <= k < out@.len() ==> v0.contains(#[trigger] out@[k]),
            forall|m: int| 0 <= m < rest@.len() ==> v0.contains(#[trigger] rest@[m]),
        decreases rest@.len(),
    {
        let n = rest.len();
        let mut mi: usize = 0;
        let mut j: usize = 1;
        while j < n
            invariant
                mi < j <= n,
                n == rest@.len(),
                forall|k: int| 0 <= k < j ==> (#[trigger] rest@[k]).0 >= rest@[mi as int].0,
            decreases n - j,
        {
            if rest[j].0 < rest[mi].0 {
                mi = j;
            }
            j = j + 1;
        }
        let ghost rest_before = rest@;
        let x = rest.remove(mi);
        proof {
            broadcast use group_to_multiset_ensures, group_multiset_axioms;

            assert(rest_before.remove(mi as int).to_multiset() =~= rest_before.to_multiset().remove(
                x,
            ));
            assert(rest_before.to_multiset().count(x) > 0) by {
                assert(rest_before[mi as int] == x);
                assert(rest_before.contains(x));
            }
            assert(out@.push(x).to_multiset() =~= out@.to_multiset().insert(x));
            assert(out@.to_multiset().insert(x).add(rest_before.to_multiset().remove(x))
                =~= out@.to_multiset().add(rest_before.to_multiset()));
            assert forall|m: int| 0 <= m < rest@.len() implies x.0 <= (#[trigger] rest@[m]).0 by {
                if m < mi {
                    assert(rest@[m] == rest_before[m]);
                } else {
                    assert(rest@[m] == rest_before[m + 1]);
                }
            }
            assert forall|m: int| 0 <= m < rest@.len() implies v0.contains(#[trigger] rest@[m]) by {
                if m < mi {
                    assert(rest@[m] == rest_before[m]);
                } else {
                    assert(rest@[m] == rest_before[m + 1]);
                }
            }
            assert(v0.contains(x)) by {
                assert(rest_before[mi as int] == x);
            }
        }
        let ghost out_before = out@;
        out.push(x);
        proof {
            assert forall|a: int, b: int| 0 <= a < b < out@.len() implies (#[trigger] out@[a]).0
                <= (#[trigger] out@[b]).0 by {
                if b < out_before.len() {
                    assert(out@[a] == out_before[a] && out@[b] == out_before[b]);
                } else {
                    assert(out@[b] == x);
                    assert(out@[a] == out_before[a]);
                    assert(out_before[a].0 <= rest_before[mi as int].0);
                }
            }
        }
    }
    out
}

/// Bytes that open a highlighted region: the terminal's bold-yellow escape
/// when colors are on, nothing otherwise.
pub open spec fn highlight_start(use_colors: bool) -> Seq<u8> {
    if use_colors {
        "\u{1b}[1;33m".spec_bytes()
    } else {
        "".spec_bytes()
    }
}

/// Bytes that close a highlighted region.
pub open spec fn highlight_end(use_colors: bool) -> Seq<u8> {
    if use_colors {
        "\u{1b}[0m".spec_bytes()
    } else {
        "".spec_bytes()
    }
}

/// The rendering of `text` with the ranges at and after `i` highlighted,
/// `last` being the next byte of `text` still to be printed. Each range is
/// shifted by `off`; out-of-range offsets are clipped.
pub open spec fn spec_render_from(
    text: Seq<u8>,
    ranges: Seq<(usize, usize)>,
    off: int,
    pre: Seq<u8>,
    post: Seq<u8>,
    i: int,
    last: int,
) -> Seq<u8>
    decreases ranges.len() - i,
{
    if i < 0 || i >= ranges.len() {
        clip(text, last, text.len() as int)
    } else {
        let a = ranges[i].0 + off;
        let b = ranges[i].1 + off;
        (if a > last {
            clip(text, last, a)
        } else {
            Seq::empty()
        }) + pre + clip(text, a, b) + post + spec_render_from(
            text,
            ranges,
            off,
            pre,
            post,
            i + 1,
            if b < 0 {
                0
            } else if b > text.len() {
                text.len() as int
            } else {
                b
            },
        )
    }
}

/// The rendering of `text` with all of `ranges` highlighted; with no ranges
/// the text is returned unchanged.
pub open spec fn spec_render(
    text: Seq<u8>,
    ranges: Seq<(usize, usize)>,
    off: int,
    use_colors: bool,
) -> Seq<u8> {
    if ranges.len() == 0 {
        text
    } else {
        spec_render_from(
            text,
            ranges,
            off,
            highlight_start(use_colors),
            highlight_end(use_colors),
            0,
            0,
        )
    }
}

/// Renders `text` with the given match ranges wrapped in terminal
/// highlights (bold yellow if `use_colors`). Ranges are shifted by `off`
/// and need not be ordered; they are sorted by start offset first.
/// Renders `text` with the given ranges highlighted, in the order given.
#[verifier::rlimit(100)]
#[verifier::spinoff_prover]
fn render_exact(text: &[u8], sorted: Vec<(usize, usize)>, off: usize, use_colors: bool) -> (r: Vec<
    u8>)
    requires
        forall|k: int|
            0 <= k < sorted@.len() ==> (#[trigger] sorted@[k]).0 + off <= usize::MAX && sorted@[k].1
                + off <= usize::MAX,
    ensures
        r@ == spec_render(text@, sorted@, off as int, use_colors),
{
    let ghost s = sorted@;
    if sorted.len() == 0 {
        let r = crate::text::copy_range(text, 0, text.len());
        proof {
            assert(r@ =~= text@);
            assert(spec_render(text@, s, off as int, use_colors) == text@);
        }
        return r;
    }
    let pre: &[u8] = if use_colors {
        "\u{1b}[1;33m".as_bytes()
    } else {
        "".as_bytes()
    };
    let post: &[u8] = if use_colors {
        "\u{1b}[0m".as_bytes()
    } else {
        "".as_bytes()
    };
    proof {
        assert(pre@ == highlight_start(use_colors));
        assert(post@ == highlight_end(use_colors));
    }
    let tn = text.len();
    let n = sorted.len();
    let mut out: Vec<u8> = Vec::new();
    let mut last: usize = 0;
    let mut i: usize = 0;
    while i < n
        invariant
            i <= n,
            n == s.len(),
            sorted@ == s,
            tn == text@.len(),
            last <= tn,
            pre@ == highlight_start(use_colors),
            post@ == highlight_end(use_colors),
            forall|k: int|
                0 <= k < s.len() ==> (#[trigger] s[k]).0 + off <= usize::MAX && s[k].1 + off
                    <= usize::MAX,
            out@ + spec_render_from(text@, s, off as int, pre@, post@, i as int, last as int)
                == spec_render_from(text@, s, off as int, pre@, post@, 0, 0),
        decreases n - i,
    {
        let ghost out0 = out@;
        let ghost last0: int = last as int;
        let a = sorted[i].0 + off;
        let b = sorted[i].1 + off;
        let ghost gap = if a as int > last0 {
            clip(text@, last0, a as int)
        } else {
            Seq::<u8>::empty()
        };
        if a > last {
            crate::text::append_range(
                &mut out,
                text,
                last,
                if a > tn {
                    tn
                } else {
                    a
                },
            );
        }
        proof {
            if a as int > last0 {
                assert(gap =~= text@.subrange(
                    last0,
                    if a as int > tn as int {
                        tn as int
                    } else {
                        a as int
                    },
                ));
            }
            assert(out@ =~= out0 + gap);
        }
        crate::text::append_range(&mut out, pre, 0, pre.len());
        let lo2 = if a > tn {
            tn
        } else {
            a
        };
        let hi2 = if b > tn {
            tn
        } else if b < a {
            lo2
        } else {
            b
        };
        let ghost hl = clip(text@, a as int, b as int);
        crate::text::append_range(&mut out, text, lo2, hi2);
        proof {
            assert(hl =~= text@.subrange(lo2 as int, hi2 as int));
        }
        crate::text::append_range(&mut out, post, 0, post.len());
        proof {
            assert(pre@.subrange(0, pre@.len() as int) =~= pre@);
            assert(post@.subrange(0, post@.len() as int) =~= post@);
            assert(out@ =~= out0 + gap + pre@ + hl + post@);
        }
        let new_last = if b > tn {
            tn
        } else {
            b
        };
        proof {
            assert(spec_render_from(text@, s, off as int, pre@, post@, i as int, last0) == gap
                + pre@ + hl + post@ + spec_render_from(
                text@,
                s,
                off as int,
                pre@,
                post@,
                i + 1,
                new_last as int,
            ));
            assert(out@ + spec_render_from(
                text@,
                s,
                off as int,
                pre@,
                post@,
                i + 1,
                new_last as int,
            ) =~= out0 + spec_render_from(text@, s, off as int, pre@, post@, i as int, last0));
        }
        last = new_last;
        i = i + 1;
    }
    proof {
        assert(spec_render_from(text@, s, off as int, pre@, post@, n as int, last as int) == clip(
            text@,
            last as int,
            text@.len() as int,
        ));
        assert(clip(text@, last as int, text@.len() as int) =~= text@.subrange(
            last as int,
            text@.len() as int,
        ));
    }
    crate::text::append_range(&mut out, text, last, tn);
    proof {
        assert(out@ =~= spec_render_from(text@, s, off as int, pre@, post@, 0, 0));
        assert(spec_render(text@, s, off as int, use_colors) == out@);
    }
    out
}

/// Renders `text` with the given match ranges wrapped in terminal
/// highlights (bold yellow if `use_colors`). Ranges are shifted by `off`
/// and need not be ordered; they are sorted by start offset first.
pub fn render_ranges(text: &[u8], ranges: Vec<(usize, usize)>, off: usize, use_colors: bool) -> (r:
    Vec<u8>)
    requires
        forall|k: int|
            0 <= k < ranges@.len() ==> (#[trigger] ranges@[k]).0 + off <= usize::MAX && ranges@[k].1
                + off <= usize::MAX,
    ensures
        exists|s: Seq<(usize, usize)>|
            sorted_by_start(s) && s.to_multiset() == ranges@.to_multiset() && r@
                == #[trigger] spec_render(text@, s, off as int, use_colors),
{
    let ghost ranges0 = ranges@;
    let sorted = sort_ranges(ranges);
    proof {
        assert forall|k: int|
            0 <= k < sorted@.len() implies (#[trigger] sorted@[k]).0 + off <= usize::MAX
            && sorted@[k].1 + off <= usize::MAX by {
            assert(ranges0.contains(sorted@[k]));
            let m = choose|m: int| 0 <= m < ranges0.len() && ranges0[m] == sorted@[k];
        }
    }
    let ghost s = sorted@;
    let r = render_exact(text, sorted, off, use_colors);
    proof {
        assert(sorted_by_start(s) && s.to_multiset() == ranges0.to_multiset() && r@ == spec_render(
            text@,
            s,
            off as int,
            use_colors,
        ));
    }
    r
}

/// Renders a snippet fragment with its match ranges highlighted.
pub fn render_snippet_with_terminal_colors(text: &[u8], ranges: Vec<(usize, usize)>, use_colors:
    bool) -> (r: Vec<u8>)
    ensures
        exists|s: Seq<(usize, usize)>|
            sorted_by_start(s) && s.to_multiset() == ranges@.to_multiset() && r@
                == #[trigger] spec_render(text@, s, 0, use_colors),
{
    render_ranges(text, ranges, 0, use_colors)
}

/// Renders the full text of a stored field with match ranges highlighted;
/// the ranges are relative to the best-matching fragment, which begins at
/// byte `fragment_offset` of `content`.
pub fn highlight_content(
    content: &[u8],
    ranges: Vec<(usize, usize)>,
    fragment_offset: usize,
    use_colors: bool,
) -> (r: Vec<u8>)
    requires
        forall|k: int|
            0 <= k < ranges@.len() ==> (#[trigger] ranges@[k]).0 + fragment_offset <= usize::MAX
                && ranges@[k].1 + fragment_offset <= usize::MAX,
    ensures
        exists|s: Seq<(usize, usize)>|
            sorted_by_start(s) && s.to_multiset() == ranges@.to_multiset() && r@
                == #[trigger] spec_render(content@, s, fragment_offset as int, use_colors),
{
    render_ranges(content, ranges, fragment_offset, use_colors)
}

/// Position of the `k`-th newline of `s` at or after `i` (1-based), or the
/// length of `s` if there are fewer.
pub open spec fn nth_nl(s: Seq<u8>, k: int, i: int) -> int
    decreases s.len() - i,
{
    if i < 0 || i >= s.len() {
        s.len() as int
    } else if s[i] == 10 {
        if k <= 1 {
            i
        } else {
            nth_nl(s, k - 1, i + 1)
        }
    } else {
        nth_nl(s, k, i + 1)
    }
}

fn nth_newline(s: &[u8], k: usize) -> (r: usize)
    requires
        k >= 1,
    ensures
        r == nth_nl(s@, k as int, 0),
        r <= s@.len(),
{
    let n = s.len();
    let mut i: usize = 0;
    let mut rem: usize = k;
    while i < n
        invariant
            i <= n,
            n == s@.len(),
            rem >= 1,
            nth_nl(s@, k as int, 0) == nth_nl(s@, rem as int, i as int),
        decreases n - i,
    {
        if s[i] == 10 {
            if rem <= 1 {
                return i;
            }
            rem = rem - 1;
        }
        i = i + 1;
    }
    n
}

fn newline_count_prefix(s: &[u8], pos: usize) -> (r: usize)
    requires
        pos <= s@.len(),
    ensures
        r == crate::text::spec_newline_count(s@.subrange(0, pos as int)),
        r <= pos,
{
    let mut count: usize = 0;
    let mut i: usize = 0;
    while i < pos
        invariant
            i <= pos <= s@.len(),
            count == crate::text::spec_newline_count(s@.subrange(0, i as int)),
            count <= i,
        decreases pos - i,
    {
        if s[i] == 10 {
            count = count + 1;
        }
        proof {
            assert(s@.subrange(0, i + 1).drop_last() =~= s@.subrange(0, i as int));
        }
        i = i + 1;
    }
    count
}

/// Zero-based line index of byte `pos` in `content`.
pub open spec fn spec_line_of(content: Seq<u8>, pos: int) -> int {
    crate::text::spec_newline_count(clip(content, 0, pos))
}

/// First byte of the window of lines around the line of `pos`, reaching
/// `context` lines up (`context` is capped at the text length).
pub open spec fn spec_segment_lo(content: Seq<u8>, pos: int, context: int) -> int {
    let l = spec_line_of(content, pos);
    let c = if context > content.len() {
        content.len() as int
    } else {
        context
    };
    let tsl = if l > c {
        l - c
    } else {
        0
    };
    if tsl == 0 {
        0
    } else {
        let p = nth_nl(content, tsl, 0);
        if p >= content.len() {
            content.len() as int
        } else {
            p + 1
        }
    }
}

/// One past the last byte of the window of lines around the line of `pos`,
/// reaching `context` lines down; the closing newline is not part of the
/// window.
pub open spec fn spec_segment_hi(content: Seq<u8>, pos: int, context: int) -> int {
    let l = spec_line_of(content, pos);
    let c = if context > content.len() {
        content.len() as int
    } else {
        context
    };
    let k = if l + c + 1 > content.len() + 1 {
        content.len() as int + 1
    } else {
        l + c + 1
    };
    let raw = nth_nl(content, k, 0);
    if raw < spec_segment_lo(content, pos, context) {
        spec_segment_lo(content, pos, context)
    } else {
        raw
    }
}

/// The match ranges that fall inside the window `[lo, hi)` after shifting
/// by `off`, clipped to the window and re-based to its start.
pub open spec fn spec_adjust_ranges(
    ranges: Seq<(usize, usize)>,
    off: int,
    lo: int,
    hi: int,
    i: int,
) -> Seq<(usize, usize)>
    decreases ranges.len() - i,
{
    if i < 0 || i >= ranges.len() || lo > hi {
        Seq::empty()
    } else {
        let a = ranges[i].0 + off;
        let b = ranges[i].1 + off;
        let rest = spec_adjust_ranges(ranges, off, lo, hi, i + 1);
        if b <= lo || a >= hi || b <= a {
            rest
        } else {
            seq![
                (
                    (if a < lo {
                        0int
                    } else {
                        a - lo
                    }) as usize,
                    (if b > hi {
                        hi - lo
                    } else {
                        b - lo
                    }) as usize,
                ),
            ] + rest
        }
    }
}

fn adjust_ranges(ranges: &Vec<(usize, usize)>, off: usize, lo: usize, hi: usize) -> (r: Vec<
    (usize, usize)>)
    requires
        lo <= hi,
        forall|k: int|
            0 <= k < ranges@.len() ==> (#[trigger] ranges@[k]).0 + off <= usize::MAX && ranges@[k].1
                + off <= usize::MAX,
    ensures
        r@ == spec_adjust_ranges(ranges@, off as int, lo as int, hi as int, 0),
{
    let n = ranges.len();
    let mut r: Vec<(usize, usize)> = Vec::new();
    let mut i: usize = n;
    while i > 0
        invariant
            i <= n,
            n == ranges@.len(),
            lo <= hi,
            forall|k: int|
                0 <= k < ranges@.len() ==> (#[trigger] ranges@[k]).0 + off <= usize::MAX
                    && ranges@[k].1 + off <= usize::MAX,
            r@ == spec_adjust_ranges(ranges@, off as int, lo as int, hi as int, i as int),
        decreases i,
    {
        i = i - 1;
        let a = ranges[i].0 + off;
        let b = ranges[i].1 + off;
        if !(b <= lo || a >= hi || b <= a) {
            let na = if a < lo {
                0
            } else {
                a - lo
            };
            let nb = if b > hi {
                hi - lo
            } else {
                b - lo
            };
            let ghost r_old = r@;
            r.insert(0, (na, nb));
            proof {
                assert(r@ =~= seq![(na, nb)] + r_old);
            }
        }
    }
    r
}

/// Extracts the window of full source lines around the best-matching
/// fragment (`context_lines` above and below the line holding
/// `fragment_offset`) and highlights the match ranges that fall inside it.
pub fn extract_relevant_segment_with_context(
    content: &[u8],
    ranges: Vec<(usize, usize)>,
    fragment_offset: usize,
    context_lines: usize,
    use_colors: bool,
) -> (r: Vec<u8>)
    requires
        forall|k: int|
            0 <= k < ranges@.len() ==> (#[trigger] ranges@[k]).0 + fragment_offset <= usize::MAX
                && ranges@[k].1 + fragment_offset <= usize::MAX,
        content@.len() < usize::MAX,
    ensures
        ({
            let lo = spec_segment_lo(content@, fragment_offset as int, context_lines as int);
            let hi = spec_segment_hi(content@, fragment_offset as int, context_lines as int);
            exists|s: Seq<(usize, usize)>|
                sorted_by_start(s) && s.to_multiset() == ranges@.to_multiset() && r@
                    == #[trigger] spec_render(
                    clip(content@, lo, hi),
                    spec_adjust_ranges(s, fragment_offset as int, lo, hi, 0),
                    0,
                    use_colors,
                )
        }),
{
    let n = content.len();
    let pos = if fragment_offset > n {
        n
    } else {
        fragment_offset
    };
    let l = newline_count_prefix(content, pos);
    proof {
        assert(content@.subrange(0, pos as int) =~= clip(content@, 0, fragment_offset as int));
    }
    let c = if context_lines > n {
        n
    } else {
        context_lines
    };
    let tsl = if l > c {
        l - c
    } else {
        0
    };
    let seg_lo: usize = if tsl == 0 {
        0
    } else {
        let p = nth_newline(content, tsl);
        if p >= n {
            n
        } else {
            p + 1
        }
    };
    let k: usize = if c + 1 > n - l {
        n + 1
    } else {
        l + c + 1
    };
    let raw_hi: usize = nth_newline(content, k);
    let seg_hi: usize = if raw_hi < seg_lo {
        seg_lo
    } else {
        raw_hi
    };
    proof {
        assert(seg_lo as int == spec_segment_lo(content@, fragment_offset as int, context_lines as int));
        assert(seg_hi as int == spec_segment_hi(content@, fragment_offset as int, context_lines as int));
    }
    let segment = crate::text::copy_range(content, seg_lo, seg_hi);
    proof {
        assert(segment@ =~= clip(
            content@,
            spec_segment_lo(content@, fragment_offset as int, context_lines as int),
            spec_segment_hi(content@, fragment_offset as int, context_lines as int),
        ));
    }
    let ghost ranges0 = ranges@;
    let sorted = sort_ranges(ranges);
    proof {
        assert forall|kk: int|
            0 <= kk < sorted@.len() implies (#[trigger] sorted@[kk]).0 + fragment_offset
            <= usize::MAX && sorted@[kk].1 + fragment_offset <= usize::MAX by {
            assert(ranges0.contains(sorted@[kk]));
            let m = choose|m: int| 0 <= m < ranges0.len() && ranges0[m] == sorted@[kk];
        }
    }
    let adjusted = adjust_ranges(&sorted, fragment_offset, seg_lo, seg_hi);
    let r = render_exact(segment.as_slice(), adjusted, 0, use_colors);
    proof {
        let lo = spec_segment_lo(content@, fragment_offset as int, context_lines as int);
        let hi = spec_segment_hi(content@, fragment_offset as int, context_lines as int);
        assert(spec_adjust_ranges(sorted@, fragment_offset as int, lo, hi, 0) == adjusted@);
        assert(sorted_by_start(sorted@) && sorted@.to_multiset() == ranges0.to_multiset() && r@
            == spec_render(
            clip(content@, lo, hi),
            spec_adjust_ranges(sorted@, fragment_offset as int, lo, hi, 0),
            0,
            use_colors,
        ));
    }
    r
}

} // verus!
