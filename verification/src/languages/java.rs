//! The Java chunker: walks the parse tree with a stack of enclosing
//! containers, and emits one Class chunk per class/interface/record and one
//! Method chunk per named method or constructor. A method's declaration
//! carries the headers of its enclosing containers, so a hit on a method
//! shows where it lives.

use vstd::prelude::*;
use vstd::string::StringSliceAdditionalSpecFns;
use vstd::string::StrSliceExecFns;

use crate::chunk::ChunkType;
use crate::chunk::CodeChunk;
use crate::chunk::ChunkError;
use crate::chunk::LanguageProcessor;
use crate::chunk::chunks_sorted;
use crate::chunk::chunks_distinct;
use crate::chunk::count_type;
use crate::chunk::spec_dedup;
use crate::chunk::dedup_chunks;
use crate::chunk::lemma_dedup_sorted;
use crate::chunk::lemma_dedup_distinct;
use crate::chunk::lemma_dedup_elements;
use crate::syntax_tree::SyntaxNode;
use crate::syntax_tree::java_parse;
use crate::syntax_tree::parse_java_source;
use crate::syntax_tree::geometry_ok;
use crate::syntax_tree::braces_ok;
use crate::syntax_tree::OPEN_BRACE;
use crate::syntax_tree::CLOSE_BRACE;
use crate::text::append_range;
use crate::text::trim_end_vec;
use crate::text::clip;
use crate::text::spec_trim;
use crate::text::spec_trim_start;
use crate::text::spec_trim_end;
use crate::text::is_ws;
use crate::text::is_ws_byte;
use crate::text::bytes_eq;
use crate::text::copy_range;

verus! {

/// The families of grammar-rule names the walker distinguishes.
#[derive(Clone, Copy, Debug, PartialEq, Eq, Structural)]
pub enum KindSet {
    Identifier,
    ContainerBody,
    CallableBody,
    Comment,
}

/// A class, interface or record declaration.
pub open spec fn is_container(n: SyntaxNode) -> bool {
    ||| n.kind@ == "class_declaration".spec_bytes()
    ||| n.kind@ == "interface_declaration".spec_bytes()
    ||| n.kind@ == "record_declaration".spec_bytes()
}

/// A method or constructor declaration.
pub open spec fn is_callable(n: SyntaxNode) -> bool {
    ||| n.kind@ == "method_declaration".spec_bytes()
    ||| n.kind@ == "constructor_declaration".spec_bytes()
}

pub open spec fn in_kind_set(n: SyntaxNode, ks: KindSet) -> bool {
    match ks {
        KindSet::Identifier => n.kind@ == "identifier".spec_bytes(),
        KindSet::ContainerBody => n.kind@ == "class_body".spec_bytes() || n.kind@
            == "interface_body".spec_bytes() || n.kind@ == "record_body".spec_bytes(),
        KindSet::CallableBody => n.kind@ == "block".spec_bytes() || n.kind@
            == "constructor_body".spec_bytes(),
        KindSet::Comment => n.kind@ == "comment".spec_bytes() || n.kind@
            == "block_comment".spec_bytes() || n.kind@ == "line_comment".spec_bytes(),
    }
}

/// Index of the first node at or after `i` in `s` whose kind lies in `ks`.
pub open spec fn spec_find_child(s: Seq<SyntaxNode>, ks: KindSet, i: int) -> Option<int>
    decreases s.len() - i,
{
    if i < 0 || i >= s.len() {
        None
    } else if in_kind_set(s[i], ks) {
        Some(i)
    } else {
        spec_find_child(s, ks, i + 1)
    }
}

fn kind_is(n: &SyntaxNode, s: &str) -> (r: bool)
    ensures
        r == (n.kind@ == s.spec_bytes()),
{
    bytes_eq(n.kind.as_slice(), s.as_bytes())
}

/// Whether `n` is a class, interface or record declaration.
pub fn node_is_container(n: &SyntaxNode) -> (r: bool)
    ensures
        r == is_container(*n),
{
    kind_is(n, "class_declaration") || kind_is(n, "interface_declaration") || kind_is(
        n,
        "record_declaration",
    )
}

/// Whether `n` is a method or constructor declaration.
pub fn node_is_callable(n: &SyntaxNode) -> (r: bool)
    ensures
        r == is_callable(*n),
{
    kind_is(n, "method_declaration") || kind_is(n, "constructor_declaration")
}

fn node_in_kind_set(n: &SyntaxNode, ks: KindSet) -> (r: bool)
    ensures
        r == in_kind_set(*n, ks),
{
    match ks {
        KindSet::Identifier => kind_is(n, "identifier"),
        KindSet::ContainerBody => kind_is(n, "class_body") || kind_is(n, "interface_body")
            || kind_is(n, "record_body"),
        KindSet::CallableBody => kind_is(n, "block") || kind_is(n, "constructor_body"),
        KindSet::Comment => kind_is(n, "comment") || kind_is(n, "block_comment") || kind_is(
            n,
            "line_comment",
        ),
    }
}

/// Finds the first child whose kind lies in `ks`, and returns its index.
pub fn find_child_node(children: &Vec<SyntaxNode>, ks: KindSet) -> (r: Option<usize>)
    ensures
        match r {
            Some(i) => spec_find_child(children@, ks, 0) == Some(i as int) && i < children@.len(),
            None => spec_find_child(children@, ks, 0) is None,
        },
{
    let n = children.len();
    let mut i: usize = 0;
    while i < n
        invariant
            i <= n,
            n == children@.len(),
            spec_find_child(children@, ks, 0) == spec_find_child(children@, ks, i as int),
        decreases n - i,
    {
        if node_in_kind_set(&children[i], ks) {
            return Some(i);
        }
        i = i + 1;
    }
    None
}

/// The name of `n`: the text of its first `identifier` child.
pub open spec fn spec_node_name(n: SyntaxNode, content: Seq<u8>) -> Option<Seq<u8>> {
    match spec_find_child(n.children@, KindSet::Identifier, 0) {
        Some(i) => Some(
            clip(content, n.children@[i].start_byte as int, n.children@[i].end_byte as int),
        ),
        None => None,
    }
}

/// The name of a method or constructor; `None` for an unnamed callable.
pub fn get_method_name(n: &SyntaxNode, content: &[u8]) -> (r: Option<Vec<u8>>)
    requires
        n.wf(content@.len() as int),
    ensures
        match r {
            Some(v) => spec_node_name(*n, content@) == Some(v@),
            None => spec_node_name(*n, content@) is None,
        },
{
    match find_child_node(&n.children, KindSet::Identifier) {
        Some(i) => {
            proof {
                assert(n.children@[i as int].wf(content@.len() as int));
            }
            let c = &n.children[i];
            let v = copy_range(content, c.start_byte, c.end_byte);
            proof {
                assert(v@ =~= clip(content@, c.start_byte as int, c.end_byte as int));
            }
            Some(v)
        },
        None => None,
    }
}

/// The name of a container, or `Anonymous` if it has none.
pub fn get_container_name(n: &SyntaxNode, content: &[u8]) -> (r: Vec<u8>)
    requires
        n.wf(content@.len() as int),
    ensures
        match spec_node_name(*n, content@) {
            Some(s) => r@ == s,
            None => r@ == "Anonymous".spec_bytes(),
        },
{
    match get_method_name(n, content) {
        Some(v) => v,
        None => "Anonymous".as_bytes_vec(),
    }
}

/// Byte index where the line holding the start of `n` begins.
pub open spec fn line_start(n: SyntaxNode) -> int {
    n.start_byte - n.start_col
}

/// A chunk body: the brace-enclosed text trimmed, with the opening brace
/// stripped and the closing brace retained.
pub open spec fn spec_body_content(body_text: Seq<u8>) -> Seq<u8> {
    let t = spec_trim(body_text);
    if t.len() > 0 && t[0] == OPEN_BRACE {
        t.subrange(1, t.len() as int)
    } else {
        t
    }
}

/// Declaration and body of callable `n`: the declaration runs from the start
/// of the callable's first line through the opening brace of its body; the
/// body is everything inside the braces, closing brace retained. A callable
/// without a body keeps its full text as declaration and has an empty body.
pub open spec fn spec_split_callable(n: SyntaxNode, content: Seq<u8>) -> (Seq<u8>, Seq<u8>) {
    match spec_find_child(n.children@, KindSet::CallableBody, 0) {
        Some(bi) => {
            let body = n.children@[bi];
            (
                clip(content, line_start(n), body.start_byte + 1),
                spec_body_content(clip(content, body.start_byte as int, body.end_byte as int)),
            )
        },
        None => (clip(content, n.start_byte as int, n.end_byte as int), Seq::empty()),
    }
}

/// `v` trimmed of ASCII whitespace on both ends, then the opening brace (if
/// any) stripped.
fn body_content_vec(v: &[u8]) -> (r: Vec<u8>)
    ensures
        r@ == spec_body_content(v@),
{
    let n = v.len();
    proof {
        assert(v@.subrange(0, n as int) =~= v@);
    }
    let mut lo: usize = 0;
    while lo < n && is_ws_byte(v[lo])
        invariant
            lo <= n,
            n == v@.len(),
            spec_trim_start(v@) == spec_trim_start(v@.subrange(lo as int, n as int)),
        decreases n - lo,
    {
        proof {
            let s = v@.subrange(lo as int, n as int);
            assert(s[0] == v@[lo as int]);
            assert(s.subrange(1, s.len() as int) =~= v@.subrange(lo + 1, n as int));
        }
        lo = lo + 1;
    }
    proof {
        let s = v@.subrange(lo as int, n as int);
        if s.len() > 0 {
            assert(s[0] == v@[lo as int]);
        }
        assert(spec_trim_start(s) =~= s);
    }
    let mut hi: usize = n;
    while hi > lo && is_ws_byte(v[hi - 1])
        invariant
            lo <= hi <= n,
            n == v@.len(),
            spec_trim_start(v@) == spec_trim_start(v@.subrange(lo as int, n as int)),
            spec_trim_start(v@.subrange(lo as int, n as int)) == v@.subrange(lo as int, n as int),
            spec_trim_end(v@.subrange(lo as int, n as int)) == spec_trim_end(
                v@.subrange(lo as int, hi as int),
            ),
        decreases hi,
    {
        proof {
            let s = v@.subrange(lo as int, hi as int);
            assert(s.last() == v@[hi - 1]);
            assert(s.drop_last() =~= v@.subrange(lo as int, hi - 1));
        }
        hi = hi - 1;
    }
    proof {
        let s = v@.subrange(lo as int, hi as int);
        if s.len() > 0 {
            assert(s.last() == v@[hi - 1]);
        }
        assert(spec_trim_end(s) =~= s);
        assert(spec_trim(v@) == v@.subrange(lo as int, hi as int));
    }
    if lo < hi && v[lo] == OPEN_BRACE {
        proof {
            let t = spec_trim(v@);
            assert(t[0] == v@[lo as int]);
            assert(t.subrange(1, t.len() as int) =~= v@.subrange(lo + 1, hi as int));
        }
        copy_range(v, lo + 1, hi)
    } else {
        copy_range(v, lo, hi)
    }
}

/// Number of container nodes in the tree under `n`, not descending into
/// callables.
pub open spec fn containers_in(n: SyntaxNode) -> int
    decreases n, 1int,
{
    if is_callable(n) {
        0
    } else {
        (if is_container(n) {
            1int
        } else {
            0int
        }) + containers_in_list(n.children@, 0)
    }
}

pub open spec fn containers_in_list(s: Seq<SyntaxNode>, i: int) -> int
    decreases s, s.len() - i,
{
    if i < 0 || i >= s.len() {
        0
    } else {
        containers_in(s[i]) + containers_in_list(s, i + 1)
    }
}

/// Number of named callable nodes in the tree under `n`, not descending into
/// callables themselves.
pub open spec fn named_callables_in(n: SyntaxNode, content: Seq<u8>) -> int
    decreases n, 1int,
{
    if is_callable(n) {
        if spec_node_name(n, content) is Some {
            1
        } else {
            0
        }
    } else {
        named_callables_in_list(n.children@, content, 0)
    }
}

pub open spec fn named_callables_in_list(s: Seq<SyntaxNode>, content: Seq<u8>, i: int) -> int
    decreases s, s.len() - i,
{
    if i < 0 || i >= s.len() {
        0
    } else {
        named_callables_in(s[i], content) + named_callables_in_list(s, content, i + 1)
    }
}

/// The stored name of a container: its identifier, or `Anonymous`.
pub open spec fn spec_container_name(n: SyntaxNode, content: Seq<u8>) -> Seq<u8> {
    match spec_node_name(n, content) {
        Some(s) => s,
        None => "Anonymous".spec_bytes(),
    }
}

/// Number of container nodes under `n` named `nm`, not descending into
/// callables.
pub open spec fn containers_named_in(n: SyntaxNode, content: Seq<u8>, nm: Seq<u8>) -> int
    decreases n, 1int,
{
    if is_callable(n) {
        0
    } else {
        (if is_container(n) && spec_container_name(n, content) == nm {
            1int
        } else {
            0int
        }) + containers_named_in_list(n.children@, content, nm, 0)
    }
}

pub open spec fn containers_named_in_list(
    s: Seq<SyntaxNode>,
    content: Seq<u8>,
    nm: Seq<u8>,
    i: int,
) -> int
    decreases s, s.len() - i,
{
    if i < 0 || i >= s.len() {
        0
    } else {
        containers_named_in(s[i], content, nm) + containers_named_in_list(s, content, nm, i + 1)
    }
}

/// Number of callable nodes under `n` named `nm`, not descending into
/// callables themselves.
pub open spec fn callables_named_in(n: SyntaxNode, content: Seq<u8>, nm: Seq<u8>) -> int
    decreases n, 1int,
{
    if is_callable(n) {
        if spec_node_name(n, content) == Some(nm) {
            1
        } else {
            0
        }
    } else {
        callables_named_in_list(n.children@, content, nm, 0)
    }
}

pub open spec fn callables_named_in_list(
    s: Seq<SyntaxNode>,
    content: Seq<u8>,
    nm: Seq<u8>,
    i: int,
) -> int
    decreases s, s.len() - i,
{
    if i < 0 || i >= s.len() {
        0
    } else {
        callables_named_in(s[i], content, nm) + callables_named_in_list(s, content, nm, i + 1)
    }
}

/// Number of chunks of type `t` named `nm` in `s`.
pub open spec fn count_type_named(s: Seq<CodeChunk>, t: ChunkType, nm: Seq<u8>) -> int
    decreases s.len(),
{
    if s.len() == 0 {
        0
    } else {
        count_type_named(s.drop_last(), t, nm) + if s.last().chunk_type == t && s.last().name@
            == nm {
            1int
        } else {
            0int
        }
    }
}

proof fn lemma_count_named_push(s: Seq<CodeChunk>, c: CodeChunk, t: ChunkType, nm: Seq<u8>)
    ensures
        count_type_named(s.push(c), t, nm) == count_type_named(s, t, nm) + if c.chunk_type == t
            && c.name@ == nm {
            1int
        } else {
            0int
        },
{
    assert(s.push(c).drop_last() =~= s);
    assert(s.push(c).last() == c);
}

/// Splits a callable into its declaration (through the opening brace) and
/// its body (opening brace stripped, closing brace retained).
pub fn split_method_declaration_and_body(n: &SyntaxNode, content: &[u8]) -> (r: (Vec<u8>, Vec<u8>))
    requires
        n.wf(content@.len() as int),
    ensures
        (r.0@, r.1@) == spec_split_callable(*n, content@),
{
    match find_child_node(&n.children, KindSet::CallableBody) {
        Some(bi) => {
            proof {
                assert(n.children@[bi as int].wf(content@.len() as int));
            }
            let body = &n.children[bi];
            let ls = n.start_byte - n.start_col;
            let decl_hi = if body.start_byte < content.len() {
                body.start_byte + 1
            } else {
                content.len()
            };
            let decl = copy_range(content, ls, decl_hi);
            proof {
                assert(decl@ =~= clip(content@, line_start(*n), body.start_byte + 1));
            }
            let body_text = copy_range(content, body.start_byte, body.end_byte);
            proof {
                assert(body_text@ =~= clip(
                    content@,
                    body.start_byte as int,
                    body.end_byte as int,
                ));
            }
            let bc = body_content_vec(body_text.as_slice());
            (decl, bc)
        },
        None => {
            let decl = copy_range(content, n.start_byte, n.end_byte);
            proof {
                assert(decl@ =~= clip(content@, n.start_byte as int, n.end_byte as int));
            }
            (decl, Vec::new())
        },
    }
}

/// Witnesses that chunk `c` was cut from `content` at an opening brace:
/// `content[lo..mid]` is the callable's first half, `content[mid]` the
/// opening brace, and `content[mid+1..hi]` its body with the closing brace
/// at the end. The chunk's declaration ends with the first half and the
/// brace; what precedes them in the declaration is enclosing-container
/// context.
pub open spec fn callable_chunk_witness(
    c: CodeChunk,
    content: Seq<u8>,
    lo: int,
    mid: int,
    hi: int,
) -> bool {
    &&& 0 <= lo <= mid < hi <= content.len()
    &&& content[mid] == OPEN_BRACE
    &&& content[hi - 1] == CLOSE_BRACE
    &&& c.content@ == content.subrange(mid + 1, hi)
    &&& c.declaration@.len() >= mid + 1 - lo
    &&& c.declaration@.subrange(
        c.declaration@.len() - (mid + 1 - lo),
        c.declaration@.len() as int,
    ) == content.subrange(lo, mid + 1)
}

/// Witnesses that Class chunk `c` was cut at container body `body`:
/// `content[lo..body.start_byte]` is the container's header (from the line
/// where its leading comments start) and the opening brace follows; the
/// chunk's declaration ends with that header and brace, what precedes them
/// being enclosing-container context; and the chunk's content is the body
/// with every direct-child callable removed, closing brace retained.
pub open spec fn class_chunk_witness(
    c: CodeChunk,
    content: Seq<u8>,
    body: SyntaxNode,
    lo: int,
) -> bool {
    &&& in_kind_set(body, KindSet::ContainerBody)
    &&& 0 <= lo <= body.start_byte
    &&& body.start_byte + 2 <= body.end_byte <= content.len()
    &&& content[body.start_byte as int] == OPEN_BRACE
    &&& content[body.end_byte - 1] == CLOSE_BRACE
    &&& c.content@ == spec_strip_callables(
        body.children@,
        content,
        body.start_byte + 1,
        body.end_byte as int,
        0,
    )
    &&& c.declaration@.len() >= body.start_byte + 1 - lo
    &&& c.declaration@.subrange(
        c.declaration@.len() - (body.start_byte + 1 - lo),
        c.declaration@.len() as int,
    ) == content.subrange(lo, body.start_byte + 1)
}

/// A Class chunk with a body carries the container's header through its
/// opening brace at the end of its declaration, and the body with
/// direct-child callables removed as its content.
pub open spec fn class_chunk_ok(c: CodeChunk, content: Seq<u8>) -> bool {
    c.content@.len() > 0 ==> exists|body: SyntaxNode, lo: int|
        #[trigger] class_chunk_witness(c, content, body, lo)
}

/// The newline-joined container headers that stand above a method's own
/// declaration: each entry is a slice of the source.
pub open spec fn spec_hdr_join(content: Seq<u8>, hdrs: Seq<(int, int)>, i: int) -> Seq<u8>
    decreases hdrs.len() - i,
{
    if i < 0 || i >= hdrs.len() {
        Seq::empty()
    } else {
        (if i > 0 {
            seq![10u8]
        } else {
            Seq::empty()
        }) + clip(content, hdrs[i].0, hdrs[i].1) + spec_hdr_join(content, hdrs, i + 1)
    }
}

/// A container-header slice: within the text and, when nonempty, reaching
/// one byte past the container's opening brace.
pub open spec fn hdr_slice_ok(content: Seq<u8>, h: (int, int)) -> bool {
    &&& 0 <= h.0 <= h.1 <= content.len()
    &&& (h.0 < h.1 ==> h.1 >= 2 && content[h.1 - 2] == OPEN_BRACE)
}

proof fn lemma_hdr_join_push(content: Seq<u8>, h: Seq<(int, int)>, x: (int, int), i: int)
    requires
        0 <= i <= h.len(),
    ensures
        spec_hdr_join(content, h.push(x), i) == spec_hdr_join(content, h, i) + (if h.len() > 0 {
            seq![10u8]
        } else {
            Seq::<u8>::empty()
        }) + clip(content, x.0, x.1),
    decreases h.len() - i,
{
    if i == h.len() {
        assert(h.push(x)[i] == x);
        assert(spec_hdr_join(content, h.push(x), i + 1) =~= Seq::<u8>::empty());
        assert(spec_hdr_join(content, h, i) =~= Seq::<u8>::empty());
        if i > 0 {
            assert(spec_hdr_join(content, h.push(x), i) =~= spec_hdr_join(content, h, i) + seq![
                10u8,
            ] + clip(content, x.0, x.1));
        } else {
            assert(spec_hdr_join(content, h.push(x), i) =~= spec_hdr_join(content, h, i)
                + Seq::<u8>::empty() + clip(content, x.0, x.1));
        }
    } else {
        lemma_hdr_join_push(content, h, x, i + 1);
        assert(h.push(x)[i] == h[i]);
        assert(spec_hdr_join(content, h.push(x), i) =~= spec_hdr_join(content, h, i) + (if h.len()
            > 0 {
            seq![10u8]
        } else {
            Seq::<u8>::empty()
        }) + clip(content, x.0, x.1));
    }
}

/// Witnesses the full shape of a Method chunk's declaration: the headers of
/// its enclosing containers, outer to inner, joined with newlines — each a
/// source slice ending one byte past that container's opening brace — then
/// a slice of the callable's own source, trailing whitespace trimmed.
pub open spec fn method_decl_witness(
    c: CodeChunk,
    content: Seq<u8>,
    hdrs: Seq<(int, int)>,
    a: int,
    b: int,
) -> bool {
    &&& 0 <= a <= b <= content.len()
    &&& forall|k: int| 0 <= k < hdrs.len() ==> hdr_slice_ok(content, #[trigger] hdrs[k])
    &&& c.declaration@ == spec_trim_end(spec_hdr_join(content, hdrs, 0) + content.subrange(a, b))
}

/// Every Method chunk's declaration is built from its enclosing containers'
/// headers and the callable's own text.
pub open spec fn method_context_ok(c: CodeChunk, content: Seq<u8>) -> bool {
    exists|hdrs: Seq<(int, int)>, a: int, b: int|
        #[trigger] method_decl_witness(c, content, hdrs, a, b)
}

/// A Method chunk with a body splits its source at the opening brace:
/// declaration and content are the two halves, the brace ending the
/// declaration and the closing brace ending the content.
pub open spec fn callable_chunk_ok(c: CodeChunk, content: Seq<u8>) -> bool {
    c.content@.len() > 0 ==> exists|lo: int, mid: int, hi: int|
        #[trigger] callable_chunk_witness(c, content, lo, mid, hi)
}

/// The first `old_s.len()` chunks are unchanged.
pub open spec fn prefix_preserved(old_s: Seq<CodeChunk>, new_s: Seq<CodeChunk>) -> bool {
    &&& new_s.len() >= old_s.len()
    &&& new_s.subrange(0, old_s.len() as int) == old_s
}

/// Every chunk of `s` starts at or before line `row`.
pub open spec fn all_before(s: Seq<CodeChunk>, row: int) -> bool {
    forall|k: int| 0 <= k < s.len() ==> (#[trigger] s[k]).start_line <= row
}

/// What one walk step appends to the chunk list: the old chunks stay, the
/// new ones start between `lo_row` and `hi_row`, are Class or Method chunks,
/// and the Method chunks among them split cleanly at their opening brace.
pub open spec fn appended_ok(
    old_s: Seq<CodeChunk>,
    new_s: Seq<CodeChunk>,
    content: Seq<u8>,
    lo_row: int,
    hi_row: int,
) -> bool {
    &&& prefix_preserved(old_s, new_s)
    &&& forall|k: int|
        old_s.len() <= k < new_s.len() ==> lo_row <= (#[trigger] new_s[k]).start_line <= hi_row
    &&& forall|k: int|
        old_s.len() <= k < new_s.len() ==> ((#[trigger] new_s[k]).chunk_type == ChunkType::Class
            || new_s[k].chunk_type == ChunkType::Method)
    &&& forall|k: int|
        old_s.len() <= k < new_s.len() ==> (#[trigger] new_s[k]).start_line <= new_s[k].end_line
    &&& forall|k: int|
        old_s.len() <= k < new_s.len() && (#[trigger] new_s[k]).chunk_type == ChunkType::Method
            ==> callable_chunk_ok(new_s[k], content)
    &&& forall|k: int|
        old_s.len() <= k < new_s.len() && (#[trigger] new_s[k]).chunk_type == ChunkType::Class
            ==> class_chunk_ok(new_s[k], content)
    &&& forall|k: int|
        old_s.len() <= k < new_s.len() && (#[trigger] new_s[k]).chunk_type == ChunkType::Method
            ==> method_context_ok(new_s[k], content)
}

proof fn lemma_count_push(s: Seq<CodeChunk>, c: CodeChunk, t: ChunkType)
    ensures
        count_type(s.push(c), t) == count_type(s, t) + if c.chunk_type == t {
            1int
        } else {
            0int
        },
{
    assert(s.push(c).drop_last() =~= s);
    assert(s.push(c).last() == c);
}

/// Appends `content[lo..hi]` to `dst`, forcing the bounds into range.
fn append_clipped(dst: &mut Vec<u8>, content: &[u8], lo: usize, hi: usize)
    ensures
        final(dst)@ == old(dst)@ + clip(content@, lo as int, hi as int),
{
    let n = content.len();
    let l = if lo > n {
        n
    } else {
        lo
    };
    let h = if hi < l {
        l
    } else if hi > n {
        n
    } else {
        hi
    };
    append_range(dst, content, l, h);
    proof {
        assert(clip(content@, lo as int, hi as int) =~= content@.subrange(l as int, h as int));
    }
}

/// The body of container `n` with every direct-child method and constructor
/// removed; the closing brace stays.
pub open spec fn spec_strip_callables(
    children: Seq<SyntaxNode>,
    content: Seq<u8>,
    cursor: int,
    end: int,
    i: int,
) -> Seq<u8>
    decreases children.len() - i,
{
    if i < 0 || i >= children.len() {
        clip(content, cursor, end)
    } else if is_callable(children[i]) {
        clip(content, cursor, children[i].start_byte as int) + spec_strip_callables(
            children,
            content,
            children[i].end_byte as int,
            end,
            i + 1,
        )
    } else {
        spec_strip_callables(children, content, cursor, end, i + 1)
    }
}

fn strip_callables(body_children: &Vec<SyntaxNode>, content: &[u8], start: usize, end: usize) -> (r:
    Vec<u8>)
    ensures
        r@ == spec_strip_callables(body_children@, content@, start as int, end as int, 0),
{
    let n = body_children.len();
    let mut r: Vec<u8> = Vec::new();
    let mut cursor: usize = start;
    let mut i: usize = 0;
    while i < n
        invariant
            i <= n,
            n == body_children@.len(),
            r@ + spec_strip_callables(body_children@, content@, cursor as int, end as int, i as int)
                == spec_strip_callables(body_children@, content@, start as int, end as int, 0),
        decreases n - i,
    {
        let c = &body_children[i];
        if node_is_callable(c) {
            append_clipped(&mut r, content, cursor, c.start_byte);
            cursor = c.end_byte;
        }
        i = i + 1;
    }
    append_clipped(&mut r, content, cursor, end);
    r
}

/// Header slices of one enclosing container, precomputed when the walk
/// enters it: `hdr` is the slice put above a method's declaration (from the
/// line where the container's leading comments start, through its opening
/// brace and the byte after it); `cmp` is the compact one-line form put
/// above a nested Class chunk (from the container's own line, through its
/// opening brace).
struct ContainerCtx {
    hdr_lo: usize,
    hdr_hi: usize,
    cmp_lo: usize,
    cmp_hi: usize,
}

/// The header range of a stack entry is a valid header slice.
spec fn ctx_ok(c: ContainerCtx, content: Seq<u8>) -> bool {
    hdr_slice_ok(content, (c.hdr_lo as int, c.hdr_hi as int))
}

proof fn lemma_find_child_found(s: Seq<SyntaxNode>, ks: KindSet, j: int, i: int)
    requires
        spec_find_child(s, ks, j) == Some(i),
    ensures
        j <= i < s.len() && in_kind_set(s[i], ks),
    decreases s.len() - j,
{
    if j < 0 || j >= s.len() {
    } else if in_kind_set(s[j], ks) {
    } else {
        lemma_find_child_found(s, ks, j + 1, i);
    }
}

proof fn lemma_sorted_push(s: Seq<CodeChunk>, c: CodeChunk)
    requires
        chunks_sorted(s),
        all_before(s, c.start_line as int),
    ensures
        chunks_sorted(s.push(c)),
{
    assert forall|i: int, j: int| 0 <= i < j < s.push(c).len() implies #[trigger] s.push(c)[i].start_line
        <= #[trigger] s.push(c)[j].start_line by {
        if j < s.len() {
            assert(s[i].start_line <= s[j].start_line);
        } else {
            assert(s[i].start_line <= c.start_line);
        }
    }
}

proof fn lemma_appended_trans(
    a: Seq<CodeChunk>,
    b: Seq<CodeChunk>,
    c: Seq<CodeChunk>,
    content: Seq<u8>,
    lo: int,
    hi: int,
    lo2: int,
    hi2: int,
)
    requires
        appended_ok(a, b, content, lo, hi),
        appended_ok(b, c, content, lo2, hi2),
        lo <= lo2,
        hi2 <= hi,
    ensures
        appended_ok(a, c, content, lo, hi),
{
    assert forall|k: int| 0 <= k < b.len() implies c[k] == b[k] by {
        assert(c.subrange(0, b.len() as int)[k] == c[k]);
        assert(b[k] == c.subrange(0, b.len() as int)[k]);
    }
    assert(c.subrange(0, a.len() as int) =~= a);
    assert forall|k: int| a.len() <= k < c.len() implies lo <= (#[trigger] c[k]).start_line <= hi by {
        if k < b.len() {
            assert(c[k] == b[k]);
            assert(lo <= b[k].start_line <= hi);
        }
    }
    assert forall|k: int|
        a.len() <= k < c.len() implies ((#[trigger] c[k]).chunk_type == ChunkType::Class || c[k].chunk_type
        == ChunkType::Method) by {
        if k < b.len() {
            assert(c[k] == b[k]);
        }
    }
    assert forall|k: int|
        a.len() <= k < c.len() implies (#[trigger] c[k]).start_line <= c[k].end_line by {
        if k < b.len() {
            assert(c[k] == b[k]);
        }
    }
    assert forall|k: int|
        a.len() <= k < c.len() && (#[trigger] c[k]).chunk_type == ChunkType::Method implies callable_chunk_ok(
        c[k],
        content,
    ) by {
        if k < b.len() {
            assert(c[k] == b[k]);
        }
    }
    assert forall|k: int|
        a.len() <= k < c.len() && (#[trigger] c[k]).chunk_type == ChunkType::Class implies class_chunk_ok(
        c[k],
        content,
    ) by {
        if k < b.len() {
            assert(c[k] == b[k]);
        }
    }
    assert forall|k: int|
        a.len() <= k < c.len() && (#[trigger] c[k]).chunk_type == ChunkType::Method implies method_context_ok(
        c[k],
        content,
    ) by {
        if k < b.len() {
            assert(c[k] == b[k]);
        }
    }
}

/// Emits the chunks of the subtree under `node`, in source order. `stack`
/// holds the header slices of the containers enclosing `node`; `comment_lo`
/// is the byte where the line of `node`'s leading comment block starts (or
/// of `node`'s own line, when no comments precede it).
fn collect_chunks_recursively(
    node: &SyntaxNode,
    content: &[u8],
    comment_lo: usize,
    stack: &mut Vec<ContainerCtx>,
    chunks: &mut Vec<CodeChunk>,
)
    requires
        node.wf(content@.len() as int),
        node.braced(content@),
        comment_lo <= node.start_byte,
        forall|t: int| 0 <= t < old(stack)@.len() ==> ctx_ok(#[trigger] old(stack)@[t], content@),
        chunks_sorted(old(chunks)@),
        all_before(old(chunks)@, node.start_row as int),
    ensures
        final(stack)@ == old(stack)@,
        chunks_sorted(final(chunks)@),
        all_before(final(chunks)@, node.end_row as int),
        appended_ok(
            old(chunks)@,
            final(chunks)@,
            content@,
            node.start_row as int,
            node.end_row as int,
        ),
        count_type(final(chunks)@, ChunkType::Class) == count_type(old(chunks)@, ChunkType::Class)
            + containers_in(*node),
        count_type(final(chunks)@, ChunkType::Method) == count_type(
            old(chunks)@,
            ChunkType::Method,
        ) + named_callables_in(*node, content@),
        forall|nm: Seq<u8>|
            #[trigger] count_type_named(final(chunks)@, ChunkType::Class, nm) == count_type_named(
                old(chunks)@,
                ChunkType::Class,
                nm,
            ) + containers_named_in(*node, content@, nm),
        forall|nm: Seq<u8>|
            #[trigger] count_type_named(final(chunks)@, ChunkType::Method, nm) == count_type_named(
                old(chunks)@,
                ChunkType::Method,
                nm,
            ) + callables_named_in(*node, content@, nm),
    decreases *node, 1int,
{
    let ghost chunks0 = chunks@;
    let ghost stack0 = stack@;
    if node_is_callable(node) {
        match get_method_name(node, content) {
            Some(name) => {
                let mut decl: Vec<u8> = Vec::new();
                let ghost hdrs = stack@.map_values(
                    |c: ContainerCtx| (c.hdr_lo as int, c.hdr_hi as int),
                );
                let slen = stack.len();
                let mut k: usize = 0;
                proof {
                    assert(decl@ =~= spec_hdr_join(content@, hdrs.subrange(0, 0), 0));
                }
                while k < slen
                    invariant
                        k <= slen,
                        slen == stack@.len(),
                        stack@ == stack0,
                        chunks@ == chunks0,
                        hdrs.len() == stack@.len(),
                        forall|t: int|
                            0 <= t < hdrs.len() ==> #[trigger] hdrs[t] == (
                                stack@[t].hdr_lo as int,
                                stack@[t].hdr_hi as int,
                            ),
                        decl@ == spec_hdr_join(content@, hdrs.subrange(0, k as int), 0),
                    decreases slen - k,
                {
                    if k > 0 {
                        decl.push(10u8);
                    }
                    append_clipped(&mut decl, content, stack[k].hdr_lo, stack[k].hdr_hi);
                    proof {
                        lemma_hdr_join_push(
                            content@,
                            hdrs.subrange(0, k as int),
                            hdrs[k as int],
                            0,
                        );
                        assert(hdrs.subrange(0, k as int).push(hdrs[k as int]) =~= hdrs.subrange(
                            0,
                            k + 1,
                        ));
                        assert(decl@ =~= spec_hdr_join(content@, hdrs.subrange(0, k + 1), 0));
                    }
                    k = k + 1;
                }
                let ghost prefix = decl@;
                proof {
                    assert(hdrs.subrange(0, slen as int) =~= hdrs);
                    assert(prefix == spec_hdr_join(content@, hdrs, 0));
                    assert forall|t: int| 0 <= t < hdrs.len() implies hdr_slice_ok(
                        content@,
                        #[trigger] hdrs[t],
                    ) by {
                        assert(ctx_ok(old(stack)@[t], content@));
                        assert(stack0[t] == old(stack)@[t]);
                    }
                }
                let (mut mdecl, mbody) = split_method_declaration_and_body(node, content);
                let ghost mdecl_v = mdecl@;
                decl.append(&mut mdecl);
                trim_end_vec(&mut decl);
                let chunk = CodeChunk {
                    start_line: node.start_row,
                    end_line: node.end_row,
                    chunk_type: ChunkType::Method,
                    name,
                    content: mbody,
                    declaration: decl,
                };
                proof {
                    match spec_find_child(node.children@, KindSet::CallableBody, 0) {
                        Some(bi) => {
                            lemma_find_child_found(node.children@, KindSet::CallableBody, 0, bi);
                            assert(node.children@[bi].wf(content@.len() as int));
                            assert(node.children@[bi].braced(content@));
                            let b = node.children@[bi];
                            let ls = line_start(*node);
                            let body_text = clip(content@, b.start_byte as int, b.end_byte as int);
                            assert(body_text =~= content@.subrange(
                                b.start_byte as int,
                                b.end_byte as int,
                            ));
                            assert(body_text[0] == content@[b.start_byte as int]);
                            assert(!is_ws(body_text[0]));
                            assert(spec_trim_start(body_text) == body_text);
                            assert(body_text.last() == content@[b.end_byte - 1]);
                            assert(!is_ws(body_text.last()));
                            assert(spec_trim_end(body_text) == body_text);
                            assert(spec_trim(body_text) == body_text);
                            assert(chunk.content@ =~= content@.subrange(
                                b.start_byte + 1,
                                b.end_byte as int,
                            ));
                            assert(mdecl_v =~= content@.subrange(ls, b.start_byte + 1));
                            assert(mdecl_v.len() >= 1);
                            assert(mdecl_v.last() == content@[b.start_byte as int]);
                            assert(!is_ws((prefix + mdecl_v).last()));
                            assert(spec_trim_end(prefix + mdecl_v) == prefix + mdecl_v);
                            assert(chunk.declaration@ == prefix + mdecl_v);
                            assert(chunk.declaration@.subrange(
                                prefix.len() as int,
                                chunk.declaration@.len() as int,
                            ) =~= mdecl_v);
                            assert(callable_chunk_witness(
                                chunk,
                                content@,
                                ls,
                                b.start_byte as int,
                                b.end_byte as int,
                            ));
                            assert(callable_chunk_ok(chunk, content@));
                            assert(method_decl_witness(
                                chunk,
                                content@,
                                hdrs,
                                ls,
                                b.start_byte + 1,
                            ));
                            assert(method_context_ok(chunk, content@));
                        },
                        None => {
                            assert(chunk.content@.len() == 0);
                            assert(callable_chunk_ok(chunk, content@));
                            assert(mdecl_v =~= content@.subrange(
                                node.start_byte as int,
                                node.end_byte as int,
                            ));
                            assert(chunk.declaration@ == spec_trim_end(prefix + mdecl_v));
                            assert(method_decl_witness(
                                chunk,
                                content@,
                                hdrs,
                                node.start_byte as int,
                                node.end_byte as int,
                            ));
                            assert(method_context_ok(chunk, content@));
                        },
                    }
                    lemma_sorted_push(chunks@, chunk);
                    lemma_count_push(chunks@, chunk, ChunkType::Class);
                    lemma_count_push(chunks@, chunk, ChunkType::Method);
                }
                chunks.push(chunk);
                proof {
                    assert(chunks@.subrange(0, chunks0.len() as int) =~= chunks0);
                    assert(chunks@ =~= chunks0.push(chunk));
                    assert forall|nm: Seq<u8>|
                        #[trigger] count_type_named(chunks@, ChunkType::Class, nm)
                            == count_type_named(chunks0, ChunkType::Class, nm)
                            + containers_named_in(*node, content@, nm) by {
                        lemma_count_named_push(chunks0, chunk, ChunkType::Class, nm);
                    }
                    assert forall|nm: Seq<u8>|
                        #[trigger] count_type_named(chunks@, ChunkType::Method, nm)
                            == count_type_named(chunks0, ChunkType::Method, nm)
                            + callables_named_in(*node, content@, nm) by {
                        lemma_count_named_push(chunks0, chunk, ChunkType::Method, nm);
                    }
                }
            },
            None => {
                proof {
                    assert(chunks@.subrange(0, chunks0.len() as int) =~= chunks0);
                }
            },
        }
    } else if node_is_container(node) {
        let name = get_container_name(node, content);
        let mut decl: Vec<u8> = Vec::new();
        let slen = stack.len();
        let mut k: usize = 0;
        while k < slen
            invariant
                k <= slen,
                slen == stack@.len(),
                stack@ == stack0,
                chunks@ == chunks0,
            decreases slen - k,
        {
            append_clipped(&mut decl, content, stack[k].cmp_lo, stack[k].cmp_hi);
            decl.push(10u8);
            k = k + 1;
        }
        let ls = node.start_byte - node.start_col;
        let body_idx = find_child_node(&node.children, KindSet::ContainerBody);
        let ghost prefix_len = decl@.len();
        let ctx;
        let cls_content;
        match body_idx {
            Some(bi) => {
                proof {
                    lemma_find_child_found(
                        node.children@,
                        KindSet::ContainerBody,
                        0,
                        bi as int,
                    );
                    assert(node.children@[bi as int].wf(content@.len() as int));
                    assert(node.children@[bi as int].braced(content@));
                }
                let b = &node.children[bi];
                append_clipped(&mut decl, content, comment_lo, b.start_byte + 1);
                proof {
                    assert(clip(content@, comment_lo as int, b.start_byte + 1)
                        =~= content@.subrange(comment_lo as int, b.start_byte + 1));
                }
                cls_content = strip_callables(&b.children, content, b.start_byte + 1, b.end_byte);
                ctx = ContainerCtx {
                    hdr_lo: comment_lo,
                    hdr_hi: b.start_byte + 2,
                    cmp_lo: ls,
                    cmp_hi: b.start_byte + 1,
                };
            },
            None => {
                append_clipped(&mut decl, content, comment_lo, node.end_byte);
                cls_content = Vec::new();
                ctx = ContainerCtx { hdr_lo: comment_lo, hdr_hi: comment_lo, cmp_lo: ls, cmp_hi: ls };
            },
        }
        let chunk = CodeChunk {
            start_line: node.start_row,
            end_line: node.end_row,
            chunk_type: ChunkType::Class,
            name,
            content: cls_content,
            declaration: decl,
        };
        proof {
            match spec_find_child(node.children@, KindSet::ContainerBody, 0) {
                Some(bi) => {
                    lemma_find_child_found(node.children@, KindSet::ContainerBody, 0, bi);
                    assert(node.children@[bi].wf(content@.len() as int));
                    assert(node.children@[bi].braced(content@));
                    let b = node.children@[bi];
                    assert(chunk.declaration@.subrange(
                        prefix_len as int,
                        chunk.declaration@.len() as int,
                    ) =~= content@.subrange(comment_lo as int, b.start_byte + 1));
                    assert(class_chunk_witness(chunk, content@, b, comment_lo as int));
                    assert(class_chunk_ok(chunk, content@));
                },
                None => {
                    assert(chunk.content@.len() == 0);
                    assert(class_chunk_ok(chunk, content@));
                },
            }
            lemma_sorted_push(chunks@, chunk);
            lemma_count_push(chunks@, chunk, ChunkType::Class);
            lemma_count_push(chunks@, chunk, ChunkType::Method);
        }
        let ghost chunkg = chunk;
        chunks.push(chunk);
        proof {
            assert(chunks@.subrange(0, chunks0.len() as int) =~= chunks0);
            assert(chunks@ =~= chunks0.push(chunkg));
        }
        let ghost chunks1 = chunks@;
        proof {
            assert(ctx_ok(ctx, content@)) by {
                match spec_find_child(node.children@, KindSet::ContainerBody, 0) {
                    Some(bi) => {
                        assert(node.children@[bi].braced(content@));
                    },
                    None => {},
                }
            }
        }
        stack.push(ctx);
        proof {
            assert forall|t: int| 0 <= t < stack@.len() implies ctx_ok(
                #[trigger] stack@[t],
                content@,
            ) by {
                if t < stack0.len() {
                    assert(stack@[t] == stack0[t]);
                } else {
                    assert(stack@[t] == ctx);
                }
            }
        }
        traverse_children(node, content, stack, chunks);
        let _ = stack.pop();
        proof {
            assert(stack@ =~= stack0);
            lemma_appended_trans(
                chunks0,
                chunks1,
                chunks@,
                content@,
                node.start_row as int,
                node.end_row as int,
                node.start_row as int,
                node.end_row as int,
            );
            assert forall|nm: Seq<u8>|
                #[trigger] count_type_named(chunks@, ChunkType::Class, nm) == count_type_named(
                    chunks0,
                    ChunkType::Class,
                    nm,
                ) + containers_named_in(*node, content@, nm) by {
                lemma_count_named_push(chunks0, chunkg, ChunkType::Class, nm);
            }
            assert forall|nm: Seq<u8>|
                #[trigger] count_type_named(chunks@, ChunkType::Method, nm) == count_type_named(
                    chunks0,
                    ChunkType::Method,
                    nm,
                ) + callables_named_in(*node, content@, nm) by {
                lemma_count_named_push(chunks0, chunkg, ChunkType::Method, nm);
            }
        }
    } else {
        traverse_children(node, content, stack, chunks);
    }
}

/// Walks every child of `node` in order, scanning for the comment block that
/// leads each child.
fn traverse_children(
    node: &SyntaxNode,
    content: &[u8],
    stack: &mut Vec<ContainerCtx>,
    chunks: &mut Vec<CodeChunk>,
)
    requires
        node.wf(content@.len() as int),
        node.braced(content@),
        forall|t: int| 0 <= t < old(stack)@.len() ==> ctx_ok(#[trigger] old(stack)@[t], content@),
        chunks_sorted(old(chunks)@),
        all_before(old(chunks)@, node.start_row as int),
    ensures
        final(stack)@ == old(stack)@,
        chunks_sorted(final(chunks)@),
        all_before(final(chunks)@, node.end_row as int),
        appended_ok(
            old(chunks)@,
            final(chunks)@,
            content@,
            node.start_row as int,
            node.end_row as int,
        ),
        count_type(final(chunks)@, ChunkType::Class) == count_type(old(chunks)@, ChunkType::Class)
            + containers_in_list(node.children@, 0),
        count_type(final(chunks)@, ChunkType::Method) == count_type(
            old(chunks)@,
            ChunkType::Method,
        ) + named_callables_in_list(node.children@, content@, 0),
        forall|nm: Seq<u8>|
            #[trigger] count_type_named(final(chunks)@, ChunkType::Class, nm) == count_type_named(
                old(chunks)@,
                ChunkType::Class,
                nm,
            ) + containers_named_in_list(node.children@, content@, nm, 0),
        forall|nm: Seq<u8>|
            #[trigger] count_type_named(final(chunks)@, ChunkType::Method, nm) == count_type_named(
                old(chunks)@,
                ChunkType::Method,
                nm,
            ) + callables_named_in_list(node.children@, content@, nm, 0),
    decreases *node, 0int,
{
    let ghost chunks0 = chunks@;
    let ghost stack0 = stack@;
    proof {
        assert(chunks@.subrange(0, chunks0.len() as int) =~= chunks0);
    }
    let n = node.children.len();
    let mut i: usize = 0;
    while i < n
        invariant
            i <= n,
            n == node.children@.len(),
            node.wf(content@.len() as int),
            node.braced(content@),
            stack@ == stack0,
            forall|t: int| 0 <= t < stack@.len() ==> ctx_ok(#[trigger] stack@[t], content@),
            chunks_sorted(chunks@),
            appended_ok(chunks0, chunks@, content@, node.start_row as int, node.end_row as int),
            all_before(
                chunks@,
                if i < n {
                    node.children@[i as int].start_row as int
                } else {
                    node.end_row as int
                },
            ),
            count_type(chunks@, ChunkType::Class) == count_type(chunks0, ChunkType::Class)
                + containers_in_list(node.children@, 0) - containers_in_list(
                node.children@,
                i as int,
            ),
            count_type(chunks@, ChunkType::Method) == count_type(chunks0, ChunkType::Method)
                + named_callables_in_list(node.children@, content@, 0) - named_callables_in_list(
                node.children@,
                content@,
                i as int,
            ),
            forall|nm: Seq<u8>|
                #[trigger] count_type_named(chunks@, ChunkType::Class, nm) == count_type_named(
                    chunks0,
                    ChunkType::Class,
                    nm,
                ) + containers_named_in_list(node.children@, content@, nm, 0)
                    - containers_named_in_list(node.children@, content@, nm, i as int),
            forall|nm: Seq<u8>|
                #[trigger] count_type_named(chunks@, ChunkType::Method, nm) == count_type_named(
                    chunks0,
                    ChunkType::Method,
                    nm,
                ) + callables_named_in_list(node.children@, content@, nm, 0)
                    - callables_named_in_list(node.children@, content@, nm, i as int),
        decreases n - i,
    {
        let mut j: usize = i;
        while j > 0 && node_in_kind_set(&node.children[j - 1], KindSet::Comment)
            invariant
                j <= i,
                i < n,
                n == node.children@.len(),
                node.wf(content@.len() as int),
            decreases j,
        {
            j = j - 1;
        }
        proof {
            assert(node.children@[j as int].wf(content@.len() as int));
            assert(node.children@[i as int].wf(content@.len() as int));
            assert(node.children@[i as int].braced(content@));
        }
        let cnode = &node.children[j];
        let comment_lo = cnode.start_byte - cnode.start_col;
        proof {
            if j < i {
                assert(node.children@[j as int].end_byte <= node.children@[i as int].start_byte);
            }
            assert(comment_lo <= node.children@[i as int].start_byte);
        }
        let ghost chunks_pre = chunks@;
        collect_chunks_recursively(&node.children[i], content, comment_lo, stack, chunks);
        proof {
            let ch = node.children@;
            let child = ch[i as int];
            lemma_appended_trans(
                chunks0,
                chunks_pre,
                chunks@,
                content@,
                node.start_row as int,
                node.end_row as int,
                child.start_row as int,
                child.end_row as int,
            );
            if i + 1 < n {
                assert(ch[i as int].end_row <= ch[i + 1].start_row);
            }
            assert(containers_in_list(ch, i as int) == containers_in(child) + containers_in_list(
                ch,
                i + 1,
            ));
            assert(named_callables_in_list(ch, content@, i as int) == named_callables_in(
                child,
                content@,
            ) + named_callables_in_list(ch, content@, i + 1));
            assert forall|nm: Seq<u8>|
                #[trigger] count_type_named(chunks@, ChunkType::Class, nm) == count_type_named(
                    chunks0,
                    ChunkType::Class,
                    nm,
                ) + containers_named_in_list(ch, content@, nm, 0) - containers_named_in_list(
                    ch,
                    content@,
                    nm,
                    i + 1,
                ) by {
                assert(containers_named_in_list(ch, content@, nm, i as int)
                    == containers_named_in(child, content@, nm) + containers_named_in_list(
                    ch,
                    content@,
                    nm,
                    i + 1,
                ));
            }
            assert forall|nm: Seq<u8>|
                #[trigger] count_type_named(chunks@, ChunkType::Method, nm) == count_type_named(
                    chunks0,
                    ChunkType::Method,
                    nm,
                ) + callables_named_in_list(ch, content@, nm, 0) - callables_named_in_list(
                    ch,
                    content@,
                    nm,
                    i + 1,
                ) by {
                assert(callables_named_in_list(ch, content@, nm, i as int) == callables_named_in(
                    child,
                    content@,
                    nm,
                ) + callables_named_in_list(ch, content@, nm, i + 1));
            }
        }
        i = i + 1;
    }
}

/// Declaration/content split of a callable chunk: the declaration ends at
/// the body's opening brace and the content ends at the matching closing
/// brace, so stripping the closing brace from the content and the
/// opening-brace terminator from the declaration's tail yields the two
/// halves of the callable split at its opening brace, and tail and content
/// together rebuild the callable's source text from the start of its line.
pub proof fn lemma_callable_split_reconstruction(
    c: CodeChunk,
    content: Seq<u8>,
    lo: int,
    mid: int,
    hi: int,
)
    requires
        callable_chunk_witness(c, content, lo, mid, hi),
        c.content@.len() > 0,
    ensures
        c.declaration@.last() == OPEN_BRACE,
        c.content@.last() == CLOSE_BRACE,
        c.declaration@.subrange(
            c.declaration@.len() - (mid + 1 - lo),
            c.declaration@.len() - 1,
        ) == content.subrange(lo, mid),
        c.content@.drop_last() == content.subrange(mid + 1, hi - 1),
        c.declaration@.subrange(c.declaration@.len() - (mid + 1 - lo), c.declaration@.len() as int)
            + c.content@ == content.subrange(lo, hi),
{
    let d = c.declaration@;
    let tail = d.subrange(d.len() - (mid + 1 - lo), d.len() as int);
    assert(tail == content.subrange(lo, mid + 1));
    assert(d.last() == tail.last());
    assert(tail.last() == content[mid]);
    assert(c.content@.last() == content[hi - 1]);
    assert(d.subrange(d.len() - (mid + 1 - lo), d.len() - 1) =~= content.subrange(lo, mid));
    assert(c.content@.drop_last() =~= content.subrange(mid + 1, hi - 1));
    assert(tail + c.content@ =~= content.subrange(lo, hi));
}

/// The contract of Java chunking against the parse tree: chunks come in
/// source order, are Class or Method chunks, number one Class chunk per
/// container and one Method chunk per named callable, every chunk's line
/// span ordered, and every Method chunk with a body splitting its source
/// text at the opening brace.
pub open spec fn java_chunks_ok(chunks: Seq<CodeChunk>, root: SyntaxNode, content: Seq<u8>) -> bool {
    &&& chunks_sorted(chunks)
    &&& forall|k: int|
        0 <= k < chunks.len() ==> (#[trigger] chunks[k]).start_line <= chunks[k].end_line
    &&& count_type(chunks, ChunkType::Class) == containers_in(root)
    &&& count_type(chunks, ChunkType::Method) == named_callables_in(root, content)
    &&& forall|nm: Seq<u8>|
        #[trigger] count_type_named(chunks, ChunkType::Class, nm) == containers_named_in(
            root,
            content,
            nm,
        )
    &&& forall|nm: Seq<u8>|
        #[trigger] count_type_named(chunks, ChunkType::Method, nm) == callables_named_in(
            root,
            content,
            nm,
        )
    &&& forall|k: int|
        0 <= k < chunks.len() ==> ((#[trigger] chunks[k]).chunk_type == ChunkType::Class
            || chunks[k].chunk_type == ChunkType::Method)
    &&& forall|k: int|
        0 <= k < chunks.len() && (#[trigger] chunks[k]).chunk_type == ChunkType::Method
            ==> callable_chunk_ok(chunks[k], content)
    &&& forall|k: int|
        0 <= k < chunks.len() && (#[trigger] chunks[k]).chunk_type == ChunkType::Class
            ==> class_chunk_ok(chunks[k], content)
}

/// What chunking a Java file returns: the walk's chunk list (which meets
/// `java_chunks_ok` against the parse tree) with duplicate identical chunks
/// removed, so the result is in source order, with ordered line spans, no
/// identical pair, only Class and Method chunks, and every Method chunk
/// with a body splitting its source at the opening brace.
pub open spec fn java_chunks_deduped_ok(
    chunks: Seq<CodeChunk>,
    root: SyntaxNode,
    content: Seq<u8>,
) -> bool {
    &&& chunks_sorted(chunks)
    &&& chunks_distinct(chunks)
    &&& forall|k: int|
        0 <= k < chunks.len() ==> (#[trigger] chunks[k]).start_line <= chunks[k].end_line
    &&& forall|k: int|
        0 <= k < chunks.len() ==> ((#[trigger] chunks[k]).chunk_type == ChunkType::Class
            || chunks[k].chunk_type == ChunkType::Method)
    &&& forall|k: int|
        0 <= k < chunks.len() && (#[trigger] chunks[k]).chunk_type == ChunkType::Method
            ==> callable_chunk_ok(chunks[k], content)
    &&& forall|k: int|
        0 <= k < chunks.len() && (#[trigger] chunks[k]).chunk_type == ChunkType::Class
            ==> class_chunk_ok(chunks[k], content)
    &&& forall|k: int|
        0 <= k < chunks.len() && (#[trigger] chunks[k]).chunk_type == ChunkType::Method
            ==> method_context_ok(chunks[k], content)
    &&& exists|raw: Seq<CodeChunk>|
        #[trigger] java_chunks_ok(raw, root, content) && chunks == spec_dedup(raw)
}

/// Chunks a Java source file: one Class chunk per class, interface or
/// record, one Method chunk per named method or constructor, in source
/// order, duplicates removed. Fails exactly when the parser produces no
/// tree, or one whose geometry the verified checks reject.
pub fn chunk_java(content: &str) -> (r: Result<Vec<CodeChunk>, ChunkError>)
    ensures
        match java_parse(content.spec_bytes()) {
            Some(root) => if root.wf(content.spec_bytes().len() as int) && root.braced(
                content.spec_bytes(),
            ) {
                r matches Ok(chunks) && java_chunks_deduped_ok(
                    chunks@,
                    root,
                    content.spec_bytes(),
                )
            } else {
                r == Err::<Vec<CodeChunk>, ChunkError>(ChunkError::ParseFailed)
            },
            None => r == Err::<Vec<CodeChunk>, ChunkError>(ChunkError::ParseFailed),
        },
{
    let bytes = content.as_bytes();
    match parse_java_source(bytes) {
        Some(root) => {
            if !(geometry_ok(&root, bytes.len()) && braces_ok(&root, bytes)) {
                return Err(ChunkError::ParseFailed);
            }
            let mut stack: Vec<ContainerCtx> = Vec::new();
            let mut chunks: Vec<CodeChunk> = Vec::new();
            let ls = root.start_byte - root.start_col;
            collect_chunks_recursively(&root, bytes, ls, &mut stack, &mut chunks);
            let ghost raw = chunks@;
            let result = dedup_chunks(chunks);
            proof {
                assert(java_chunks_ok(raw, root, bytes@));
                lemma_dedup_sorted(raw);
                lemma_dedup_distinct(raw);
                lemma_dedup_elements(raw);
                assert forall|k: int| 0 <= k < result@.len() implies {
                    &&& (#[trigger] result@[k]).start_line <= result@[k].end_line
                    &&& (result@[k].chunk_type == ChunkType::Class || result@[k].chunk_type
                        == ChunkType::Method)
                    &&& (result@[k].chunk_type == ChunkType::Method ==> callable_chunk_ok(
                        result@[k],
                        bytes@,
                    ))
                    &&& (result@[k].chunk_type == ChunkType::Class ==> class_chunk_ok(
                        result@[k],
                        bytes@,
                    ))
                    &&& (result@[k].chunk_type == ChunkType::Method ==> method_context_ok(
                        result@[k],
                        bytes@,
                    ))
                } by {
                    let m = choose|m: int| 0 <= m < raw.len() && result@[k] == raw[m];
                    assert(raw[m].start_line <= raw[m].end_line);
                }
            }
            Ok(result)
        },
        None => Err(ChunkError::ParseFailed),
    }
}

/// The Java language chunker.
pub struct JavaProcessor {}

impl JavaProcessor {
    /// Makes a Java chunker; a fresh parser is created per parse, so this
    /// cannot fail.
    pub fn new() -> (r: Result<JavaProcessor, ChunkError>)
        ensures
            r is Ok,
    {
        Ok(JavaProcessor {  })
    }
}

impl LanguageProcessor for JavaProcessor {
    fn get_file_extensions(&self) -> &[&'static str] {
        &["java"]
    }

    fn chunk_code(&mut self, content: &str) -> (r: Result<Vec<CodeChunk>, ChunkError>) {
        chunk_java(content)
    }
}

} // verus!
