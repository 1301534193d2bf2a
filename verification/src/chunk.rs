//! The unit of indexing: a syntactically meaningful region of a source file,
//! with its header (`declaration`) and its body (`content`) kept apart.

use vstd::prelude::*;

verus! {

/// What kind of construct a chunk covers.
#[derive(Clone, Copy, Debug, PartialEq, Eq, Structural)]
pub enum ChunkType {
    Function,
    Method,
    Class,
    Struct,
    Interface,
    Module,
    Other,
}

/// One indexable unit of a source file.
///
/// `start_line` and `end_line` are zero-based and inclusive. `declaration`
/// holds the construct's header through the opening brace of its body (with
/// the headers of enclosing containers prepended); `content` holds the body
/// with the opening brace stripped and the closing brace retained. Text is
/// kept as bytes of the original file, so byte offsets from the parse tree
/// stay meaningful.
#[derive(Clone, Debug)]
pub struct CodeChunk {
    pub start_line: usize,
    pub end_line: usize,
    pub chunk_type: ChunkType,
    pub name: Vec<u8>,
    pub content: Vec<u8>,
    pub declaration: Vec<u8>,
}

/// Why a file could not be chunked.
#[derive(Clone, Copy, Debug, PartialEq, Eq, Structural)]
pub enum ChunkError {
    /// The parser produced no tree for the file.
    ParseFailed,
}

/// Chunks are listed in source order: their start lines never decrease.
pub open spec fn chunks_sorted(s: Seq<CodeChunk>) -> bool {
    forall|i: int, j: int|
        0 <= i < j < s.len() ==> #[trigger] s[i].start_line <= #[trigger] s[j].start_line
}

/// Number of chunks of type `t` in `s`.
pub open spec fn count_type(s: Seq<CodeChunk>, t: ChunkType) -> int
    decreases s.len(),
{
    if s.len() == 0 {
        0
    } else {
        count_type(s.drop_last(), t) + if s.last().chunk_type == t {
            1int
        } else {
            0int
        }
    }
}

/// Two chunks are identical: every field agrees.
pub open spec fn chunk_same(a: CodeChunk, b: CodeChunk) -> bool {
    &&& a.start_line == b.start_line
    &&& a.end_line == b.end_line
    &&& a.chunk_type == b.chunk_type
    &&& a.name@ == b.name@
    &&& a.content@ == b.content@
    &&& a.declaration@ == b.declaration@
}

/// No two chunks of `s` are identical.
pub open spec fn chunks_distinct(s: Seq<CodeChunk>) -> bool {
    forall|i: int, j: int| 0 <= i < j < s.len() ==> !chunk_same(#[trigger] s[i], #[trigger] s[j])
}

/// The chunk at `i` repeats an earlier one.
pub open spec fn has_earlier_same(s: Seq<CodeChunk>, i: int) -> bool {
    exists|j: int| 0 <= j < i && i < s.len() && chunk_same(#[trigger] s[j], s[i])
}

/// `s` with every chunk that repeats an earlier one removed; first
/// occurrences stay, in order.
pub open spec fn spec_dedup(s: Seq<CodeChunk>) -> Seq<CodeChunk>
    decreases s.len(),
{
    if s.len() == 0 {
        Seq::empty()
    } else {
        let prev = spec_dedup(s.drop_last());
        if has_earlier_same(s, s.len() - 1) {
            prev
        } else {
            prev.push(s.last())
        }
    }
}

/// Every deduplicated chunk is one of the originals.
pub proof fn lemma_dedup_elements(s: Seq<CodeChunk>)
    ensures
        forall|k: int|
            0 <= k < spec_dedup(s).len() ==> exists|m: int|
                0 <= m < s.len() && #[trigger] spec_dedup(s)[k] == s[m],
    decreases s.len(),
{
    if s.len() > 0 {
        lemma_dedup_elements(s.drop_last());
        let prev = spec_dedup(s.drop_last());
        assert forall|k: int| 0 <= k < spec_dedup(s).len() implies exists|m: int|
            0 <= m < s.len() && #[trigger] spec_dedup(s)[k] == s[m] by {
            if k < prev.len() {
                let m = choose|m: int| 0 <= m < s.drop_last().len() && prev[k] == s.drop_last()[m];
                assert(s.drop_last()[m] == s[m]);
                assert(spec_dedup(s)[k] == prev[k]);
            } else {
                assert(spec_dedup(s)[k] == s.last());
                assert(spec_dedup(s)[k] == s[s.len() - 1]);
            }
        }
    }
}

/// Every original chunk has an identical representative among the
/// deduplicated ones.
pub proof fn lemma_dedup_represents(s: Seq<CodeChunk>)
    ensures
        forall|j: int|
            #![trigger s[j]]
            0 <= j < s.len() ==> exists|k: int|
                0 <= k < spec_dedup(s).len() && chunk_same(#[trigger] spec_dedup(s)[k], s[j]),
    decreases s.len(),
{
    if s.len() > 0 {
        lemma_dedup_represents(s.drop_last());
        let prev = spec_dedup(s.drop_last());
        assert forall|j: int| #![trigger s[j]] 0 <= j < s.len() implies exists|k: int|
            0 <= k < spec_dedup(s).len() && chunk_same(#[trigger] spec_dedup(s)[k], s[j]) by {
            if j < s.len() - 1 {
                assert(s.drop_last()[j] == s[j]);
                let k = choose|k: int|
                    0 <= k < prev.len() && chunk_same(prev[k], s.drop_last()[j]);
                assert(spec_dedup(s)[k] == prev[k]);
            } else {
                if has_earlier_same(s, s.len() - 1) {
                    let e = choose|e: int|
                        0 <= e < s.len() - 1 && chunk_same(#[trigger] s[e], s[s.len() - 1]);
                    assert(s.drop_last()[e] == s[e]);
                    let k = choose|k: int|
                        0 <= k < prev.len() && chunk_same(prev[k], s.drop_last()[e]);
                    assert(chunk_same(spec_dedup(s)[k], s[j]));
                } else {
                    assert(spec_dedup(s)[prev.len() as int] == s.last());
                    assert(chunk_same(spec_dedup(s)[prev.len() as int], s[j]));
                }
            }
        }
    }
}

/// Deduplication leaves no identical pair.
pub proof fn lemma_dedup_distinct(s: Seq<CodeChunk>)
    ensures
        chunks_distinct(spec_dedup(s)),
    decreases s.len(),
{
    if s.len() > 0 {
        lemma_dedup_distinct(s.drop_last());
        lemma_dedup_elements(s.drop_last());
        let prev = spec_dedup(s.drop_last());
        assert forall|i: int, j: int| 0 <= i < j < spec_dedup(s).len() implies !chunk_same(
            #[trigger] spec_dedup(s)[i],
            #[trigger] spec_dedup(s)[j],
        ) by {
            if j < prev.len() {
                assert(spec_dedup(s)[i] == prev[i] && spec_dedup(s)[j] == prev[j]);
            } else {
                assert(spec_dedup(s)[j] == s.last());
                assert(spec_dedup(s)[i] == prev[i]);
                if chunk_same(prev[i], s.last()) {
                    let m = choose|m: int|
                        0 <= m < s.drop_last().len() && prev[i] == s.drop_last()[m];
                    assert(s.drop_last()[m] == s[m]);
                    assert(chunk_same(s[m], s[s.len() - 1]));
                    assert(has_earlier_same(s, s.len() - 1));
                    assert(false);
                }
            }
        }
    }
}

/// Deduplication keeps the source order.
pub proof fn lemma_dedup_sorted(s: Seq<CodeChunk>)
    requires
        chunks_sorted(s),
    ensures
        chunks_sorted(spec_dedup(s)),
    decreases s.len(),
{
    if s.len() > 0 {
        assert(chunks_sorted(s.drop_last())) by {
            assert forall|i: int, j: int| 0 <= i < j < s.drop_last().len() implies (
            #[trigger] s.drop_last()[i]).start_line <= (#[trigger] s.drop_last()[j]).start_line by {
                assert(s.drop_last()[i] == s[i] && s.drop_last()[j] == s[j]);
            }
        }
        lemma_dedup_sorted(s.drop_last());
        lemma_dedup_elements(s.drop_last());
        let prev = spec_dedup(s.drop_last());
        assert forall|i: int, j: int| 0 <= i < j < spec_dedup(s).len() implies (
        #[trigger] spec_dedup(s)[i]).start_line <= (#[trigger] spec_dedup(s)[j]).start_line by {
            if j < prev.len() {
                assert(spec_dedup(s)[i] == prev[i] && spec_dedup(s)[j] == prev[j]);
            } else {
                assert(spec_dedup(s)[j] == s.last());
                assert(spec_dedup(s)[i] == prev[i]);
                let m = choose|m: int| 0 <= m < s.drop_last().len() && prev[i] == s.drop_last()[m];
                assert(s.drop_last()[m] == s[m]);
                assert(s[m].start_line <= s[s.len() - 1].start_line);
            }
        }
    }
}

/// Whether two chunks are identical.
pub fn chunk_eq(a: &CodeChunk, b: &CodeChunk) -> (r: bool)
    ensures
        r == chunk_same(*a, *b),
{
    a.start_line == b.start_line && a.end_line == b.end_line && a.chunk_type == b.chunk_type
        && crate::text::bytes_eq(a.name.as_slice(), b.name.as_slice()) && crate::text::bytes_eq(
        a.content.as_slice(),
        b.content.as_slice(),
    ) && crate::text::bytes_eq(a.declaration.as_slice(), b.declaration.as_slice())
}

fn contains_same(out: &Vec<CodeChunk>, c: &CodeChunk) -> (r: bool)
    ensures
        r == exists|k: int| 0 <= k < out@.len() && chunk_same(#[trigger] out@[k], *c),
{
    let n = out.len();
    let mut i: usize = 0;
    while i < n
        invariant
            i <= n,
            n == out@.len(),
            forall|k: int| 0 <= k < i ==> !chunk_same(#[trigger] out@[k], *c),
        decreases n - i,
    {
        if chunk_eq(&out[i], c) {
            proof {
                assert(chunk_same(out@[i as int], *c));
            }
            return true;
        }
        i = i + 1;
    }
    false
}

/// Removes every chunk that repeats an earlier identical one, keeping first
/// occurrences in order.
pub fn dedup_chunks(chunks: Vec<CodeChunk>) -> (r: Vec<CodeChunk>)
    ensures
        r@ == spec_dedup(chunks@),
{
    let ghost s0 = chunks@;
    let mut rest = chunks;
    let total = rest.len();
    let mut out: Vec<CodeChunk> = Vec::new();
    let mut i: usize = 0;
    proof {
        assert(rest@ =~= s0.subrange(0, s0.len() as int).subrange(0, s0.len() as int));
        assert(rest@ =~= s0.subrange(i as int, s0.len() as int));
        assert(s0.subrange(0, 0) =~= Seq::<CodeChunk>::empty());
    }
    while rest.len() > 0
        invariant
            total == s0.len(),
            i + rest@.len() == s0.len(),
            rest@ == s0.subrange(i as int, s0.len() as int),
            out@ == spec_dedup(s0.subrange(0, i as int)),
        decreases rest@.len(),
    {
        let ghost rest_before = rest@;
        let c = rest.remove(0);
        proof {
            assert(rest_before[0] == s0[i as int]);
            assert(rest@ =~= s0.subrange(i + 1, s0.len() as int));
        }
        let dup = contains_same(&out, &c);
        proof {
            let pre = s0.subrange(0, i as int);
            let pre1 = s0.subrange(0, i + 1);
            assert(pre1.drop_last() =~= pre);
            assert(pre1.last() == s0[i as int]);
            if dup {
                let k = choose|k: int| 0 <= k < out@.len() && chunk_same(out@[k], c);
                lemma_dedup_elements(pre);
                let m = choose|m: int| 0 <= m < pre.len() && out@[k] == pre[m];
                assert(pre[m] == s0[m]);
                assert(pre1[m] == s0[m] && pre1[i as int] == s0[i as int]);
                assert(chunk_same(pre1[m], pre1[i as int]));
                assert(has_earlier_same(pre1, i as int));
            } else {
                if has_earlier_same(pre1, i as int) {
                    let j = choose|j: int|
                        0 <= j < i && i < pre1.len() && chunk_same(pre1[j], pre1[i as int]);
                    assert(pre1[j] == s0[j] && pre[j] == s0[j]);
                    lemma_dedup_represents(pre);
                    let k = choose|k: int|
                        0 <= k < spec_dedup(pre).len() && chunk_same(spec_dedup(pre)[k], pre[j]);
                    assert(chunk_same(out@[k], c));
                    assert(false);
                }
            }
        }
        if !dup {
            out.push(c);
        }
        proof {
            let pre = s0.subrange(0, i as int);
            let pre1 = s0.subrange(0, i + 1);
            assert(spec_dedup(pre1.drop_last()) == spec_dedup(pre));
            assert(out@ == spec_dedup(pre1));
        }
        i = i + 1;
    }
    proof {
        assert(s0.subrange(0, i as int) =~= s0);
    }
    out
}

/// A language-specific chunker: lists the file extensions it handles and
/// splits a file's text into chunks, in source order.
pub trait LanguageProcessor: Sized {
    /// The file extensions this processor handles.
    fn get_file_extensions(&self) -> &[&'static str];

    /// Chunks the given code content for indexing.
    fn chunk_code(&mut self, content: &str) -> (r: Result<Vec<CodeChunk>, ChunkError>)
        ensures
            r matches Ok(chunks) ==> chunks_sorted(chunks@),
    ;
}

} // verus!
