//! The per-file rules of the indexing pipeline: the size and line-length
//! caps that silently skip a file, and the construction of the documents
//! that one file contributes to the index.

use vstd::prelude::*;
use vstd::string::StringSliceAdditionalSpecFns;

use crate::chunk::ChunkType;
use crate::chunk::CodeChunk;
use crate::text::spec_line_count;
use crate::text::line_count;

verus! {

/// Hard cap on an indexable file's size in bytes (512 KiB).
pub const MAX_FILE_SIZE: usize = 524288;

/// Hard cap on the length of a single line in bytes (8 KiB).
pub const MAX_LINE_LENGTH: usize = 8192;

/// No newline byte occurs in `s[a..b)`.
pub open spec fn newline_free(s: Seq<u8>, a: int, b: int) -> bool {
    forall|k: int| a <= k < b ==> s[k] != 10
}

/// A stretch of more than `limit` bytes without a newline: some line of
/// `s` is longer than `limit`.
pub open spec fn has_long_line(s: Seq<u8>, limit: int) -> bool {
    exists|a: int, b: int|
        0 <= a <= b <= s.len() && b - a > limit && #[trigger] newline_free(s, a, b)
}

/// Whether the pipeline indexes a file with this content: it must not
/// exceed the size cap and must not contain a line longer than the line
/// cap. Files failing this are skipped silently.
pub fn file_passes_limits(content: &[u8]) -> (r: bool)
    ensures
        r == (content@.len() <= MAX_FILE_SIZE && !has_long_line(content@, MAX_LINE_LENGTH as int)),
{
    let n = content.len();
    if n > MAX_FILE_SIZE {
        return false;
    }
    let mut i: usize = 0;
    let mut run: usize = 0;
    while i < n
        invariant
            i <= n,
            n == content@.len(),
            run <= i,
            run <= MAX_LINE_LENGTH,
            newline_free(content@, i - run, i as int),
            run < i ==> content@[i - run - 1] == 10,
            forall|a: int, b: int|
                0 <= a <= b <= i && b - a > MAX_LINE_LENGTH ==> !(#[trigger] newline_free(
                    content@,
                    a,
                    b,
                )),
        decreases n - i,
    {
        let ghost run0 = run as int;
        if content[i] == 10 {
            run = 0;
        } else {
            if run == MAX_LINE_LENGTH {
                proof {
                    assert(newline_free(content@, i - run, i + 1));
                    assert(has_long_line(content@, MAX_LINE_LENGTH as int));
                }
                return false;
            }
            run = run + 1;
        }
        proof {
            assert forall|a: int, b: int|
                0 <= a <= b <= i + 1 && b - a > MAX_LINE_LENGTH implies !(#[trigger] newline_free(
                content@,
                a,
                b,
            )) by {
                if b <= i {
                } else if content@[i as int] == 10 {
                    assert(content@[b - 1] == 10);
                    assert(!newline_free(content@, a, b));
                } else if newline_free(content@, a, b) {
                    assert(b == i + 1);
                    assert(run0 + 1 <= MAX_LINE_LENGTH);
                    assert(a <= i - run0 - 1);
                    if run0 < i {
                        assert(content@[i - run0 - 1] == 10);
                        assert(a <= i - run0 - 1 < b);
                        assert(false);
                    } else {
                        assert(run0 == i);
                        assert(a < 0);
                        assert(false);
                    }
                }
            }
        }
        i = i + 1;
    }
    true
}

/// One document of the index: the stored and indexed fields of one chunk
/// (or of one whole unchunked file).
#[derive(Clone, Debug)]
pub struct IndexDocument {
    pub path: String,
    pub declaration: Vec<u8>,
    pub body: Vec<u8>,
    pub filetype: Vec<u8>,
    pub chunk_type: String,
    pub chunk_name: Vec<u8>,
    pub start_line: u64,
    pub end_line: u64,
}

/// The stored name of a chunk type.
pub open spec fn spec_type_label(t: ChunkType) -> Seq<char> {
    match t {
        ChunkType::Function => "Function"@,
        ChunkType::Method => "Method"@,
        ChunkType::Class => "Class"@,
        ChunkType::Struct => "Struct"@,
        ChunkType::Interface => "Interface"@,
        ChunkType::Module => "Module"@,
        ChunkType::Other => "Other"@,
    }
}

/// The stored name of a chunk type, as the index writes it.
pub fn type_label(t: ChunkType) -> (r: String)
    ensures
        r@ == spec_type_label(t),
{
    match t {
        ChunkType::Function => "Function".to_owned(),
        ChunkType::Method => "Method".to_owned(),
        ChunkType::Class => "Class".to_owned(),
        ChunkType::Struct => "Struct".to_owned(),
        ChunkType::Interface => "Interface".to_owned(),
        ChunkType::Module => "Module".to_owned(),
        ChunkType::Other => "Other".to_owned(),
    }
}

/// What one chunk contributes to the index.
pub open spec fn doc_matches_chunk(d: IndexDocument, path: Seq<char>, ext: Seq<u8>, c: CodeChunk) -> bool {
    &&& d.path@ == path
    &&& d.declaration@ == c.declaration@
    &&& d.body@ == c.content@
    &&& d.filetype@ == ext
    &&& d.chunk_type@ == spec_type_label(c.chunk_type)
    &&& d.chunk_name@ == c.name@
    &&& d.start_line == c.start_line as u64
    &&& d.end_line == c.end_line as u64
}

/// What a chunkless file contributes: one document holding the whole file
/// under the pseudo-type `file`, with an empty declaration and name.
pub open spec fn doc_matches_whole_file(
    d: IndexDocument,
    path: Seq<char>,
    ext: Seq<u8>,
    content: Seq<u8>,
) -> bool {
    &&& d.path@ == path
    &&& d.declaration@.len() == 0
    &&& d.body@ == content
    &&& d.filetype@ == ext
    &&& d.chunk_type@ == "file"@
    &&& d.chunk_name@.len() == 0
    &&& d.start_line == 0
    &&& d.end_line == if spec_line_count(content) > 0 {
        spec_line_count(content) - 1
    } else {
        0
    }
}

/// Builds the documents a file contributes to the index: one per chunk, or
/// one whole-file document when the chunker produced none.
pub fn build_documents(path: &str, ext: &[u8], content: &[u8], chunks: &Vec<CodeChunk>) -> (r: Vec<
    IndexDocument>)
    requires
        content@.len() < u64::MAX,
    ensures
        chunks@.len() > 0 ==> r@.len() == chunks@.len() && (forall|k: int|
            0 <= k < r@.len() ==> doc_matches_chunk(#[trigger] r@[k], path@, ext@, chunks@[k])),
        chunks@.len() == 0 ==> r@.len() == 1 && doc_matches_whole_file(
            r@[0],
            path@,
            ext@,
            content@,
        ),
{
    let n = chunks.len();
    let mut r: Vec<IndexDocument> = Vec::new();
    if n == 0 {
        let lines = line_count(content);
        let end_line: u64 = if lines > 0 {
            (lines - 1) as u64
        } else {
            0
        };
        r.push(
            IndexDocument {
                path: path.to_owned(),
                declaration: Vec::new(),
                body: vstd::slice::slice_to_vec(content),
                filetype: vstd::slice::slice_to_vec(ext),
                chunk_type: "file".to_owned(),
                chunk_name: Vec::new(),
                start_line: 0,
                end_line,
            },
        );
        return r;
    }
    let mut i: usize = 0;
    while i < n
        invariant
            i <= n,
            n == chunks@.len(),
            r@.len() == i,
            forall|k: int|
                0 <= k < i ==> doc_matches_chunk(#[trigger] r@[k], path@, ext@, chunks@[k]),
        decreases n - i,
    {
        let c = &chunks[i];
        r.push(
            IndexDocument {
                path: path.to_owned(),
                declaration: vstd::slice::slice_to_vec(c.declaration.as_slice()),
                body: vstd::slice::slice_to_vec(c.content.as_slice()),
                filetype: vstd::slice::slice_to_vec(ext),
                chunk_type: type_label(c.chunk_type),
                chunk_name: vstd::slice::slice_to_vec(c.name.as_slice()),
                start_line: c.start_line as u64,
                end_line: c.end_line as u64,
            },
        );
        i = i + 1;
    }
    r
}

} // verus!
