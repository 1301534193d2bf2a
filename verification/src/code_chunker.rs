//! Dispatches a file to the chunker of its language by file extension. Files
//! of unsupported extensions become a single whole-file chunk, or nothing if
//! they hold only whitespace.

use vstd::prelude::*;
use vstd::string::StringSliceAdditionalSpecFns;
use vstd::string::StrSliceExecFns;

use crate::chunk::ChunkType;
use crate::chunk::CodeChunk;
use crate::chunk::ChunkError;
use crate::languages::java::JavaProcessor;
use crate::languages::java::chunk_java;
use crate::languages::java::java_chunks_deduped_ok;
use crate::syntax_tree::java_parse;
use vstd::std_specs::iter::IteratorSpec;
use crate::text::spec_line_count;
use crate::text::line_count;

verus! {

/// Index of the last occurrence of byte `b` in `s`, or `-1`.
pub open spec fn last_byte_pos(s: Seq<u8>, b: u8) -> int
    decreases s.len(),
{
    if s.len() == 0 {
        -1
    } else if s.last() == b {
        s.len() - 1
    } else {
        last_byte_pos(s.drop_last(), b)
    }
}

/// The extension of a path: what follows the final dot of the final path
/// component, or empty if that component has no dot past its first byte.
pub open spec fn spec_extension(path: Seq<u8>) -> Seq<u8> {
    let name = path.subrange(last_byte_pos(path, 47) + 1, path.len() as int);
    let d = last_byte_pos(name, 46);
    if d <= 0 {
        Seq::empty()
    } else {
        name.subrange(d + 1, name.len() as int)
    }
}

proof fn lemma_last_byte_pos_bounds(s: Seq<u8>, b: u8)
    ensures
        -1 <= last_byte_pos(s, b) < s.len(),
        last_byte_pos(s, b) >= 0 ==> s[last_byte_pos(s, b)] == b,
        forall|k: int| last_byte_pos(s, b) < k < s.len() ==> s[k] != b,
    decreases s.len(),
{
    if s.len() > 0 && s.last() != b {
        lemma_last_byte_pos_bounds(s.drop_last(), b);
        assert forall|k: int| last_byte_pos(s, b) < k < s.len() implies s[k] != b by {
            if k < s.len() - 1 {
                assert(s.drop_last()[k] == s[k]);
            }
        }
    }
}

/// The extension of the path, as the bytes after its final dot.
pub fn extension_of(path: &str) -> (r: Vec<u8>)
    ensures
        r@ == spec_extension(path.spec_bytes()),
{
    let bytes = path.as_bytes();
    let n = bytes.len();
    proof {
        lemma_last_byte_pos_bounds(bytes@, 47);
    }
    let mut sl: usize = n;
    let mut k: usize = n;
    while k > 0 && sl == n
        invariant
            k <= n,
            sl <= n,
            n == bytes@.len(),
            sl == n ==> forall|t: int| k <= t < n ==> bytes@[t] != 47,
            sl < n ==> k <= sl && bytes@[sl as int] == 47 && (forall|t: int|
                sl < t < n ==> bytes@[t] != 47),
        decreases k,
    {
        if bytes[k - 1] == 47 {
            sl = k - 1;
        }
        k = k - 1;
    }
    let name_lo: usize = if sl == n {
        0
    } else {
        sl + 1
    };
    let ghost name = path.spec_bytes().subrange(
        last_byte_pos(path.spec_bytes(), 47) + 1,
        path.spec_bytes().len() as int,
    );
    proof {
        if sl == n {
            assert(last_byte_pos(bytes@, 47) == -1) by {
                lemma_last_byte_pos_bounds(bytes@, 47);
            }
        } else {
            assert(last_byte_pos(bytes@, 47) == sl) by {
                lemma_last_byte_pos_bounds(bytes@, 47);
                let lp = last_byte_pos(bytes@, 47);
                assert(bytes@[sl as int] == 47);
                if lp < sl {
                    assert(bytes@[sl as int] != 47);
                }
                if lp > sl {
                    assert(bytes@[lp] != 47);
                }
            }
        }
        assert(name =~= bytes@.subrange(name_lo as int, n as int));
        lemma_last_byte_pos_bounds(name, 46);
    }
    let mut dot: usize = n;
    let mut k2: usize = n;
    while k2 > name_lo && dot == n
        invariant
            name_lo <= k2 <= n,
            dot <= n,
            n == bytes@.len(),
            name_lo <= n,
            name == bytes@.subrange(name_lo as int, n as int),
            dot == n ==> forall|t: int| k2 <= t < n ==> bytes@[t] != 46,
            dot < n ==> name_lo <= k2 <= dot && bytes@[dot as int] == 46 && (forall|t: int|
                dot < t < n ==> bytes@[t] != 46),
        decreases k2,
    {
        if bytes[k2 - 1] == 46 {
            dot = k2 - 1;
        }
        k2 = k2 - 1;
    }
    proof {
        let d = last_byte_pos(name, 46);
        if dot == n {
            if d >= 0 {
                assert(name[d] == 46);
                assert(bytes@[name_lo + d] == 46);
            }
            assert(d == -1);
        } else {
            assert(name[dot - name_lo] == 46);
            assert(d >= dot - name_lo);
            if d > dot - name_lo {
                assert(name[d] == 46);
                assert(bytes@[name_lo + d] == 46);
            }
            assert(d == dot - name_lo);
        }
    }
    if dot == n || dot == name_lo {
        proof {
            assert(spec_extension(path.spec_bytes()) =~= Seq::<u8>::empty());
        }
        Vec::new()
    } else {
        let r = crate::text::copy_range(bytes, dot + 1, n);
        proof {
            assert(spec_extension(path.spec_bytes()) =~= bytes@.subrange(dot + 1, n as int));
        }
        r
    }
}

/// Whitespace as `str::trim` sees it: the characters with Unicode's
/// White_Space property.
pub open spec fn is_unicode_ws(c: char) -> bool {
    ||| c == '\u{9}'
    ||| c == '\u{a}'
    ||| c == '\u{b}'
    ||| c == '\u{c}'
    ||| c == '\u{d}'
    ||| c == ' '
    ||| c == '\u{85}'
    ||| c == '\u{a0}'
    ||| c == '\u{1680}'
    ||| c == '\u{2000}'
    ||| c == '\u{2001}'
    ||| c == '\u{2002}'
    ||| c == '\u{2003}'
    ||| c == '\u{2004}'
    ||| c == '\u{2005}'
    ||| c == '\u{2006}'
    ||| c == '\u{2007}'
    ||| c == '\u{2008}'
    ||| c == '\u{2009}'
    ||| c == '\u{200a}'
    ||| c == '\u{2028}'
    ||| c == '\u{2029}'
    ||| c == '\u{202f}'
    ||| c == '\u{205f}'
    ||| c == '\u{3000}'
}

/// The text holds nothing but whitespace, so its trimmed form is empty.
pub open spec fn all_unicode_ws(s: Seq<char>) -> bool {
    forall|i: int| 0 <= i < s.len() ==> is_unicode_ws(#[trigger] s[i])
}

fn is_ws_char(c: char) -> (r: bool)
    ensures
        r == is_unicode_ws(c),
{
    c == '\u{9}' || c == '\u{a}' || c == '\u{b}' || c == '\u{c}' || c == '\u{d}' || c == ' '
        || c == '\u{85}' || c == '\u{a0}' || c == '\u{1680}' || c == '\u{2000}' || c
        == '\u{2001}' || c == '\u{2002}' || c == '\u{2003}' || c == '\u{2004}' || c == '\u{2005}'
        || c == '\u{2006}' || c == '\u{2007}' || c == '\u{2008}' || c == '\u{2009}' || c
        == '\u{200a}' || c == '\u{2028}' || c == '\u{2029}' || c == '\u{202f}' || c == '\u{205f}'
        || c == '\u{3000}'
}

fn content_blank(content: &str) -> (r: bool)
    ensures
        r == all_unicode_ws(content@),
{
    broadcast use vstd::string::axiom_spec_iter, vstd::string::next_postcondition;

    let mut it = content.chars();
    let ghost mut idx: int = 0;
    loop
        invariant
            0 <= idx <= content@.len(),
            it.obeys_prophetic_iter_laws(),
            vstd::std_specs::iter::IteratorSpec::remaining(&it) == content@.skip(idx),
            forall|k: int| 0 <= k < idx ==> is_unicode_ws(#[trigger] content@[k]),
        decreases content@.len() - idx,
    {
        let ghost before = it;
        match it.next() {
            Some(c) => {
                proof {
                    assert(vstd::std_specs::iter::IteratorSpec::remaining(&before)[0]
                        == content@[idx]);
                    assert(vstd::std_specs::iter::IteratorSpec::remaining(&it) =~= content@.skip(
                        idx + 1,
                    ));
                }
                if !is_ws_char(c) {
                    return false;
                }
                proof {
                    idx = idx + 1;
                }
            },
            None => {
                proof {
                    assert(content@.skip(idx).len() == 0);
                }
                return true;
            },
        }
    }
}

/// What the whole-file fallback produces for a file of an unsupported
/// extension: nothing for a file whose trimmed text is empty, else one
/// `Other` chunk named `file` that spans every line and carries the full
/// text as its content, with an empty declaration.
pub open spec fn fallback_ok(chunks: Seq<CodeChunk>, text: Seq<char>, content: Seq<u8>) -> bool {
    if all_unicode_ws(text) {
        chunks.len() == 0
    } else {
        &&& chunks.len() == 1
        &&& chunks[0].start_line == 0
        &&& chunks[0].end_line == if spec_line_count(content) > 0 {
            spec_line_count(content) - 1
        } else {
            0
        }
        &&& chunks[0].chunk_type == ChunkType::Other
        &&& chunks[0].name@ == "file".spec_bytes()
        &&& chunks[0].content@ == content
        &&& chunks[0].declaration@.len() == 0
    }
}

/// Either way the fallback emits no identical pair: it emits at most one
/// chunk.
pub proof fn lemma_fallback_distinct(chunks: Seq<CodeChunk>, text: Seq<char>, content: Seq<u8>)
    requires
        fallback_ok(chunks, text, content),
    ensures
        crate::chunk::chunks_distinct(chunks),
{
}

/// Splits files into chunks for indexing, dispatching on file extension.
pub struct CodeChunker {
    java: JavaProcessor,
}

impl Default for CodeChunker {
    /// The chunker with its fixed extension mapping; construction cannot
    /// fail.
    fn default() -> (r: CodeChunker) {
        match CodeChunker::new() {
            Ok(c) => c,
            Err(_) => {
                proof {
                    assert(false);
                }
                CodeChunker { java: JavaProcessor {  } }
            },
        }
    }
}

impl CodeChunker {
    /// Builds the chunker with its fixed extension-to-processor mapping.
    pub fn new() -> (r: Result<CodeChunker, ChunkError>)
        ensures
            r is Ok,
    {
        match JavaProcessor::new() {
            Ok(java) => Ok(CodeChunker { java }),
            Err(e) => Err(e),
        }
    }

    /// Chunks `content` according to the extension of `file_path`: Java
    /// files go through the Java chunker; any other file becomes a single
    /// whole-file chunk, or no chunk at all if it is blank.
    pub fn chunk_code_for_indexing(&mut self, file_path: &str, content: &str) -> (r: Result<
        Vec<CodeChunk>,
        ChunkError,
    >)
        ensures
            spec_extension(file_path.spec_bytes()) == "java".spec_bytes() ==> (match java_parse(
                content.spec_bytes(),
            ) {
                Some(root) => if root.wf(content.spec_bytes().len() as int) && root.braced(
                    content.spec_bytes(),
                ) {
                    r matches Ok(chunks) && java_chunks_deduped_ok(
                        chunks@,
                        root,
                        content.spec_bytes(),
                    )
                } else {
                    r == Err::<Vec<CodeChunk>, ChunkError>(ChunkError::ParseFailed)
                },
                None => r == Err::<Vec<CodeChunk>, ChunkError>(ChunkError::ParseFailed),
            }),
            spec_extension(file_path.spec_bytes()) != "java".spec_bytes() ==> (r matches Ok(chunks)
                && fallback_ok(chunks@, content@, content.spec_bytes())),
    {
        let ext = extension_of(file_path);
        if crate::text::bytes_eq(ext.as_slice(), "java".as_bytes()) {
            chunk_java(content)
        } else {
            let bytes = content.as_bytes();
            if content_blank(content) {
                Ok(Vec::new())
            } else {
                let lines = line_count(bytes);
                let end_line = if lines > 0 {
                    lines - 1
                } else {
                    0
                };
                let mut chunks: Vec<CodeChunk> = Vec::new();
                chunks.push(
                    CodeChunk {
                        start_line: 0,
                        end_line,
                        chunk_type: ChunkType::Other,
                        name: "file".as_bytes_vec(),
                        content: vstd::slice::slice_to_vec(bytes),
                        declaration: Vec::new(),
                    },
                );
                Ok(chunks)
            }
        }
    }
}

} // verus!
