use probe::chunk::{dedup_chunks, ChunkType, CodeChunk};
use probe::code_chunker::CodeChunker;
use probe::config::{Config, StemLanguage, StemmingConfig};
use probe::file_scanner::FileScanner;
use probe::metadata::{FileStat, IndexMetadata};
use probe::pipeline::{build_documents, file_passes_limits};
use probe::reranker::{available_models, parse_reranker_model, rerank_selection, RerankModelId};
use probe::search_engine::fetch_limit;
use probe::search_index::{
    apply_score_penalties, extract_relevant_segment_with_context, highlight_content,
    render_snippet_with_terminal_colors, snippet_plan, SnippetPlan,
};
use probe::tokenizer::tokenize_identifiers;

fn text(v: &[u8]) -> String {
    String::from_utf8(v.to_vec()).unwrap()
}

fn tokens(s: &str) -> Vec<String> {
    tokenize_identifiers(s.as_bytes())
        .iter()
        .map(|t| text(t))
        .collect()
}

fn word_tokens(s: &str) -> Vec<String> {
    tokens(s)
        .into_iter()
        .filter(|t| t.chars().all(|c| c.is_ascii_alphanumeric()))
        .collect()
}

#[test]
fn chunking_scenario_java_class_with_two_methods() {
    let mut chunker = CodeChunker::new().unwrap();
    let source = "class FooBar { void someMethod(){ blablaCode(); } String doSomething(){ return \"text\"; } }";
    let chunks = chunker.chunk_code_for_indexing("Foo.java", source).unwrap();
    assert_eq!(chunks.len(), 3);
    assert_eq!(chunks[0].chunk_type, ChunkType::Class);
    assert_eq!(text(&chunks[0].name), "FooBar");
    assert_eq!(chunks[1].chunk_type, ChunkType::Method);
    assert_eq!(text(&chunks[1].name), "someMethod");
    assert_eq!(chunks[2].chunk_type, ChunkType::Method);
    assert_eq!(text(&chunks[2].name), "doSomething");
    assert!(text(&chunks[1].declaration).ends_with("void someMethod(){"));
    assert!(text(&chunks[1].content).ends_with("}"));
    // Chunk starts never decrease, and every chunk's line span is ordered.
    for w in chunks.windows(2) {
        assert!(w[0].start_line <= w[1].start_line);
    }
    for c in &chunks {
        assert!(c.start_line <= c.end_line);
    }
}

#[test]
fn callable_split_reassembles_the_source() {
    let mut chunker = CodeChunker::new().unwrap();
    let source = "class A {\n    int half(int x) {\n        return x / 2;\n    }\n}\n";
    let chunks = chunker.chunk_code_for_indexing("A.java", source).unwrap();
    let method = &chunks[1];
    let decl = text(&method.declaration);
    let body = text(&method.content);
    assert!(decl.ends_with("{"));
    assert!(body.ends_with("}"));
    // Declaration tail plus content is the callable's text from the start of
    // its line.
    let tail = "    int half(int x) {";
    assert!(decl.ends_with(tail));
    let rebuilt = format!("{}{}", tail, body);
    assert!(source.contains(&rebuilt));
}

#[test]
fn unsupported_extension_yields_whole_file_chunk() {
    let mut chunker = CodeChunker::new().unwrap();
    let content = "def add_numbers(x, y):\n    return x + y\n";
    let chunks = chunker.chunk_code_for_indexing("calc.py", content).unwrap();
    assert_eq!(chunks.len(), 1);
    assert_eq!(chunks[0].chunk_type, ChunkType::Other);
    assert_eq!(text(&chunks[0].name), "file");
    assert_eq!(text(&chunks[0].content), content);
    assert_eq!(chunks[0].start_line, 0);
    assert_eq!(chunks[0].end_line, 1);
    assert!(chunks[0].declaration.is_empty());
}

#[test]
fn blank_file_yields_no_chunks() {
    let mut chunker = CodeChunker::new().unwrap();
    let chunks = chunker.chunk_code_for_indexing("x.txt", " \n\t  \n").unwrap();
    assert!(chunks.is_empty());
}

#[test]
fn fingerprint_diff_is_empty_right_after_update() {
    let mut m = IndexMetadata::new();
    assert_eq!(m.file_count(), 0);
    let a = FileStat { path: "/r/a.rs".to_string(), size: 10, modified: 111, exists: true };
    let b = FileStat { path: "/r/b.rs".to_string(), size: 20, modified: 222, exists: true };
    m.update_file(&a.path, a.size, a.modified);
    m.update_file(&b.path, b.size, b.modified);
    assert_eq!(m.file_count(), 2);
    let changed = m.needs_reindex(&vec![a.clone(), b.clone()]);
    assert!(changed.is_empty());
    // A size change, an mtime change, a new file and a missing file are all
    // flagged, in input order.
    let a_grown = FileStat { path: "/r/a.rs".to_string(), size: 11, modified: 111, exists: true };
    let b_touched = FileStat { path: "/r/b.rs".to_string(), size: 20, modified: 223, exists: true };
    let fresh = FileStat { path: "/r/new.rs".to_string(), size: 5, modified: 1, exists: true };
    let gone = FileStat { path: "/r/b.rs".to_string(), size: 20, modified: 222, exists: false };
    let changed = m.needs_reindex(&vec![a_grown, b_touched, fresh, gone]);
    assert_eq!(changed, vec!["/r/a.rs", "/r/b.rs", "/r/new.rs", "/r/b.rs"]);
    // Updating an existing entry does not grow the store.
    m.update_file(&"/r/a.rs".to_string(), 11, 111);
    assert_eq!(m.file_count(), 2);
}

#[test]
fn score_penalties_compose_and_never_raise() {
    // 0.5 for a test path, 0.6 for container kinds, composed.
    assert_eq!(apply_score_penalties(1000, "src/main.rs", None), 1000);
    assert_eq!(apply_score_penalties(1000, "src/test/util.rs", None), 500);
    assert_eq!(apply_score_penalties(1000, "src/TESTS/util.rs", None), 500);
    assert_eq!(apply_score_penalties(1000, "src/main.rs", Some("Class")), 600);
    assert_eq!(apply_score_penalties(1000, "src/main.rs", Some("Interface")), 600);
    assert_eq!(apply_score_penalties(1000, "src/main.rs", Some("Struct")), 600);
    assert_eq!(apply_score_penalties(1000, "src/test/util.rs", Some("Class")), 300);
    assert_eq!(apply_score_penalties(1000, "src/main.rs", Some("Method")), 1000);
    assert_eq!(apply_score_penalties(1000, "src/main.rs", Some("file")), 1000);
    // Monotonicity on concrete values.
    assert!(apply_score_penalties(777, "a/test/b", None) <= apply_score_penalties(777, "a/x/b", None));
    assert!(
        apply_score_penalties(777, "a/x/b", Some("Class"))
            <= apply_score_penalties(777, "a/x/b", Some("Method"))
    );
}

#[test]
fn fetch_limit_respects_rerank_minimum() {
    assert_eq!(fetch_limit(false, 10, 5), 5);
    assert_eq!(fetch_limit(true, 10, 5), 10);
    assert_eq!(fetch_limit(true, 10, 7), 14);
    assert_eq!(fetch_limit(true, 0, 3), 6);
}

#[test]
fn rerank_selection_is_a_descending_top_k() {
    // A reranker that reverses the input order: the last input scores
    // highest. With four candidates and a final limit of two, the results
    // are the ones that originally ranked fourth and third, in that order.
    let scores: Vec<u64> = vec![1, 2, 3, 4];
    let order = rerank_selection(&scores, 2);
    assert_eq!(order, vec![3, 2]);
    // Ties and truncation.
    let scores: Vec<u64> = vec![5, 9, 9, 1];
    let order = rerank_selection(&scores, 3);
    assert_eq!(order.len(), 3);
    assert_eq!(scores[order[0]], 9);
    assert_eq!(scores[order[1]], 9);
    assert_eq!(scores[order[2]], 5);
    // Limit beyond the candidate count returns everything.
    let order = rerank_selection(&vec![2, 1], 10);
    assert_eq!(order, vec![0, 1]);
}

#[test]
fn identifier_tokens_split_naming_conventions() {
    assert_eq!(word_tokens("getUserById"), vec!["get", "user", "by", "id"]);
    assert_eq!(word_tokens("get_user_by_id"), vec!["get", "user", "by", "id"]);
    assert_eq!(tokens("get_user_by_id"), vec!["get", "_", "user", "_", "by", "_", "id"]);
    // camelCase and snake_case agree on their word tokens, so a query in one
    // convention matches the other.
    assert_eq!(word_tokens("getUserById"), word_tokens("get_user_by_id"));
    assert!(word_tokens("getUserById").contains(&"user".to_string()));
    assert!(word_tokens("get_user_by_id").contains(&"user".to_string()));
    // An all-caps identifier splits into single letters: the analyzer treats
    // each capital as its own token, so it does not share word tokens with
    // the camelCase form.
    assert_eq!(
        word_tokens("GET_USER_BY_ID"),
        vec!["g", "e", "t", "u", "s", "e", "r", "b", "y", "i", "d"]
    );
    // Digits and overlong tokens.
    assert_eq!(word_tokens("base64Codec"), vec!["base", "64", "codec"]);
    let long = "a".repeat(41);
    assert!(tokens(&long).is_empty());
    let ok = "a".repeat(40);
    assert_eq!(tokens(&ok), vec![ok]);
}

#[test]
fn file_limits_skip_oversize_and_long_lines() {
    // A 600 KiB file or a 9000-byte line never contributes a document.
    let oversize = vec![b'x'; 600 * 1024];
    assert!(!file_passes_limits(&oversize));
    let mut long_line = b"var x = ".to_vec();
    long_line.extend(std::iter::repeat(b'a').take(9000));
    long_line.push(b';');
    assert!(!file_passes_limits(&long_line));
    let normal = b"This is a searchable normal file\n".to_vec();
    assert!(file_passes_limits(&normal));
    let edge = vec![b'y'; 8192];
    assert!(file_passes_limits(&edge));
    let over_edge = vec![b'y'; 8193];
    assert!(!file_passes_limits(&over_edge));
}

#[test]
fn documents_carry_chunk_fields_and_whole_file_fallback() {
    let mut chunker = CodeChunker::new().unwrap();
    let source = "class A { void m() { x(); } }";
    let chunks = chunker.chunk_code_for_indexing("A.java", source).unwrap();
    let docs = build_documents("/r/A.java", b"java", source.as_bytes(), &chunks);
    assert_eq!(docs.len(), chunks.len());
    assert_eq!(docs[0].path, "/r/A.java");
    assert_eq!(docs[0].chunk_type, "Class");
    assert_eq!(docs[1].chunk_type, "Method");
    assert_eq!(text(&docs[1].chunk_name), "m");
    assert_eq!(text(&docs[0].filetype), "java");

    let none: Vec<CodeChunk> = Vec::new();
    let docs = build_documents("/r/notes.txt", b"txt", b"one\ntwo\n", &none);
    assert_eq!(docs.len(), 1);
    assert_eq!(docs[0].chunk_type, "file");
    assert_eq!(text(&docs[0].body), "one\ntwo\n");
    assert_eq!(docs[0].start_line, 0);
    assert_eq!(docs[0].end_line, 1);
}

#[test]
fn scanner_blacklists_binary_extensions() {
    let scanner = FileScanner::new("/root/project");
    assert_eq!(scanner.root(), "/root/project");
    assert!(scanner.should_index_file("src/main.rs"));
    assert!(scanner.should_index_file("README.md"));
    assert!(scanner.should_index_file("Makefile"));
    assert!(!scanner.should_index_file("target/app.exe"));
    assert!(!scanner.should_index_file("logo.PNG"));
    assert!(!scanner.should_index_file("video.mp4"));
    assert!(!scanner.should_index_file("archive.tar"));
    assert!(!scanner.should_index_file("doc.pdf"));
}

#[test]
fn config_maps_language_names_and_codes() {
    let config = Config::default();
    assert!(config.stemming.enabled);
    assert_eq!(config.stemming.language, "english");
    assert_eq!(config.get_language(), Ok(StemLanguage::English));
    for (name, code, lang) in [
        ("english", "en", StemLanguage::English),
        ("french", "fr", StemLanguage::French),
        ("german", "de", StemLanguage::German),
        ("spanish", "es", StemLanguage::Spanish),
    ] {
        let c = Config { stemming: StemmingConfig { language: name.to_string(), enabled: true } };
        assert_eq!(c.get_language(), Ok(lang));
        let c = Config { stemming: StemmingConfig { language: code.to_string(), enabled: true } };
        assert_eq!(c.get_language(), Ok(lang));
        let c = Config {
            stemming: StemmingConfig { language: name.to_uppercase(), enabled: true },
        };
        assert_eq!(c.get_language(), Ok(lang));
    }
    let c = Config {
        stemming: StemmingConfig { language: "invalid_language".to_string(), enabled: true },
    };
    assert!(c.get_language().is_err());
    let c = Config {
        stemming: StemmingConfig { language: "invalid_language".to_string(), enabled: false },
    };
    assert_eq!(c.get_language(), Ok(StemLanguage::English));
}

#[test]
fn reranker_model_names_parse_case_insensitively() {
    assert_eq!(parse_reranker_model("bge-reranker-base"), Ok(RerankModelId::BgeRerankerBase));
    assert_eq!(parse_reranker_model("BAAI/bge-reranker-base"), Ok(RerankModelId::BgeRerankerBase));
    assert_eq!(parse_reranker_model("bge-reranker-v2-m3"), Ok(RerankModelId::BgeRerankerV2M3));
    assert_eq!(
        parse_reranker_model("jina-reranker-v1-turbo-en"),
        Ok(RerankModelId::JinaRerankerV1TurboEn)
    );
    assert!(parse_reranker_model("invalid-model").is_err());
    let models = available_models();
    assert_eq!(models.len(), 4);
    assert_eq!(models[0].0, "bge-reranker-base");
}

#[test]
fn highlighting_wraps_matches_in_escapes() {
    let content = b"fn main() { answer() }";
    // Ranges relative to a fragment that starts at byte 12.
    let plain = highlight_content(content, vec![(0, 6)], 12, false);
    assert_eq!(text(&plain), "fn main() { answer() }");
    let colored = highlight_content(content, vec![(0, 6)], 12, true);
    assert_eq!(text(&colored), "fn main() { \u{1b}[1;33manswer\u{1b}[0m() }");
    // The default snippet renderer highlights within the fragment itself.
    let colored = render_snippet_with_terminal_colors(b"pick me", vec![(5, 7)], true);
    assert_eq!(text(&colored), "pick \u{1b}[1;33mme\u{1b}[0m");
    let empty = render_snippet_with_terminal_colors(b"no ranges", Vec::new(), true);
    assert_eq!(text(&empty), "no ranges");
    // Unordered ranges are sorted before rendering.
    let two = render_snippet_with_terminal_colors(b"a b c", vec![(4, 5), (0, 1)], true);
    assert_eq!(text(&two), "\u{1b}[1;33ma\u{1b}[0m b \u{1b}[1;33mc\u{1b}[0m");
}

#[test]
fn segment_extraction_windows_around_the_match() {
    let content = b"Line 1\nLine 2\nLine 3\nLine 4\nLine 5\nTARGET here\nLine 7\nLine 8\n";
    // The fragment starts at the TARGET line; one context line each side.
    let offset = content
        .windows(6)
        .position(|w| w == b"TARGET")
        .unwrap();
    let out = extract_relevant_segment_with_context(content, vec![(0, 6)], offset, 1, false);
    assert_eq!(text(&out), "Line 5\nTARGET here\nLine 7");
    let out = extract_relevant_segment_with_context(content, vec![(0, 6)], offset, 1, true);
    assert_eq!(text(&out), "Line 5\n\u{1b}[1;33mTARGET\u{1b}[0m here\nLine 7");
    // Zero context keeps just the matching line.
    let out = extract_relevant_segment_with_context(content, vec![(0, 6)], offset, 0, false);
    assert_eq!(text(&out), "TARGET here");
    // A window reaching past the ends is clipped to the file.
    let out = extract_relevant_segment_with_context(content, vec![(0, 6)], offset, 100, false);
    assert_eq!(text(&out), text(content));
}

fn calculate_sum(a: i32, b: i32) -> i32 {
    a + b
}

#[test]
fn test_calculate_sum() {
    assert_eq!(calculate_sum(2, 3), 5);
}

#[test]
fn unicode_blank_file_yields_no_chunks() {
    // `trim` removes Unicode whitespace, so a file of em-spaces, no-break
    // spaces or line separators is blank and contributes nothing.
    let mut chunker = CodeChunker::new().unwrap();
    assert!(chunker.chunk_code_for_indexing("x.txt", "\u{2003}\u{a0}\n").unwrap().is_empty());
    assert!(chunker.chunk_code_for_indexing("x.txt", "\u{2028}").unwrap().is_empty());
    let chunks = chunker.chunk_code_for_indexing("x.txt", " x ").unwrap();
    assert_eq!(chunks.len(), 1);
}

#[test]
fn duplicate_chunks_are_not_emitted() {
    let mk = |name: &str, line: usize| CodeChunk {
        start_line: line,
        end_line: line,
        chunk_type: ChunkType::Method,
        name: name.as_bytes().to_vec(),
        content: b"x".to_vec(),
        declaration: b"d".to_vec(),
    };
    let chunks = vec![mk("a", 0), mk("b", 1), mk("a", 0), mk("b", 2)];
    let deduped = dedup_chunks(chunks);
    assert_eq!(deduped.len(), 3);
    assert_eq!(deduped[0].name, b"a".to_vec());
    assert_eq!(deduped[1].name, b"b".to_vec());
    assert_eq!(deduped[2].name, b"b".to_vec());
    assert_eq!(deduped[2].start_line, 2);
}

#[test]
fn snippet_plan_follows_chunk_kind() {
    assert_eq!(snippet_plan(Some("Method"), false), SnippetPlan::DeclarationThenBody);
    assert_eq!(snippet_plan(Some("Function"), false), SnippetPlan::DeclarationThenBody);
    assert_eq!(snippet_plan(Some("Method"), true), SnippetPlan::DeclarationOnly);
    assert_eq!(snippet_plan(Some("Other"), false), SnippetPlan::FileWindow);
    assert_eq!(snippet_plan(Some("file"), false), SnippetPlan::FileWindow);
    assert_eq!(snippet_plan(Some("Class"), false), SnippetPlan::DefaultFragment);
    assert_eq!(snippet_plan(None, false), SnippetPlan::DefaultFragment);
}
