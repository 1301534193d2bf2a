//! End-to-end scenarios through a real inverted index: the library's
//! chunking, document construction, scoring and fingerprinting drive a
//! tantivy index built in memory, with the same schema, analyzer and boosts
//! the engine uses.

use probe::code_chunker::CodeChunker;
use probe::metadata::{FileStat, IndexMetadata};
use probe::pipeline::{build_documents, file_passes_limits};
use probe::reranker::rerank_selection;
use probe::search_index::apply_score_penalties;

use tantivy::collector::TopDocs;
use tantivy::query::{BooleanQuery, Occur, QueryParser, TermQuery};
use tantivy::schema::{
    IndexRecordOption, Schema, TextFieldIndexing, TextOptions, Value, STORED, TEXT,
};
use tantivy::tokenizer::{Language, LowerCaser, RegexTokenizer, RemoveLongFilter, Stemmer, TextAnalyzer};
use tantivy::{Index, TantivyDocument, Term};

struct Harness {
    index: Index,
    path_field: tantivy::schema::Field,
    declaration_field: tantivy::schema::Field,
    body_field: tantivy::schema::Field,
    filetype_field: tantivy::schema::Field,
    chunk_type_field: tantivy::schema::Field,
}

fn ext_of(path: &str) -> String {
    String::from_utf8(probe::code_chunker::extension_of(path)).unwrap()
}

fn build_index(files: &[(&str, &str)], stemming: bool) -> Harness {
    let mut schema_builder = Schema::builder();
    let path_field = schema_builder.add_text_field("path", STORED);
    let field_indexing = TextFieldIndexing::default()
        .set_tokenizer("camel_case")
        .set_index_option(IndexRecordOption::WithFreqsAndPositions);
    let field_options = TextOptions::default()
        .set_indexing_options(field_indexing)
        .set_stored();
    let declaration_field = schema_builder.add_text_field("declaration", field_options.clone());
    let body_field = schema_builder.add_text_field("body", field_options.clone());
    let filetype_field = schema_builder.add_text_field("filetype", TEXT | STORED);
    let chunk_type_field = schema_builder.add_text_field("chunk_type", TEXT | STORED);
    let chunk_name_field = schema_builder.add_text_field("chunk_name", field_options);
    let schema = schema_builder.build();

    let index = Index::create_in_ram(schema);
    let tokenizer = if stemming {
        TextAnalyzer::builder(
            RegexTokenizer::new(r"[a-z]+|[A-Z][a-z]*|[0-9]+|[^a-zA-Z0-9]+").unwrap(),
        )
        .filter(RemoveLongFilter::limit(40))
        .filter(LowerCaser)
        .filter(Stemmer::new(Language::English))
        .build()
    } else {
        TextAnalyzer::builder(
            RegexTokenizer::new(r"[a-z]+|[A-Z][a-z]*|[0-9]+|[^a-zA-Z0-9]+").unwrap(),
        )
        .filter(RemoveLongFilter::limit(40))
        .filter(LowerCaser)
        .build()
    };
    index.tokenizers().register("camel_case", tokenizer);

    let mut writer = index.writer::<TantivyDocument>(50_000_000).unwrap();
    let mut chunker = CodeChunker::new().unwrap();
    for (path, content) in files {
        if !file_passes_limits(content.as_bytes()) {
            continue;
        }
        let chunks = match chunker.chunk_code_for_indexing(path, content) {
            Ok(c) => c,
            Err(_) => continue,
        };
        let ext = ext_of(path);
        let docs = build_documents(path, ext.as_bytes(), content.as_bytes(), &chunks);
        for d in docs {
            let mut doc = TantivyDocument::new();
            doc.add_text(path_field, &d.path);
            doc.add_text(declaration_field, String::from_utf8_lossy(&d.declaration).as_ref());
            doc.add_text(body_field, String::from_utf8_lossy(&d.body).as_ref());
            doc.add_text(filetype_field, String::from_utf8_lossy(&d.filetype).as_ref());
            doc.add_text(chunk_type_field, &d.chunk_type);
            doc.add_text(chunk_name_field, String::from_utf8_lossy(&d.chunk_name).as_ref());
            writer.add_document(doc).unwrap();
        }
    }
    writer.commit().unwrap();
    Harness { index, path_field, declaration_field, body_field, filetype_field, chunk_type_field }
}

/// One search hit: adjusted score in micro-units, path, stored extension.
fn search(h: &Harness, query: &str, limit: usize, filetype: Option<&str>) -> Vec<(u64, String, String)> {
    let reader = h.index.reader().unwrap();
    let searcher = reader.searcher();
    let mut parser = QueryParser::for_index(
        &h.index,
        vec![h.declaration_field, h.body_field],
    );
    parser.set_field_boost(h.declaration_field, 3.0);
    parser.set_field_boost(h.body_field, 1.0);
    let content_query = parser.parse_query(query).unwrap();
    let final_query: Box<dyn tantivy::query::Query> = if let Some(ft) = filetype {
        let term = Term::from_field_text(h.filetype_field, ft);
        let tq = TermQuery::new(term, IndexRecordOption::Basic);
        Box::new(BooleanQuery::new(vec![
            (Occur::Must, content_query),
            (Occur::Must, Box::new(tq)),
        ]))
    } else {
        content_query
    };
    let top = searcher.search(&final_query, &TopDocs::with_limit(limit)).unwrap();
    let mut out = Vec::new();
    for (score, addr) in top {
        let doc: TantivyDocument = searcher.doc(addr).unwrap();
        let path = doc
            .get_first(h.path_field)
            .and_then(|v| v.as_str())
            .unwrap_or("")
            .to_string();
        let ext = doc
            .get_first(h.filetype_field)
            .and_then(|v| v.as_str())
            .unwrap_or("")
            .to_string();
        let kind = doc
            .get_first(h.chunk_type_field)
            .and_then(|v| v.as_str())
            .map(|s| s.to_string());
        let base = (score.max(0.0) * 1_000_000.0) as u64;
        let adjusted = apply_score_penalties(base, &path, kind.as_deref());
        out.push((adjusted, path, ext));
    }
    out.sort_by(|a, b| b.0.cmp(&a.0));
    out
}

#[test]
fn s1_search_by_name_content_and_extension_filter() {
    let h = build_index(
        &[
            ("/r/main.rs", "fn main() {}"),
            ("/r/config.json", "{\"database_url\": \"x\"}"),
        ],
        true,
    );
    let hits = search(&h, "main", 10, None);
    assert!(!hits.is_empty());
    assert!(hits[0].1.ends_with("main.rs"));
    let hits = search(&h, "database_url", 10, None);
    assert!(!hits.is_empty());
    assert!(hits[0].1.ends_with("config.json"));
    let hits = search(&h, "main", 10, Some("json"));
    assert!(hits.is_empty());
}

#[test]
fn extension_filter_is_strict() {
    let h = build_index(
        &[
            ("/r/alpha.rs", "let shared_token = 1;"),
            ("/r/alpha.md", "shared_token appears here too"),
            ("/r/alpha.txt", "shared_token appears here three"),
        ],
        true,
    );
    let hits = search(&h, "shared_token", 10, Some("rs"));
    assert!(!hits.is_empty());
    for (_, _, ext) in &hits {
        assert_eq!(ext, "rs");
    }
}

#[test]
fn s3_incremental_reindex_on_new_file() {
    // First build: two files indexed and fingerprinted.
    let first: Vec<(&str, &str)> = vec![
        ("/r/main.rs", "fn main() {}"),
        ("/r/config.json", "{\"database_url\": \"x\"}"),
    ];
    let mut meta = IndexMetadata::new();
    for (i, (p, c)) in first.iter().enumerate() {
        meta.update_file(&p.to_string(), c.len() as u64, 1000 + i as u64);
    }
    // A new file appears; the diff flags exactly that file.
    let stats = vec![
        FileStat { path: "/r/main.rs".into(), size: first[0].1.len() as u64, modified: 1000, exists: true },
        FileStat { path: "/r/config.json".into(), size: first[1].1.len() as u64, modified: 1001, exists: true },
        FileStat { path: "/r/new.rs".into(), size: 20, modified: 2000, exists: true },
    ];
    let changed = meta.needs_reindex(&stats);
    assert_eq!(changed, vec!["/r/new.rs"]);
    // After indexing the new file and updating, the store has three entries
    // and a search finds the new function.
    meta.update_file(&"/r/new.rs".to_string(), 20, 2000);
    assert_eq!(meta.file_count(), 3);
    let h = build_index(
        &[
            ("/r/main.rs", "fn main() {}"),
            ("/r/config.json", "{\"database_url\": \"x\"}"),
            ("/r/new.rs", "fn new_function(){}"),
        ],
        true,
    );
    let hits = search(&h, "new_function", 10, None);
    assert!(!hits.is_empty());
    assert!(hits[0].1.ends_with("new.rs"));
}

#[test]
fn s4_gitignored_files_are_not_indexed() {
    // A gitignore listing `*.log` keeps the log file out of the index, so a
    // term that appears only there finds nothing from it.
    let mut builder = ignore::gitignore::GitignoreBuilder::new("/r");
    builder.add_line(None, "*.log").unwrap();
    let gitignore = builder.build().unwrap();

    let scanner = probe::file_scanner::FileScanner::new("/r");
    let candidates = [
        ("/r/ignored.log", "indexed token lives here"),
        ("/r/source.rs", "fn indexed() {}"),
    ];
    let files: Vec<(&str, &str)> = candidates
        .iter()
        .filter(|(p, _)| {
            !gitignore.matched(p, false).is_ignore() && scanner.should_index_file(p)
        })
        .cloned()
        .collect();
    assert_eq!(files.len(), 1);
    let h = build_index(&files, true);
    let hits = search(&h, "indexed", 10, None);
    assert!(!hits.is_empty());
    assert!(hits.iter().any(|(_, p, _)| p.ends_with("source.rs")));
    assert!(hits.iter().all(|(_, p, _)| !p.ends_with("ignored.log")));
}

#[test]
fn s6_oversize_files_are_skipped_silently() {
    let big = "x".repeat(600 * 1024);
    let mut long_line = String::from("var x = ");
    long_line.push_str(&"a".repeat(9000));
    long_line.push(';');
    let normal = "This is a searchable normal file";
    let files = vec![
        ("/r/large.txt", big.as_str()),
        ("/r/minified.js", long_line.as_str()),
        ("/r/normal.txt", normal),
    ];
    let indexed: Vec<&(&str, &str)> = files
        .iter()
        .filter(|(_, c)| file_passes_limits(c.as_bytes()))
        .collect();
    assert_eq!(indexed.len(), 1);
    let h = build_index(&files, true);
    let hits = search(&h, "searchable", 10, None);
    assert!(!hits.is_empty());
    assert!(hits[0].1.ends_with("normal.txt"));
    let hits = search(&h, "var", 10, None);
    assert!(hits.is_empty());
}

#[test]
fn stemming_matches_inflected_forms_only_when_enabled() {
    let content = "public void handleCarriers() { List<String> runners = new ArrayList<>(); }";
    let h = build_index(&[("/r/test.java", content)], true);
    assert!(!search(&h, "carrier", 10, None).is_empty());
    assert!(!search(&h, "runner", 10, None).is_empty());
    let h = build_index(&[("/r/test.java", content)], false);
    assert!(search(&h, "carrier", 10, None).is_empty());
    assert!(!search(&h, "carriers", 10, None).is_empty());
}

#[test]
fn camel_case_query_matches_snake_case_code() {
    let h = build_index(
        &[
            ("/r/camel.java", "class A { void getUserById() { x(); } }"),
            ("/r/snake.rs", "fn get_user_by_id() {}"),
        ],
        true,
    );
    // A single word of the identifier matches both naming conventions: the
    // analyzer splits camelCase and snake_case into the same word tokens.
    let hits = search(&h, "user", 10, None);
    assert!(hits.iter().any(|(_, p, _)| p.ends_with("camel.java")));
    assert!(hits.iter().any(|(_, p, _)| p.ends_with("snake.rs")));
    // So does a query spelling the words out.
    let hits = search(&h, "get user by id", 10, None);
    assert!(hits.iter().any(|(_, p, _)| p.ends_with("camel.java")));
    assert!(hits.iter().any(|(_, p, _)| p.ends_with("snake.rs")));
    // The camelCase identifier as one query word becomes a position-exact
    // phrase of its word tokens, which matches the camelCase source. In the
    // snake_case source the underscore tokens hold positions between the
    // words, so the phrase does not reach it.
    let hits = search(&h, "getUserById", 10, None);
    assert!(hits.iter().any(|(_, p, _)| p.ends_with("camel.java")));
    let hits = search(&h, "get_user_by_id", 10, None);
    assert!(hits.iter().any(|(_, p, _)| p.ends_with("snake.rs")));
}

#[test]
fn test_penalties_prefer_implementation_over_tests_and_methods_over_classes() {
    let body = "class Shared { void sharedThing() { helper(); } }";
    let h = build_index(
        &[("/r/src/impl.java", body), ("/r/test/impl.java", body)],
        true,
    );
    let hits = search(&h, "sharedThing", 10, None);
    assert!(hits.len() >= 2);
    let best = &hits[0];
    assert!(best.1.ends_with("src/impl.java"), "implementation should outrank the test copy");
}

#[test]
fn rerank_replaces_lexical_order() {
    // Four lexical hits; a reranker that reverses the order hands back
    // descending scores for the reversed list. The final two results are the
    // originally fourth and third.
    let lexical = vec!["first", "second", "third", "fourth"];
    let reranker_scores: Vec<u64> = vec![10, 20, 30, 40];
    let order = rerank_selection(&reranker_scores, 2);
    let final_docs: Vec<&str> = order.iter().map(|&i| lexical[i]).collect();
    assert_eq!(final_docs, vec!["fourth", "third"]);
}
