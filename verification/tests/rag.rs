//! Chunks, the index, pages and sources.
use hyverk::rag::chunker::{chunk_text, split_at_pattern};
use hyverk::rag::index::{rank, tokenize, BM25Index};
use std::collections::BTreeMap;

const K1: f32 = 1.5;
const B: f32 = 0.75;

/// Documents with their scores, the best first.
fn search(idx: &BM25Index, query: &str, top_k: usize) -> Vec<(String, f32)> {
    let n = idx.doc_count() as f32;
    let avg = idx.total_length() as f32 / n;
    let mut scores: BTreeMap<String, f32> = BTreeMap::new();
    for hits in idx.search(query) {
        let df = hits.len() as f32;
        let idf = ((n - df + 0.5) / (df + 0.5) + 1.0).ln();
        for hit in &hits {
            let tf = hit.tf as f32;
            let dl = hit.length as f32;
            let norm = tf * (K1 + 1.0) / (tf + K1 * (1.0 - B + B * dl / avg));
            *scores.entry(hit.doc_id.clone()).or_default() += idf * norm;
        }
    }
    let keys = scores.iter().map(|(id, s)| (id.clone(), s.to_bits() as usize)).collect();
    rank(keys, top_k).into_iter().map(|(id, k)| (id, f32::from_bits(k as u32))).collect()
}

#[test]
fn test_short_text() {
    let chunks = chunk_text("hello world", 1500, 200);
    assert_eq!(chunks.len(), 1);
    assert_eq!(chunks[0], "hello world");
}

#[test]
fn test_hard_split() {
    let text = "a".repeat(4000);
    let chunks = chunk_text(&text, 1500, 200);
    assert!(chunks.len() >= 2);
    assert!(chunks[0].len() <= 1500);
}

#[test]
fn test_code_split() {
    let text = "use std::io;\n\npub fn foo() {\n    let x = 1;\n}\n\npub fn bar() {\n    let y = 2;\n}\n\npub struct Baz {\n    val: u32,\n}";
    let chunks = chunk_text(text, 50, 10);
    assert!(chunks.len() >= 2);
}

#[test]
fn test_basic_search() {
    let mut idx = BM25Index::new();
    idx.add_document("doc1", "fn handle_request(req: &HttpRequest) -> Response");
    idx.add_document("doc2", "struct DatabaseConnection { pool: ConnectionPool }");
    idx.add_document("doc3", "fn authenticate_user(token: &str) -> Result<User>");

    let results = search(&idx, "request handler http", 3);
    assert!(!results.is_empty());
    assert_eq!(results[0].0, "doc1");
}

#[test]
fn test_code_symbols() {
    let mut idx = BM25Index::new();
    idx.add_document("doc1", "use tokio::sync::RwLock;\npub async fn run() {}");
    idx.add_document("doc2", "use std::sync::Mutex;\nfn sync_fn() {}");

    let results = search(&idx, "tokio async", 2);
    assert_eq!(results[0].0, "doc1");
}

#[test]
fn tokens_are_lowered_words() {
    assert_eq!(tokenize("Foo_Bar x, be2!"), vec!["foo_bar", "foo", "bar", "be2"]);
    assert_eq!(tokenize("e\u{301}te\u{301}"), vec!["\u{e9}t\u{e9}"]);
}

#[test]
fn hard_split_covers_the_text() {
    let text = "a".repeat(4000);
    let chunks = chunk_text(&text, 1500, 200);
    let lengths: Vec<usize> = chunks.iter().map(|c| c.len()).collect();
    assert_eq!(lengths, vec![1500, 1500, 1400]);
}

#[test]
fn code_is_cut_where_items_start() {
    let text = "use std::io;\n\npub fn foo() {\n    let x = 1;\n}\n\npub fn bar() {\n    let y = 2;\n}\n\npub struct Baz {\n    val: u32,\n}";
    assert_eq!(
        chunk_text(text, 50, 10),
        vec![
            "use std::io;\n\npub fn foo() {\n    let x = 1;\n}\n\n",
            "x = 1;\n}\n\npub fn bar() {\n    let y = 2;\n}\n\n",
            "y = 2;\n}\n\npub struct Baz {\n    val: u32,\n}",
        ]
    );
}

#[test]
fn prose_is_cut_at_paragraphs() {
    let text = "one one\n\ntwo two\n\nthree three three\n\nfour";
    assert_eq!(
        chunk_text(text, 20, 4),
        vec!["one one\n\ntwo two", "\n\nthree three three", "hree\n\nfour"]
    );
}

#[test]
fn sizes_are_in_characters() {
    let text = format!("{}\n\nfn x() {{}}", "ä".repeat(20));
    let chunks = chunk_text(&text, 8, 2);
    let lengths: Vec<usize> = chunks.iter().map(|c| c.chars().count()).collect();
    assert_eq!(lengths, vec![8, 8, 8, 4, 8, 3]);
    assert_eq!(chunks[0], "ä".repeat(8));
    assert_eq!(chunks[3], "ää\n\n");
    assert_eq!(chunks[4], "fn x() {");
    assert_eq!(chunks[5], " {}");
    assert_eq!(split_at_pattern("ääää", &vec![4], 3, 0), vec!["ää", "ää"]);
}

#[test]
fn large_overlaps_do_not_stop_the_cutting() {
    assert_eq!(chunk_text(&"a".repeat(20), 5, 5), vec!["a".repeat(5); 4]);
    assert_eq!(chunk_text(&"a".repeat(6), 5, 9), vec!["a".repeat(5), "a".to_string()]);
    assert_eq!(chunk_text("", 0, 0), vec![""]);
}

#[test]
fn second_text_replaces_the_first() {
    let mut twice = BM25Index::new();
    twice.add_document("a", "red fox");
    twice.add_document("b", "red hen");
    twice.add_document("a", "grey goose goose");
    let mut once = BM25Index::new();
    once.add_document("b", "red hen");
    once.add_document("a", "grey goose goose");
    assert_eq!(twice.doc_count(), 2);
    assert_eq!(twice.doc_count(), once.doc_count());
    assert_eq!(twice.total_length(), 5);
    assert_eq!(twice.total_length(), once.total_length());
    for query in ["red", "fox", "goose grey", "hen"] {
        assert_eq!(search(&twice, query, 5), search(&once, query, 5));
    }
    assert!(search(&twice, "fox", 5).is_empty());
}

#[test]
fn removal_undoes_an_addition() {
    let mut idx = BM25Index::new();
    idx.add_document("a", "red fox");
    let before = search(&idx, "red fox", 5);
    idx.add_document("b", "red red hen");
    assert_eq!(idx.doc_count(), 2);
    idx.remove_document("b");
    idx.remove_document("nobody");
    assert_eq!((idx.doc_count(), idx.total_length()), (1, 2));
    assert_eq!(search(&idx, "red fox", 5), before);
    assert!(search(&idx, "hen", 5).is_empty());
}
