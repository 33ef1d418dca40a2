//! Documents: fetched pages, sources and what the model gets of them.
use hyverk::rag::html::{extract_title, strip_html, strip_html_basic, PageTitle};
use hyverk::rag::index::{rank, BM25Index};
use hyverk::rag::sources::{
    build_context, docs_url, entry_action, index_source, indexed_text, is_indexable,
    is_section_heading, page_section, parse_docs_rs_html, parse_source, takes_file, EntryAction,
    PageSection, MAX_FILE_SIZE,
};
use hyverk::rag::{RagConfig, SearchResult, SourceType};

#[test]
fn tags_are_stripped() {
    assert_eq!(
        strip_html("<p>a &amp; b&lt;&#39;&nbsp;&foo;&</p><SCRIPT>x<y></script>c"),
        "\na & b<' &foo;&\n\n\n\nc"
    );
    assert_eq!(strip_html_basic("<p>a  b</p><script>x</script>c"), "\na\nb\nc");
    assert_eq!(strip_html_basic("1 > 0"), "1\n>\n0");
    assert_eq!(strip_html_basic("a<b"), "a");
    let text = strip_html_basic("x > y <p>a \t b</p> <script>z</script>");
    assert_eq!(strip_html_basic(&text), text);
}

#[test]
fn title_is_found() {
    match extract_title("<html><TITLE> A b </Title>") {
        PageTitle::Found(t) => assert_eq!(t, "A b"),
        _ => panic!("no title"),
    }
    assert!(matches!(extract_title("<p>"), PageTitle::Missing));
    assert!(matches!(extract_title("</title><title>"), PageTitle::Missing));
}

#[test]
fn pages_become_sections() {
    match page_section("u", "text/html; charset=utf-8", "<title>T</title><p>x") {
        PageSection::Section(title, text) => {
            assert_eq!(title, "T");
            assert_eq!(text, "\nT\nx");
        }
        _ => panic!("no section"),
    }
    match page_section("u", "text/plain", "x\n") {
        PageSection::Section(title, text) => assert_eq!((title.as_str(), text.as_str()), ("u", "x\n")),
        _ => panic!("no section"),
    }
    assert!(matches!(page_section("u", "", " \n"), PageSection::Empty));
}

#[test]
fn docs_are_cut_at_headings() {
    assert_eq!(docs_url("serde"), ("serde".to_string(), "https://docs.rs/serde/latest/serde/".to_string()));
    assert_eq!(docs_url("serde@1.0.1").1, "https://docs.rs/serde/1.0.1/serde/");
    assert!(is_section_heading("pub fn x"));
    assert!(!is_section_heading("function x"));
    assert!(!is_section_heading(&format!("fn {}", "x".repeat(117))));
    let sections = parse_docs_rs_html("c", "intro\npub fn a()\ntext\nstruct B\nmore");
    let expected = [("c — overview", "intro"), ("pub fn a()", "text"), ("struct B", "more")];
    assert_eq!(sections.len(), 3);
    for (s, e) in sections.iter().zip(expected) {
        assert_eq!((s.0.as_str(), s.1.as_str()), e);
    }
    assert!(parse_docs_rs_html("c", "<p> </p>").is_empty());
}

#[test]
fn each_item_is_a_section() {
    let sections = parse_docs_rs_html("c", "pub fn a()\nstruct B\n\nenum C\ntext\n");
    let expected = [("pub fn a()", ""), ("struct B", ""), ("enum C", "text")];
    assert_eq!(sections.len(), 3);
    for (s, e) in sections.iter().zip(expected) {
        assert_eq!((s.0.as_str(), s.1.as_str()), e);
    }
    let sections = parse_docs_rs_html("c", "intro\nfn a()\nfn b()");
    let titles: Vec<&str> = sections.iter().map(|s| s.0.as_str()).collect();
    assert_eq!(titles, vec!["c — overview", "fn a()", "fn b()"]);
}

#[test]
fn page_text_is_plain() {
    for page in ["<p>a \t b</p>\r\n\n<b>c", "<<a>> x", " <script>1 < 2</script> \u{a0}y"] {
        let text = strip_html_basic(page);
        assert!(!text.contains('<'));
        assert!(text.chars().all(|c| !c.is_whitespace() || c == '\n'));
        assert!(!text.contains("\n\n"));
    }
}

#[test]
fn files_are_chosen() {
    assert!(is_indexable("a.rs") && is_indexable("x.yml") && !is_indexable("a.py"));
    assert!(matches!(entry_action(".git", true), EntryAction::Skip));
    assert!(matches!(entry_action("target", true), EntryAction::Skip));
    assert!(matches!(entry_action("src", true), EntryAction::Descend));
    assert!(matches!(entry_action("a.md", false), EntryAction::Read));
    assert!(matches!(entry_action("a.png", false), EntryAction::Skip));
    assert!(takes_file(MAX_FILE_SIZE, "x"));
    assert!(!takes_file(MAX_FILE_SIZE + 1, "x"));
    assert!(!takes_file(1, " \n"));
}

#[test]
fn sources_are_named() {
    match parse_source("url:http://x") {
        Some((SourceType::Url, r)) => assert_eq!(r, "http://x"),
        _ => panic!("no URL"),
    }
    assert!(matches!(parse_source("crate:a"), Some((SourceType::CrateDocs, _))));
    assert!(matches!(parse_source("dir:/a"), Some((SourceType::LocalDir, _))));
    assert!(parse_source("git:a").is_none());
    assert!(parse_source("a").is_none());
}

#[test]
fn sections_become_chunks() {
    let config = RagConfig { chunk_size: 10, chunk_overlap: 2, ..RagConfig::default() };
    let sections = vec![
        ("T".to_string(), "a".repeat(15)),
        ("U".to_string(), "b".to_string()),
    ];
    let (chunks, source) = index_source(&sections, &config, SourceType::Url, "http://x", 7);
    assert_eq!(chunks.len(), 3);
    assert_eq!(chunks[0].title, "T (part 1)");
    assert_eq!(chunks[1].title, "T (part 2)");
    assert_eq!(chunks[1].content.len(), 7);
    assert_eq!(chunks[2].title, "U");
    assert_eq!(source.chunk_count, 3);
    assert_eq!(source.id, chunks[0].source_id);
    assert_ne!(chunks[0].id, chunks[1].id);
    assert_eq!((source.indexed_at, source.last_updated), (7, 7));
    let results: Vec<SearchResult<f32>> =
        chunks.into_iter().take(1).map(|chunk| SearchResult { chunk, score: 1.0 }).collect();
    assert_eq!(
        build_context(&results),
        format!("# Relevant Documentation\n\n## [1/1] T (part 1) (from: http://x)\n\n{}\n\n---\n\n", "a".repeat(10))
    );
    assert!(indexed_text(&results[0].chunk).contains("T (part 1)"));
    assert_eq!(build_context::<f32>(&vec![]), "");
}

#[test]
fn best_scores_win() {
    let scored = |all: &[(&str, usize)]| all.iter().map(|s| (s.0.to_string(), s.1)).collect::<Vec<_>>();
    let r = rank(scored(&[("a", 1), ("b", 3), ("c", 2)]), 2);
    assert_eq!(r, scored(&[("b", 3), ("c", 2)]));
    assert_eq!(rank(scored(&[("a", 1), ("b", 1)]), 1), scored(&[("a", 1)]));
}

#[test]
fn documents_come_and_go() {
    let mut i = BM25Index::new();
    i.add_document("d", "alpha beta alpha");
    i.add_document("e", "beta");
    assert_eq!((i.doc_count(), i.total_length()), (2, 4));
    let hits = i.search("alpha");
    assert_eq!(hits[0].len(), 1);
    assert_eq!((hits[0][0].doc_id.as_str(), hits[0][0].tf, hits[0][0].length), ("d", 2, 3));
    i.add_document("d", "gamma");
    assert_eq!(i.doc_count(), 2);
    assert!(i.search("alpha").iter().all(|h| h.is_empty()));
    i.remove_document("e");
    assert!(i.search("beta").iter().all(|h| h.is_empty()));
    assert_eq!(i.total_length(), 1);
}
