//! Code blocks of answers, and what running them says.
use hyverk::sandbox::extractor::{analyze_code, extract_rust_blocks};

#[test]
fn test_extract_basic() {
    let text = "Here is code:\n```rust\nfn main() {}\n```\nDone.";
    let blocks = extract_rust_blocks(text);
    assert_eq!(blocks.len(), 1);
    assert!(blocks[0].contains("fn main()"));
}

#[test]
fn test_extract_multiple() {
    let text = "```rust\nfn foo() {}\n```\nand\n```rust\nfn bar() {}\n```";
    let blocks = extract_rust_blocks(text);
    assert_eq!(blocks.len(), 2);
}

#[test]
fn test_no_blocks() {
    let blocks = extract_rust_blocks("No code here, just text.");
    assert!(blocks.is_empty());
}

#[test]
fn test_analyze_code() {
    let code = "/// Does something\npub fn foo() -> Result<i32, String> {\n    Ok(42)\n}\n\n#[cfg(test)]\nmod tests {\n    #[test]\n    fn test_foo() {}\n}";
    let signals = analyze_code(code);
    assert!(signals.has_doc_comments);
    assert!(signals.has_tests);
    assert!(signals.has_error_handling);
    assert_eq!(signals.function_count, 2);
}

#[test]
fn blocks_are_not_empty() {
    assert!(extract_rust_blocks("```rust\n \n```").is_empty());
    let a = "x\r\n```rust\nfn a() {}\n```\r";
    let b = "```rust\nfn b() {}";
    assert_eq!(extract_rust_blocks(&format!("{a}\n{b}")), vec!["fn a() {}", "fn b() {}"]);
    assert_eq!(extract_rust_blocks("```rust\nfn a() {}"), vec!["fn a() {}"]);
}
