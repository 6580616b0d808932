use typeforge::content::CodeLanguage;
use typeforge::syntax::{extract_snippets, strip_source_comments, structure_nodes};

#[test]
fn comments_are_removed_without_touching_strings() {
    let source = "fn url() {\n    // irrelevant explanation\n    let url = \"https://example.com\"; /* noise */\n    println!(\"{url}\");\n}";
    let stripped = strip_source_comments(CodeLanguage::Rust, source).unwrap();
    assert!(!stripped.contains("irrelevant"));
    assert!(!stripped.contains("noise"));
    assert!(stripped.contains("https://example.com"));
    assert_eq!(stripped.lines().count(), 4);
}

#[test]
fn every_language_finds_complete_structures() {
    let cases = [
        (CodeLanguage::Python, "def greet():\n    return 'hello'\n"),
        (CodeLanguage::JavaScript, "function greet() { return 'hello'; }"),
        (CodeLanguage::TypeScript, "interface User { name: string; }"),
        (CodeLanguage::Rust, "fn greet() -> &'static str { \"hello\" }"),
        (CodeLanguage::Go, "func greet() string { return \"hello\" }"),
        (CodeLanguage::Swift, "func greet() -> String { return \"hello\" }"),
        (CodeLanguage::Kotlin, "fun greet(): String { return \"hello\" }"),
        (CodeLanguage::Cpp, "int greet() { return 1; }"),
        (CodeLanguage::CSharp, "class Greeter { int Greet() { return 1; } }"),
        (CodeLanguage::Java, "class Greeter { int greet() { return 1; } }"),
    ];
    for (language, source) in cases {
        let nodes = structure_nodes(language, source).unwrap();
        assert!(!nodes.is_empty(), "{}", language.label());
    }
}

#[test]
fn structures_inside_structures_are_found_in_tree_order() {
    let source = "impl Total {\n    fn add(&self) -> u32 { 1 }\n}\nstruct Total;\n";
    let nodes = structure_nodes(CodeLanguage::Rust, source).unwrap();
    let kinds: Vec<&str> = nodes.iter().map(|node| node.kind.as_str()).collect();
    assert_eq!(kinds, vec!["impl_item", "function_item", "struct_item"]);
    assert_eq!(nodes[0].start_byte, 0);
    assert_eq!(nodes[0].depth, 1);
    assert_eq!(nodes[1].start_byte, 17);
    assert_eq!(nodes[2].end_byte, source.len() - 1);
}

#[test]
fn comment_free_code_only_loses_trailing_space() {
    let stripped = strip_source_comments(CodeLanguage::Python, "x = 1  \n\ny = 2\n").unwrap();
    assert_eq!(stripped, "x = 1\ny = 2");
}

#[test]
fn a_block_comment_across_lines_keeps_the_line_break() {
    let stripped = strip_source_comments(CodeLanguage::Cpp, "int a; /* one\ntwo */ int b;").unwrap();
    assert_eq!(stripped, "int a;\n int b;");
}

#[test]
fn extracted_snippets_are_normalised_and_record_their_origin() {
    let source = "use std::fmt;\n\nfn calculate_total() {\n    // add the tax\n    let subtotal = 12345678901234567890123456789012345678901234567890;\n    let tax = subtotal / 5;\n    subtotal + tax\n}\n";
    let snippets = extract_snippets(
        CodeLanguage::Rust,
        source,
        "octo/repo",
        "https://github.com/octo/repo",
        "main",
        "src/lib.rs",
        "MIT",
    );
    assert_eq!(snippets.len(), 1);
    let snippet = &snippets[0];
    assert_eq!(
        snippet.text,
        "fn calculate_total() {\n    let subtotal = 12345678901234567890123456789012345678901234567890;\n    let tax = subtotal / 5;\n    subtotal + tax\n}"
    );
    assert_eq!(snippet.kind, "function item");
    assert_eq!(snippet.language, CodeLanguage::Rust);
    assert_eq!(snippet.repository, "octo/repo");
    assert_eq!(snippet.url, "https://github.com/octo/repo/blob/main/src/lib.rs");
    assert_eq!(snippet.license, "MIT");
    assert!(snippet.indent_normalized);
    assert_eq!(snippet.id.len(), 64);
}

#[test]
fn structures_too_short_to_practise_give_no_snippet() {
    let snippets = extract_snippets(
        CodeLanguage::Rust,
        "fn a() {}\nstruct B;\n",
        "octo/repo",
        "https://github.com/octo/repo",
        "main",
        "src/lib.rs",
        "MIT",
    );
    assert!(snippets.is_empty());
}
