use typeforge::content::CodeLanguage;
use typeforge::sources::{is_candidate_file, license_allowed, new_snippet, snippet_id, tree_cache_file};

#[test]
fn permissive_licences_are_allowed_in_any_case() {
    assert!(license_allowed("MIT"));
    assert!(license_allowed("Apache-2.0"));
    assert!(license_allowed("bsd-3-clause"));
    assert!(license_allowed("ISC"));
    assert!(!license_allowed("GPL-3.0"));
    assert!(!license_allowed("NOASSERTION"));
    assert!(!license_allowed(""));
}

#[test]
fn candidate_files_are_sized_source_blobs() {
    let rust = CodeLanguage::Rust;
    assert!(is_candidate_file("blob", Some(500), "src/lib.rs", rust));
    assert!(is_candidate_file("blob", Some(100), "a.b/main.rs", rust));
    assert!(is_candidate_file("blob", Some(150_000), "main.rs", rust));
    assert!(!is_candidate_file("tree", Some(500), "src/lib.rs", rust));
    assert!(!is_candidate_file("blob", Some(99), "src/lib.rs", rust));
    assert!(!is_candidate_file("blob", Some(150_001), "src/lib.rs", rust));
    assert!(!is_candidate_file("blob", None, "src/lib.rs", rust));
    assert!(!is_candidate_file("blob", Some(500), "src/lib.py", rust));
    assert!(!is_candidate_file("blob", Some(500), "src/.rs", rust));
    assert!(!is_candidate_file("blob", Some(500), "src.rs/lib", rust));
    assert!(!is_candidate_file("blob", Some(500), "vendor/x/lib.rs", rust));
    assert!(!is_candidate_file("blob", Some(500), "a/generated/lib.rs", rust));
    assert!(!is_candidate_file("blob", Some(500), "web/node_modules/a.ts", CodeLanguage::TypeScript));
    assert!(is_candidate_file("blob", Some(500), "web/app.tsx", CodeLanguage::TypeScript));
    assert!(is_candidate_file("blob", Some(500), "include/a.hpp", CodeLanguage::Cpp));
}

#[test]
fn snippet_ids_digest_their_origin_and_text() {
    assert_eq!(
        snippet_id("octo/repo", "src/lib.rs", 42, "fn main() {}"),
        "8b6bb9e3507285b8976d98f8a31a722fef9cd3dfbe2f33b8e588311405b8e350"
    );
    assert_eq!(
        tree_cache_file("octo/repo"),
        "tree-56c07efda77690834534eb1bb9174f22b66a9bf624f1a208d43030cb80732435.json"
    );
}

#[test]
fn new_snippets_record_where_they_come_from() {
    let snippet = new_snippet(
        CodeLanguage::Rust,
        "function_item",
        "fn main() {}".to_string(),
        "octo/repo",
        "https://github.com/octo/repo",
        "main",
        "src/lib.rs",
        "MIT",
        42,
    );
    assert_eq!(snippet.id, "8b6bb9e3507285b8976d98f8a31a722fef9cd3dfbe2f33b8e588311405b8e350");
    assert_eq!(snippet.kind, "function item");
    assert_eq!(snippet.url, "https://github.com/octo/repo/blob/main/src/lib.rs");
    assert_eq!(snippet.repository, "octo/repo");
    assert_eq!(snippet.license, "MIT");
    assert!(snippet.indent_normalized);
}
