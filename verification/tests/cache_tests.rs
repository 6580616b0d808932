use typeforge::cache::{CACHE_LIMIT, files_to_remove, removable_from_cache};

#[test]
fn nothing_is_deleted_within_the_limit() {
    assert!(files_to_remove(&vec![10, 20, 30], &vec![true, true, true], 60).is_empty());
    assert!(files_to_remove(&vec![], &vec![], 0).is_empty());
}

#[test]
fn oldest_removable_files_go_first_until_the_cache_fits() {
    // 100 bytes held, limit 50: the oldest removable files go until 50 or less remain.
    let sizes = vec![30, 10, 40, 20];
    let removable = vec![false, true, true, true];
    assert_eq!(files_to_remove(&sizes, &removable, 50), vec![1, 2]);
}

#[test]
fn word_lists_are_never_deleted() {
    let sizes = vec![70, 70];
    let removable = vec![false, false];
    assert!(files_to_remove(&sizes, &removable, 10).is_empty());
}

#[test]
fn huge_totals_do_not_overflow() {
    let sizes = vec![u64::MAX, u64::MAX, 5];
    let removable = vec![true, true, true];
    assert_eq!(files_to_remove(&sizes, &removable, 5), vec![0, 1]);
}

#[test]
fn cache_limit_is_five_hundred_mebibytes() {
    assert_eq!(CACHE_LIMIT, 524_288_000);
}

#[test]
fn cache_limit_preserves_wordlists() {
    // An 8-byte word list (older) and an 8-byte GitHub response, limit 8.
    let sizes = vec![8, 8];
    let removable = vec![false, true];
    assert_eq!(files_to_remove(&sizes, &removable, 8), vec![1]);
}

#[test]
fn eviction_stops_when_only_kept_files_remain() {
    // 105 bytes, limit 50: the only removable file goes, the cache stays over the limit.
    assert_eq!(files_to_remove(&vec![100, 5], &vec![false, true], 50), vec![1]);
}

#[test]
fn only_snippets_and_github_responses_may_be_deleted() {
    assert!(removable_from_cache("snippets/rust/abc.json"));
    assert!(removable_from_cache("github/search-rust.json"));
    assert!(removable_from_cache("github"));
    assert!(!removable_from_cache("wordlists/english.json"));
    assert!(!removable_from_cache("snippetsx/a.json"));
    assert!(!removable_from_cache("indexes/rust-refresh"));
    assert!(!removable_from_cache(""));
}
