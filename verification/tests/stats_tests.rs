use typeforge::stats::{
    add_confusions, CharacterStats, MAX_SESSIONS, TOP_CONFUSIONS, next_session_id, recent_of_test, sessions_to_drop,
    top_confusions,
};

fn counts(values: &[(&str, u32)]) -> Vec<(String, u32)> {
    values.iter().map(|(pair, count)| (pair.to_string(), *count)).collect()
}

#[test]
fn most_frequent_confusions_come_first() {
    let values = counts(&[("a→s", 2), ("e→r", 9), ("o→p", 4)]);
    assert_eq!(top_confusions(&values), vec![1, 2, 0]);
}

#[test]
fn equal_counts_keep_their_order() {
    let values = counts(&[("a→s", 3), ("e→r", 3), ("o→p", 5), ("i→u", 3)]);
    assert_eq!(top_confusions(&values), vec![2, 0, 1, 3]);
}

#[test]
fn at_most_eight_are_listed() {
    let values: Vec<(String, u32)> = (0..12).map(|index| (format!("{index}"), index as u32)).collect();
    assert_eq!(top_confusions(&values), vec![11, 10, 9, 8, 7, 6, 5, 4]);
    assert_eq!(TOP_CONFUSIONS, 8);
    assert!(top_confusions(&Vec::new()).is_empty());
}

#[test]
fn character_stats_add_up_across_sessions() {
    let mut stats = CharacterStats::default();
    assert_eq!(stats, CharacterStats { correct: 0, attempts: 0, total_time_ms: 0 });
    stats.add(300, 3, 2);
    stats.add(150, 1, 1);
    assert_eq!(stats, CharacterStats { correct: 3, attempts: 4, total_time_ms: 450 });
}

#[test]
fn character_stats_stop_at_their_largest_value() {
    let mut stats = CharacterStats { correct: u32::MAX - 1, attempts: u32::MAX, total_time_ms: u64::MAX - 5 };
    stats.add(10, 1, 5);
    assert_eq!(stats, CharacterStats { correct: u32::MAX, attempts: u32::MAX, total_time_ms: u64::MAX });
}

#[test]
fn session_ids_count_up_from_one() {
    assert_eq!(next_session_id(None), 1);
    assert_eq!(next_session_id(Some(41)), 42);
}

#[test]
fn only_the_newest_thousand_sessions_are_kept() {
    assert_eq!(sessions_to_drop(0), 0);
    assert_eq!(sessions_to_drop(MAX_SESSIONS), 0);
    assert_eq!(sessions_to_drop(MAX_SESSIONS + 1), 1);
    assert_eq!(sessions_to_drop(1500), 500);
}

#[test]
fn recent_sessions_of_a_test_come_newest_first() {
    let tests: Vec<String> = vec![
        "words:english:1k:30s".into(),
        "code:rust".into(),
        "words:english:1k:30s".into(),
        "words:english:1k:30s".into(),
    ];
    assert_eq!(recent_of_test(&tests, "words:english:1k:30s", 5), vec![3, 2, 0]);
    assert_eq!(recent_of_test(&tests, "words:english:1k:30s", 2), vec![3, 2]);
    assert_eq!(recent_of_test(&tests, "code:rust", 5), vec![1]);
    assert!(recent_of_test(&tests, "code:go", 5).is_empty());
    assert!(recent_of_test(&tests, "code:rust", 0).is_empty());
}

#[test]
fn confusion_counts_add_up_per_label() {
    let mut totals = counts(&[("a→s", 2), ("e→r", 1)]);
    add_confusions(&mut totals, &counts(&[("e→r", 3), ("o→p", 1)]));
    assert_eq!(totals, counts(&[("a→s", 2), ("e→r", 4), ("o→p", 1)]));
    add_confusions(&mut totals, &counts(&[]));
    assert_eq!(totals.len(), 3);
}
