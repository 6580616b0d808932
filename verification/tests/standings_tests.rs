use typeforge::content::{ContentSource, MistakeMode, TypingContent, WordLanguage, WordListSize};
use typeforge::protocol::{PlayerSnapshot, RoomPhase, RoomSnapshot};
use typeforge::session::SessionMode;
use typeforge::standings::race_order;

fn player(name: &str, finished: bool, wpm: f64, accuracy: f64, elapsed_ms: Option<u64>) -> PlayerSnapshot {
    PlayerSnapshot {
        id: name.into(),
        name: name.into(),
        ready: true,
        connected: true,
        cursor: 0,
        wpm_bits: wpm.to_bits(),
        accuracy_bits: accuracy.to_bits(),
        mistakes: 0,
        finished,
        elapsed_ms,
    }
}

fn room(mode: SessionMode, players: Vec<PlayerSnapshot>) -> RoomSnapshot {
    RoomSnapshot {
        code: "ABC234".into(),
        host_id: "a".into(),
        content: TypingContent {
            text: "one two".into(),
            source: ContentSource::Words {
                language: WordLanguage::English,
                size: WordListSize::Top200,
            },
        },
        mode,
        mistake_mode: MistakeMode::Strict,
        autopairs: false,
        phase: RoomPhase::Finished { starts_at_ms: 0 },
        players,
    }
}

#[test]
fn timed_races_rank_finishers_then_speed_then_accuracy() {
    let players = vec![
        player("slow", true, 40.0, 0.99, Some(30_000)),
        player("unfinished", false, 90.0, 1.0, None),
        player("fast", true, 70.0, 0.90, Some(30_000)),
        player("fast-accurate", true, 70.0, 0.95, Some(30_000)),
    ];
    assert_eq!(race_order(&room(SessionMode::Timed(30), players)), vec![3, 2, 0, 1]);
}

#[test]
fn other_races_rank_by_finishing_time() {
    let players = vec![
        player("typing", false, 80.0, 1.0, None),
        player("second", true, 50.0, 1.0, Some(12_000)),
        player("first", true, 60.0, 1.0, Some(9_500)),
        player("also-typing", false, 20.0, 1.0, None),
    ];
    assert_eq!(race_order(&room(SessionMode::Snippet, players)), vec![2, 1, 0, 3]);
}

#[test]
fn equal_results_keep_the_room_order() {
    let players = vec![
        player("a", true, 55.0, 0.9, Some(10_000)),
        player("b", true, 55.0, 0.9, Some(10_000)),
        player("c", true, 55.0, 0.9, Some(10_000)),
    ];
    assert_eq!(race_order(&room(SessionMode::Timed(15), players.clone())), vec![0, 1, 2]);
    assert_eq!(race_order(&room(SessionMode::WordCount(10), players)), vec![0, 1, 2]);
}

#[test]
fn negative_and_zero_speeds_follow_the_total_order() {
    let players = vec![
        player("negative", false, -1.0, 0.5, None),
        player("zero", false, 0.0, 0.5, None),
        player("negative-zero", false, -0.0, 0.5, None),
        player("small", false, 0.5, 0.5, None),
    ];
    assert_eq!(race_order(&room(SessionMode::Timed(60), players)), vec![3, 1, 2, 0]);
}

#[test]
fn empty_room_has_no_standings() {
    assert!(race_order(&room(SessionMode::Snippet, Vec::new())).is_empty());
}
