use typeforge::content::{ContentSource, MistakeMode, TypingContent, WordLanguage, WordListSize};
use typeforge::protocol::{ClientMessage, RoomPhase, ServerMessage, START_ACCURACY_BITS};
use typeforge::relay::{
    progress_gate, PROGRESS_INTERVAL_MS, token, unique_room_code, validate_content, validate_name, Admission, FreshIds, RelayState,
};
use typeforge::session::SessionMode;

fn content() -> TypingContent {
    TypingContent {
        text: "fn race() {}".into(),
        source: ContentSource::Words {
            language: WordLanguage::English,
            size: WordListSize::Top200,
        },
    }
}

fn create_message(name: &str) -> ClientMessage {
    ClientMessage::Create {
        name: name.into(),
        content: content(),
        mode: SessionMode::Snippet,
        mistake_mode: MistakeMode::Strict,
        autopairs: false,
    }
}

fn join_message(code: &str, name: &str, resume_token: Option<String>) -> ClientMessage {
    ClientMessage::Join {
        code: code.into(),
        name: name.into(),
        resume_token,
    }
}

fn welcome_token(admission: &Admission) -> String {
    match &admission.deliveries[0].message {
        ServerMessage::Welcome { resume_token, .. } => resume_token.clone(),
        other => panic!("expected welcome, got {other:?}"),
    }
}

/// Creates a room and returns (code, player id, connection id, resume token).
fn create(state: &mut RelayState, name: &str) -> (String, String, String, String) {
    let admission = state.connect(create_message(name)).unwrap();
    let resume_token = welcome_token(&admission);
    (
        admission.code,
        admission.player_id,
        admission.connection_id,
        resume_token,
    )
}

fn room_index(state: &RelayState, code: &str) -> usize {
    state.room_index(code).unwrap()
}

fn player<'a>(state: &'a RelayState, code: &str, id: &str) -> &'a typeforge::relay::Player {
    let room = &state.rooms[room_index(state, code)];
    room.players
        .iter()
        .find(|player| player.snapshot.id == id)
        .unwrap()
}

fn progress(cursor: usize, finished: bool, elapsed_ms: u64) -> ClientMessage {
    ClientMessage::Progress {
        cursor,
        wpm_bits: 80.0f64.to_bits(),
        accuracy_bits: 0.98f64.to_bits(),
        mistakes: 1,
        finished,
        elapsed_ms,
    }
}

#[test]
fn reconnect_replaces_the_old_connection() {
    let mut state = RelayState::new();
    let (code, player_id, old_connection, resume_token) = create(&mut state, "host");
    state.disconnect(&code, &player_id, &old_connection, 10);
    let admission = state
        .connect(join_message(&code, "host", Some(resume_token)))
        .unwrap();
    let new_connection = admission.connection_id.clone();
    state.disconnect(&code, &player_id, &old_connection, 20);
    let player = player(&state, &code, &player_id);
    assert!(player.snapshot.connected);
    assert_eq!(player.connection_id, new_connection);
}

#[test]
fn host_can_start_when_a_guest_is_not_ready() {
    let mut state = RelayState::new();
    let (code, host_id, _, _) = create(&mut state, "host");
    state
        .connect(join_message(&code, "guest", None))
        .unwrap();
    let output = state.handle_message_at(&code, &host_id, ClientMessage::Start, 1_000);
    let room = &state.rooms[room_index(&state, &code)];
    assert!(matches!(room.phase, RoomPhase::Countdown { .. }));
    assert_eq!(output.countdown, Some(4_000));
    assert_eq!(output.deliveries.len(), 2);
}

#[test]
fn timed_race_finishes_without_reaching_the_content_end() {
    let mut state = RelayState::new();
    let (code, player_id, _, _) = create(&mut state, "host");
    let index = room_index(&state, &code);
    state.rooms[index].mode = SessionMode::Timed(15);
    state.rooms[index].phase = RoomPhase::Racing { starts_at_ms: 0 };
    state.handle_message_at(&code, &player_id, progress(1, true, 15_000), 16_000);
    assert!(player(&state, &code, &player_id).snapshot.finished);
}

#[test]
fn progress_is_bounded_by_shared_content() {
    let mut state = RelayState::new();
    let (code, player_id, _, _) = create(&mut state, "host");
    let index = room_index(&state, &code);
    state.rooms[index].phase = RoomPhase::Racing { starts_at_ms: 0 };
    state.handle_message_at(&code, &player_id, progress(usize::MAX, false, 500), 600);
    let room = &state.rooms[room_index(&state, &code)];
    assert_eq!(
        player(&state, &code, &player_id).snapshot.cursor,
        room.content.text.chars().count()
    );
}

#[test]
fn create_welcomes_the_host_with_a_six_character_code() {
    let mut state = RelayState::new();
    let admission = state.connect(create_message("  host  ")).unwrap();
    assert_eq!(admission.code.chars().count(), 6);
    assert_eq!(admission.deliveries.len(), 1);
    match &admission.deliveries[0].message {
        ServerMessage::Welcome { player_id, resume_token, room } => {
            assert_eq!(player_id, &admission.player_id);
            assert_eq!(resume_token.len(), 32);
            assert_eq!(room.players.len(), 1);
            assert_eq!(room.players[0].name, "host");
            assert_eq!(room.players[0].accuracy_bits, START_ACCURACY_BITS);
            assert_eq!(f64::from_bits(room.players[0].accuracy_bits), 1.0);
            assert_eq!(room.host_id, admission.player_id);
            assert_eq!(room.phase, RoomPhase::Lobby);
        }
        other => panic!("expected welcome, got {other:?}"),
    }
}

#[test]
fn accept_uses_the_given_fresh_values() {
    let mut state = RelayState::new();
    let fresh = FreshIds {
        code: "ABCDEF".into(),
        player_id: "p1".into(),
        resume_token: "secret".into(),
        connection_id: "c1".into(),
    };
    let admission = state.accept(create_message("host"), fresh, 5).unwrap();
    assert_eq!(admission.code, "ABCDEF");
    assert_eq!(admission.player_id, "p1");
    assert_eq!(admission.connection_id, "c1");
    assert_eq!(state.rooms[0].last_active_ms, 5);
    let join = FreshIds {
        code: "UNUSED".into(),
        player_id: "p2".into(),
        resume_token: "other".into(),
        connection_id: "c2".into(),
    };
    let admission = state
        .accept(join_message(" abcdef ", "guest", None), join, 9)
        .unwrap();
    assert_eq!(admission.code, "ABCDEF");
    assert_eq!(admission.deliveries.len(), 3);
    assert_eq!(admission.deliveries[0].player_id, "p2");
    assert_eq!(admission.deliveries[1].player_id, "p1");
    assert_eq!(admission.deliveries[2].player_id, "p2");
    assert_eq!(state.rooms[0].players.len(), 2);
    assert_eq!(state.rooms[0].last_active_ms, 9);
}

#[test]
fn join_errors_name_the_problem() {
    let mut state = RelayState::new();
    let (code, host_id, _, _) = create(&mut state, "host");
    let missing = state.connect(join_message("ZZZZZZ", "guest", None));
    assert_eq!(missing.unwrap_err(), "Room not found");
    let taken = state.connect(join_message(&code, "HOST", None));
    assert_eq!(taken.unwrap_err(), "Name already in use");
    let nameless = state.connect(join_message(&code, " \t ", None));
    assert_eq!(nameless.unwrap_err(), "Enter a player name");
    for index in 1..8 {
        state
            .connect(join_message(&code, &format!("guest{index}"), None))
            .unwrap();
    }
    let full = state.connect(join_message(&code, "late", None));
    assert_eq!(full.unwrap_err(), "Room is full");
    let index = room_index(&state, &code);
    state.rooms[index].phase = RoomPhase::Racing { starts_at_ms: 0 };
    let started = state.connect(join_message(&code, "later", None));
    assert_eq!(started.unwrap_err(), "Race already started");
    let wrong = state.connect(ClientMessage::Start);
    assert_eq!(wrong.unwrap_err(), "Expected create or join request");
    assert!(player(&state, &code, &host_id).snapshot.connected);
}

#[test]
fn create_refuses_bad_content() {
    let mut state = RelayState::new();
    let mut empty = content();
    empty.text.clear();
    let result = state.connect(ClientMessage::Create {
        name: "host".into(),
        content: empty,
        mode: SessionMode::Snippet,
        mistake_mode: MistakeMode::Free,
        autopairs: false,
    });
    assert_eq!(result.unwrap_err(), "Race content is empty");
    let mut large = content();
    large.text = "é".repeat(25_001);
    let result = state.connect(ClientMessage::Create {
        name: "host".into(),
        content: large,
        mode: SessionMode::Snippet,
        mistake_mode: MistakeMode::Free,
        autopairs: false,
    });
    assert_eq!(result.unwrap_err(), "Race content is too large");
    assert!(state.rooms.is_empty());
}

#[test]
fn content_limit_counts_bytes() {
    let mut text = content();
    text.text = "a".repeat(50_000);
    assert!(validate_content(&text).is_ok());
    text.text = "é".repeat(25_000);
    assert!(validate_content(&text).is_ok());
    text.text.push('a');
    assert_eq!(validate_content(&text).unwrap_err(), "Race content is too large");
}

#[test]
fn names_are_trimmed_cleaned_and_shortened() {
    assert_eq!(validate_name("  ada  ").unwrap(), "ada");
    assert_eq!(validate_name("a\u{7}b").unwrap(), "ab");
    assert_eq!(
        validate_name("abcdefghijklmnopqrstuvwxyz").unwrap(),
        "abcdefghijklmnop"
    );
    assert_eq!(validate_name("\u{1}\u{2}").unwrap_err(), "Enter a player name");
}

#[test]
fn only_the_host_starts_and_only_with_two_players() {
    let mut state = RelayState::new();
    let (code, host_id, _, _) = create(&mut state, "host");
    let alone = state.handle_message_at(&code, &host_id, ClientMessage::Start, 0);
    match &alone.deliveries[0].message {
        ServerMessage::Error { message, fatal } => {
            assert_eq!(message, "At least two players are required");
            assert!(!fatal);
        }
        other => panic!("expected error, got {other:?}"),
    }
    let guest = state
        .connect(join_message(&code, "guest", None))
        .unwrap();
    let refused = state.handle_message_at(&code, &guest.player_id, ClientMessage::Start, 0);
    match &refused.deliveries[0].message {
        ServerMessage::Error { message, .. } => assert_eq!(message, "Only the host can start"),
        other => panic!("expected error, got {other:?}"),
    }
    assert_eq!(refused.deliveries[0].player_id, guest.player_id);
    assert_eq!(state.rooms[0].phase, RoomPhase::Lobby);
}

#[test]
fn countdown_turns_into_the_race() {
    let mut state = RelayState::new();
    let (code, host_id, _, _) = create(&mut state, "host");
    state
        .connect(join_message(&code, "guest", None))
        .unwrap();
    let output = state.handle_message_at(&code, &host_id, ClientMessage::Start, 100);
    let starts_at_ms = output.countdown.unwrap();
    assert!(state.finish_countdown(&code, starts_at_ms + 1).is_empty());
    let deliveries = state.finish_countdown(&code, starts_at_ms);
    assert_eq!(deliveries.len(), 2);
    assert_eq!(state.rooms[0].phase, RoomPhase::Racing { starts_at_ms });
}

#[test]
fn readiness_and_ping() {
    let mut state = RelayState::new();
    let (code, host_id, _, _) = create(&mut state, "host");
    state.handle_message_at(&code, &host_id, ClientMessage::SetReady { ready: true }, 3);
    assert!(player(&state, &code, &host_id).snapshot.ready);
    let pong = state.handle_message_at(&code, &host_id, ClientMessage::Ping { nonce: 7 }, 42);
    match &pong.deliveries[0].message {
        ServerMessage::Pong { nonce, server_time_ms } => {
            assert_eq!(*nonce, 7);
            assert_eq!(*server_time_ms, 42);
        }
        other => panic!("expected pong, got {other:?}"),
    }
    assert_eq!(state.rooms[0].last_active_ms, 42);
    let stranger = state.handle_message_at(&code, "nobody", ClientMessage::Ping { nonce: 1 }, 50);
    assert!(stranger.deliveries.is_empty());
}

#[test]
fn all_connected_finishing_ends_the_race() {
    let mut state = RelayState::new();
    let (code, host_id, _, _) = create(&mut state, "host");
    let guest = state
        .connect(join_message(&code, "guest", None))
        .unwrap();
    state.rooms[0].phase = RoomPhase::Racing { starts_at_ms: 10 };
    let early = state.handle_message_at(&code, &host_id, progress(12, true, 1), 5);
    assert!(early.deliveries.is_empty());
    let text_len = state.rooms[0].content.text.chars().count();
    state.handle_message_at(&code, &host_id, progress(text_len, true, 900), 20);
    assert_eq!(state.rooms[0].phase, RoomPhase::Racing { starts_at_ms: 10 });
    state.disconnect(&code, &guest.player_id, &guest.connection_id, 21);
    state.handle_message_at(&code, &host_id, progress(text_len, true, 900), 22);
    assert_eq!(state.rooms[0].phase, RoomPhase::Finished { starts_at_ms: 10 });
    assert_eq!(player(&state, &code, &host_id).snapshot.elapsed_ms, Some(900));
}

#[test]
fn host_leaving_hands_the_room_over() {
    let mut state = RelayState::new();
    let (code, host_id, host_connection, _) = create(&mut state, "host");
    let guest = state
        .connect(join_message(&code, "guest", None))
        .unwrap();
    let deliveries = state.disconnect(&code, &host_id, &host_connection, 30);
    assert_eq!(deliveries.len(), 2);
    assert_eq!(state.rooms[0].host_id, guest.player_id);
    assert!(!player(&state, &code, &host_id).snapshot.connected);
    assert_eq!(state.rooms[0].last_active_ms, 30);
}

#[test]
fn idle_empty_rooms_are_dropped() {
    let mut state = RelayState::new();
    let (code, host_id, connection, _) = create(&mut state, "host");
    create(&mut state, "other");
    state.disconnect(&code, &host_id, &connection, 1_000);
    state.retain_active(1_000 + 299_999);
    assert_eq!(state.rooms.len(), 2);
    state.retain_active(1_000 + 300_000);
    assert_eq!(state.rooms.len(), 1);
    assert!(state.room_index(&code).is_none());
}

#[test]
fn random_identifiers_have_their_shape() {
    let id = token(12);
    assert_eq!(id.len(), 12);
    assert!(id.chars().all(|c| c.is_ascii_alphanumeric()));
    let state = RelayState::new();
    let code = unique_room_code(&state.rooms).unwrap();
    assert_eq!(code.len(), 6);
    assert!(code
        .chars()
        .all(|c| "ABCDEFGHJKLMNPQRSTUVWXYZ23456789".contains(c)));
}

fn progress_report(finished: bool) -> ClientMessage {
    ClientMessage::Progress {
        cursor: 3,
        wpm_bits: 0,
        accuracy_bits: START_ACCURACY_BITS,
        mistakes: 0,
        finished,
        elapsed_ms: 1_000,
    }
}

#[test]
fn unfinished_progress_is_rate_limited() {
    assert_eq!(PROGRESS_INTERVAL_MS, 50);
    assert_eq!(progress_gate(&progress_report(false), 1_000, 1_049), (false, 1_000));
    assert_eq!(progress_gate(&progress_report(false), 1_000, 1_050), (true, 1_050));
    assert_eq!(progress_gate(&progress_report(false), 0, 100), (true, 100));
}

#[test]
fn finishing_reports_and_other_messages_always_pass() {
    assert_eq!(progress_gate(&progress_report(true), 1_000, 1_001), (true, 1_000));
    assert_eq!(progress_gate(&ClientMessage::Start, 1_000, 1_001), (true, 1_000));
    assert_eq!(progress_gate(&ClientMessage::Ping { nonce: 7 }, 1_000, 1_001), (true, 1_000));
}

#[test]
fn requests_failing_a_check_get_that_answer_on_a_busy_relay() {
    let mut state = RelayState { rooms: Vec::new() };
    state.connect(create_message("host")).unwrap();
    let empty = ClientMessage::Create {
        name: "second".into(),
        content: TypingContent { text: String::new(), ..content() },
        mode: SessionMode::Snippet,
        mistake_mode: MistakeMode::Strict,
        autopairs: false,
    };
    assert_eq!(state.connect(empty).err(), Some("Race content is empty".to_string()));
    assert_eq!(state.connect(create_message("   ")).err(), Some("Enter a player name".to_string()));
    assert_eq!(state.connect(ClientMessage::Start).err(), Some("Expected create or join request".to_string()));
    assert_eq!(state.rooms.len(), 1);
    assert_eq!(state.rooms[0].players.len(), 1);
}
