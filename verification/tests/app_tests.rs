use typeforge::app::{
    countdown_remaining_ms, clock_offset_ms, cycle, load_request, multiplayer_now_ms, pick_words,
    remember_repository, result_labels, retry_mode, room_update, session_autopairs, snippet_pool,
    choose_snippet, word_sample_size, words_text, App, AppState, CaretStyle, RoomEntryAction,
    RoomUpdate, Settings,
};
use typeforge::content::{
    CodeLanguage, ContentSource, MistakeMode, PracticeKind, Snippet, WordLanguage, WordLength,
    WordListSize,
};
use typeforge::protocol::RoomPhase;
use typeforge::session::SessionMode;
use typeforge::snippet::LoadRequest;

fn app() -> App {
    App::new(Settings::default(), "ada".into(), None)
}

fn snippet(id: &str, repository: &str) -> Snippet {
    Snippet {
        id: id.into(),
        language: CodeLanguage::Rust,
        kind: "function item".into(),
        text: "fn a() {}".into(),
        repository: repository.into(),
        path: "src/lib.rs".into(),
        url: "https://example.com/x".into(),
        license: "MIT".into(),
        indent_normalized: true,
    }
}

#[test]
fn lowercase_words_is_enabled_by_default() {
    assert!(Settings::default().lowercase_words);
}

#[test]
fn timed_sessions_have_enough_words_for_300_wpm() {
    assert_eq!(word_sample_size(SessionMode::Timed(120)), 600);
    assert_eq!(word_sample_size(SessionMode::WordCount(25)), 25);
    assert_eq!(word_sample_size(SessionMode::Snippet), 0);
}

#[test]
fn default_settings() {
    let settings = Settings::default();
    assert_eq!(settings.practice, PracticeKind::Words);
    assert_eq!(settings.word_list, WordListSize::Top1k);
    assert_eq!(settings.word_mode, SessionMode::Timed(30));
    assert_eq!(settings.code_language, CodeLanguage::Rust);
    assert_eq!(settings.caret_style, CaretStyle::BlinkingBar);
    assert!(!settings.code_autopairs);
}

#[test]
fn cycling_wraps_in_both_directions() {
    let sizes = [WordListSize::Top200, WordListSize::Top1k, WordListSize::Top5k, WordListSize::Top10k];
    assert_eq!(cycle(WordListSize::Top10k, &sizes, true), WordListSize::Top200);
    assert_eq!(cycle(WordListSize::Top200, &sizes, false), WordListSize::Top10k);
    assert_eq!(cycle(WordListSize::Top1k, &sizes, true), WordListSize::Top5k);
    assert_eq!(cycle(cycle(WordListSize::Top5k, &sizes, true), &sizes, false), WordListSize::Top5k);
    let short = [WordListSize::Top1k];
    assert_eq!(cycle(WordListSize::Top200, &short, false), WordListSize::Top1k);
    assert_eq!(CaretStyle::SteadyUnderline.label(), "steady underline");
}

#[test]
fn menu_rows_and_navigation() {
    let mut app = app();
    assert_eq!(app.menu_rows(), 9);
    app.menu_prev();
    assert_eq!(app.menu_selection, 8);
    app.menu_next();
    assert_eq!(app.menu_selection, 0);
    app.menu_change(1);
    assert_eq!(app.settings.practice, PracticeKind::Code);
    assert_eq!(app.menu_rows(), 6);
    app.menu_selection = 1;
    app.menu_change(-1);
    assert_eq!(app.settings.code_language, CodeLanguage::TypeScript);
    app.menu_selection = 3;
    app.menu_change(1);
    assert!(app.settings.code_autopairs);
    app.menu_selection = 5;
    assert!(app.menu_activate());
}

#[test]
fn word_menu_rows_change_their_values() {
    let mut app = app();
    app.menu_selection = 4;
    app.menu_change(1);
    assert_eq!(app.settings.word_mode, SessionMode::Timed(60));
    app.menu_selection = 3;
    app.menu_change(-1);
    assert_eq!(app.settings.word_length, WordLength::Long);
    app.menu_selection = 6;
    assert!(!app.menu_activate());
    assert!(!app.settings.lowercase_words);
    app.menu_selection = 7;
    app.menu_change(1);
    assert_eq!(app.settings.caret_style, CaretStyle::SteadyBar);
    app.menu_selection = 5;
    app.menu_change(1);
    assert_eq!(app.settings.mistake_mode, MistakeMode::Free);
    app.menu_selection = 1;
    app.menu_change(1);
    assert_eq!(app.settings.word_language, WordLanguage::Russian);
}

#[test]
fn room_codes_are_cleaned_when_the_room_screen_opens() {
    let mut app = app();
    app.open_multiplayer(Some(" ab-c1d9xyz ".into()));
    assert_eq!(app.room_code_input, "ABC1D9");
    assert_eq!(app.room_entry_selection, 2);
    assert_eq!(app.state, AppState::RoomEntry);
    app.open_multiplayer(None);
    assert_eq!(app.room_code_input, "");
    assert_eq!(app.room_entry_selection, 1);
}

#[test]
fn room_entry_typing_and_actions() {
    let mut app = app();
    app.open_multiplayer(None);
    assert_eq!(app.room_entry_activate(), RoomEntryAction::Nothing);
    assert_eq!(app.status.as_deref(), Some("Enter a room code"));
    for character in "ab1-xyz9".chars() {
        app.room_entry_type(character);
    }
    assert_eq!(app.room_code_input, "AB1XYZ");
    app.room_entry_backspace();
    assert_eq!(app.room_code_input, "AB1XY");
    assert_eq!(app.room_entry_activate(), RoomEntryAction::Join);
    app.room_entry_prev();
    assert_eq!(app.room_entry_selection, 0);
    app.room_entry_type('!');
    app.room_entry_type('\u{7}');
    assert_eq!(app.player_name, "ada!");
    assert_eq!(app.room_entry_activate(), RoomEntryAction::Nothing);
    assert_eq!(app.room_entry_selection, 1);
    app.room_entry_next();
    app.room_entry_next();
    assert_eq!(app.room_entry_activate(), RoomEntryAction::Host);
    assert!(app.hosting_room);
    app.cancel_loading();
    assert!(!app.hosting_room);
    assert_eq!(app.state, AppState::Menu);
}

#[test]
fn analysis_lines_stay_within_the_text() {
    let mut app = app();
    app.open_analysis(false);
    assert_eq!(app.state, AppState::Menu);
    app.open_analysis(true);
    assert_eq!(app.state, AppState::Analysis);
    app.analysis_line_next(Some("a\nb\nc"));
    app.analysis_line_next(Some("a\nb\nc"));
    app.analysis_line_next(Some("a\nb\nc"));
    assert_eq!(app.analysis_line, 2);
    app.analysis_line_prev();
    assert_eq!(app.analysis_line, 1);
    app.analysis_line_next(None);
    assert_eq!(app.analysis_line, 0);
    app.analysis_line_prev();
    assert_eq!(app.analysis_line, 0);
    app.close_analysis();
    assert_eq!(app.state, AppState::Results);
}

#[test]
fn word_results_are_labelled_by_their_settings() {
    let settings = Settings::default();
    let source = ContentSource::Words {
        language: WordLanguage::English,
        size: WordListSize::Top1k,
    };
    let labels = result_labels(&source, SessionMode::Timed(30), MistakeMode::Strict, &settings);
    assert_eq!(labels.test_id, "words:english:1k:Any:30s:Strict:true");
    assert_eq!(labels.language, "English 1k");
    assert_eq!(labels.content, "30s");
    assert!(labels.source.is_none());
}

#[test]
fn code_results_name_their_origin() {
    let mut settings = Settings::default();
    settings.code_autopairs = true;
    let source = ContentSource::Code(snippet("s1", "owner/repo"));
    let labels = result_labels(&source, SessionMode::Snippet, MistakeMode::Free, &settings);
    assert_eq!(labels.test_id, "code:rust:Free:autopairs");
    assert_eq!(labels.language, "Rust");
    assert_eq!(labels.content, "function item");
    assert_eq!(
        labels.source.as_deref(),
        Some("owner/repo · src/lib.rs · MIT\nhttps://example.com/x")
    );
    assert_eq!(labels.snippet_id.as_deref(), Some("s1"));
    assert!(session_autopairs(&settings, &source));
    assert_eq!(retry_mode(&settings, &source), SessionMode::Snippet);
}

#[test]
fn sessions_load_what_the_settings_ask_for() {
    let mut settings = Settings::default();
    assert_eq!(
        load_request(&settings, true),
        LoadRequest::Words(WordLanguage::English, WordListSize::Top1k)
    );
    settings.practice = PracticeKind::Code;
    assert_eq!(load_request(&settings, false), LoadRequest::Code(CodeLanguage::Rust));
    assert_eq!(load_request(&settings, true), LoadRequest::Refresh(CodeLanguage::Rust));
}

#[test]
fn room_updates_move_between_screens() {
    assert_eq!(
        room_update(AppState::Menu, true, false, false, RoomPhase::Lobby, 0),
        RoomUpdate { state: AppState::Lobby, create_session: false, start_at: None }
    );
    assert_eq!(
        room_update(AppState::Lobby, true, false, false, RoomPhase::Countdown { starts_at_ms: 10 }, 5),
        RoomUpdate { state: AppState::Countdown, create_session: true, start_at: None }
    );
    assert_eq!(
        room_update(AppState::Countdown, true, true, false, RoomPhase::Racing { starts_at_ms: 10 }, 10),
        RoomUpdate { state: AppState::Typing, create_session: false, start_at: Some(10) }
    );
    assert_eq!(
        room_update(AppState::Results, true, false, true, RoomPhase::Lobby, 0),
        RoomUpdate { state: AppState::Results, create_session: false, start_at: None }
    );
    assert_eq!(
        room_update(AppState::Typing, true, false, true, RoomPhase::Finished { starts_at_ms: 1 }, 9),
        RoomUpdate { state: AppState::Results, create_session: false, start_at: None }
    );
    assert_eq!(
        room_update(AppState::Lobby, true, false, false, RoomPhase::Finished { starts_at_ms: 1 }, 9),
        RoomUpdate { state: AppState::Typing, create_session: true, start_at: Some(1) }
    );
}

#[test]
fn clocks_and_countdowns() {
    assert_eq!(countdown_remaining_ms(Some(100), 40), Some(60));
    assert_eq!(countdown_remaining_ms(Some(100), 140), Some(0));
    assert_eq!(countdown_remaining_ms(None, 1), None);
    assert_eq!(multiplayer_now_ms(100, -30), 70);
    assert_eq!(multiplayer_now_ms(10, -30), 0);
    assert_eq!(multiplayer_now_ms(u64::MAX - 1, 5), u64::MAX);
    assert_eq!(multiplayer_now_ms(5, i64::MIN), 0);
    assert_eq!(clock_offset_ms(1_000, 1_100, 2_000), 950);
}

#[test]
fn words_are_drawn_from_the_accepted_ones() {
    let words: Vec<String> = vec!["Alpha".into(), "be".into(), "gamma".into()];
    assert_eq!(
        words_text(&words, &vec![2, 0, 2], false),
        "gamma Alpha gamma"
    );
    assert_eq!(words_text(&words, &vec![0], true), "alpha");
    let text = pick_words(&words, WordLength::Short, 3, false).unwrap();
    assert_eq!(text, "be be be");
    assert!(pick_words(&words, WordLength::Long, 3, false).is_none());
    let lower = pick_words(&words, WordLength::Medium, 4, true).unwrap();
    assert!(lower.split(' ').all(|word| word == "alpha" || word == "gamma"));
    assert_eq!(lower.split(' ').count(), 4);
}

#[test]
fn snippet_pool_prefers_fresh_repositories() {
    let snippets = vec![snippet("a", "one"), snippet("b", "two"), snippet("c", "two")];
    let seen: Vec<String> = vec!["a".into()];
    let recent: Vec<String> = vec!["two".into()];
    let (pool, reset) = snippet_pool(&snippets, &seen, &recent, &None);
    assert!(!reset);
    assert_eq!(pool, vec![1, 2]);
    let (pool, _) = snippet_pool(&snippets, &vec![], &vec!["two".into()], &None);
    assert_eq!(pool, vec![0]);
    let all_seen: Vec<String> = vec!["a".into(), "b".into(), "c".into()];
    let (pool, reset) = snippet_pool(&snippets, &all_seen, &recent, &Some("two".into()));
    assert!(reset);
    assert_eq!(pool, vec![0, 1, 2]);
    let chosen = choose_snippet(&snippets, &vec![1, 2]).unwrap();
    assert!(chosen == 1 || chosen == 2);
    assert!(choose_snippet(&snippets, &vec![]).is_none());
}

#[test]
fn recent_repositories_keep_the_latest_five() {
    let mut last = None;
    let mut recent: Vec<String> = Vec::new();
    for name in ["a", "b", "c", "d", "e", "f", "c"] {
        remember_repository(&mut last, &mut recent, name);
    }
    assert_eq!(last.as_deref(), Some("c"));
    assert_eq!(recent, vec!["b", "d", "e", "f", "c"]);
}

#[test]
fn saved_settings_are_restored() {
    let settings = Settings {
        lowercase_words: false,
        caret_style: CaretStyle::SteadyBlock,
        ..Settings::default()
    };
    let app = App::new(settings, "player".into(), None);
    assert_eq!(app.settings, settings);
}

#[test]
fn retry_resets_active_session() {
    let content = typeforge::content::TypingContent {
        text: "ab".into(),
        source: ContentSource::Words {
            language: WordLanguage::English,
            size: WordListSize::Top200,
        },
    };
    let settings = Settings::default();
    let mut session =
        typeforge::session::Session::new(content.clone(), SessionMode::WordCount(1), settings.mistake_mode, false);
    session.type_char('a');
    assert_eq!(session.cursor, 1);
    let mode = retry_mode(&settings, &content.source);
    let autopairs = session_autopairs(&settings, &content.source);
    let retried = typeforge::session::Session::new(content, mode, settings.mistake_mode, autopairs);
    assert_eq!(retried.cursor, 0);
    assert_eq!(retried.mode, settings.word_mode);
}

#[test]
fn default_player_name_drops_control_characters_and_keeps_sixteen() {
    assert_eq!(typeforge::app::default_player_name("ada"), "ada");
    assert_eq!(typeforge::app::default_player_name("a\u{7}d\na"), "ada");
    assert_eq!(
        typeforge::app::default_player_name("abcdefghijklmnopqrstuvwxyz"),
        "abcdefghijklmnop"
    );
    assert_eq!(typeforge::app::default_player_name(""), "");
}
