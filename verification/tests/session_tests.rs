use typeforge::content::{ContentSource, MistakeMode, TypingContent, WordLanguage, WordListSize};
use typeforge::session::{CharResult, Session, SessionMode};

fn content(text: &str) -> TypingContent {
    TypingContent {
        text: text.into(),
        source: ContentSource::Words {
            language: WordLanguage::English,
            size: WordListSize::Top200,
        },
    }
}

#[test]
fn strict_mode_marks_tail_until_error_is_deleted() {
    let mut session = Session::new(
        content("abcd"),
        SessionMode::WordCount(1),
        MistakeMode::Strict,
        false,
    );
    session.type_char('x');
    session.type_char('b');
    assert_eq!(session.cursor, 2);
    assert_eq!(session.results[1], CharResult::Incorrect('b'));
    session.backspace();
    session.backspace();
    session.type_char('a');
    assert_eq!(session.cursor, 1);
    assert_eq!(session.mistakes, 2);
}

#[test]
fn corrected_mistakes_remain_in_the_keystroke_timeline() {
    let mut session = Session::new(
        content("ab"),
        SessionMode::WordCount(1),
        MistakeMode::Strict,
        false,
    );
    session.type_char('x');
    session.backspace();
    session.type_char('a');
    assert_eq!(session.keystrokes.len(), 2);
    assert_eq!(session.keystrokes[0].typed, 'x');
    assert!(!session.keystrokes[0].accepted);
    assert!(session.keystrokes[1].accepted);
}

#[test]
fn progress_timeline_tracks_deleted_correct_characters() {
    let mut session = Session::new(
        content("ab"),
        SessionMode::WordCount(1),
        MistakeMode::Strict,
        false,
    );
    session.type_char('a');
    session.backspace();
    session.type_char('a');
    assert_eq!(
        session
            .progress
            .iter()
            .map(|event| event.correct_chars)
            .collect::<Vec<_>>(),
        vec![1, 0, 1]
    );
}

#[test]
fn free_mode_advances_on_error() {
    let mut session = Session::new(
        content("ab"),
        SessionMode::WordCount(1),
        MistakeMode::Free,
        false,
    );
    session.type_char('x');
    assert_eq!(session.cursor, 1);
}

#[test]
fn strict_error_tail_cannot_complete_session() {
    let mut session = Session::new(
        content("ab"),
        SessionMode::WordCount(1),
        MistakeMode::Strict,
        false,
    );
    session.type_char('x');
    session.type_char('b');
    assert_eq!(session.cursor, 2);
    assert!(!session.is_complete());
}

#[test]
fn word_delete_uses_editor_boundaries() {
    let mut session = Session::new(
        content("alpha beta_value + gamma"),
        SessionMode::WordCount(3),
        MistakeMode::Free,
        false,
    );
    for character in "alpha beta_value + ".chars() {
        session.type_char(character);
    }
    session.delete_word();
    assert_eq!(session.cursor, "alpha beta_value ".chars().count());
    session.delete_word();
    assert_eq!(session.cursor, "alpha ".chars().count());
}

#[test]
fn newline_skips_existing_indentation() {
    let mut session = Session::new(
        content("a\n    b"),
        SessionMode::Snippet,
        MistakeMode::Strict,
        false,
    );
    session.type_char('a');
    session.type_char('\n');
    assert_eq!(session.cursor, 6);
}

#[test]
fn autopairs_skip_matched_closing_brackets() {
    let mut session = Session::new(
        content("call([x]) { y }"),
        SessionMode::Snippet,
        MistakeMode::Strict,
        true,
    );
    for character in "call(".chars() {
        session.type_char(character);
    }
    assert!(session.is_auto_paired(8));
    assert_eq!(session.results[8], CharResult::Pending);
    for character in "[x { y ".chars() {
        session.type_char(character);
    }
    assert!(session.is_complete());
    assert_eq!(session.total_keystrokes, 12);
    assert_eq!(
        session
            .results
            .iter()
            .filter(|result| **result == CharResult::Skipped)
            .count(),
        3
    );
}

#[test]
fn backspace_skips_nested_auto_paired_closers() {
    let mut session = Session::new(
        content("([x])y"),
        SessionMode::Snippet,
        MistakeMode::Strict,
        true,
    );
    for character in "([x".chars() {
        session.type_char(character);
    }
    session.backspace();
    assert_eq!(session.cursor, 2);
    assert_eq!(session.results[2], CharResult::Pending);
    assert_eq!(session.results[3..5], [CharResult::Pending; 2]);
    assert_eq!(session.corrections, 1);
    session.type_char('x');
    assert_eq!(session.cursor, 5);
}

#[test]
fn backspace_removes_empty_auto_pair_as_one_input() {
    let mut session = Session::new(
        content("()x"),
        SessionMode::Snippet,
        MistakeMode::Strict,
        true,
    );
    session.type_char('(');
    session.backspace();
    assert_eq!(session.cursor, 0);
    assert_eq!(&session.results[..2], &[CharResult::Pending; 2]);
    assert!(!session.is_auto_paired(1));
    assert_eq!(session.corrections, 1);
}

#[test]
fn backspace_crosses_auto_pair_without_clearing_earlier_strict_error() {
    let mut session = Session::new(
        content("(ab)c"),
        SessionMode::Snippet,
        MistakeMode::Strict,
        true,
    );
    session.type_char('(');
    session.type_char('x');
    session.type_char('b');
    session.backspace();
    assert_eq!(session.cursor, 2);
    assert_eq!(session.latest_error(), Some(('a', 'x')));
    session.backspace();
    assert_eq!(session.cursor, 1);
    assert_eq!(session.latest_error(), None);
}

#[test]
fn backspace_does_not_skip_unmatched_closers() {
    let mut session = Session::new(
        content("x}y"),
        SessionMode::Snippet,
        MistakeMode::Strict,
        true,
    );
    session.type_char('x');
    session.type_char('}');
    session.backspace();
    assert_eq!(session.cursor, 1);
    assert_eq!(session.results[1], CharResult::Pending);
}

#[test]
fn word_delete_ignores_auto_paired_closers() {
    let mut session = Session::new(
        content("(word) x"),
        SessionMode::Snippet,
        MistakeMode::Strict,
        true,
    );
    for character in "(word".chars() {
        session.type_char(character);
    }
    session.delete_word();
    assert_eq!(session.cursor, 1);
    assert_eq!(session.results[5], CharResult::Pending);
}

#[test]
fn line_delete_stops_before_auto_paired_closing_line() {
    let mut session = Session::new(
        content("{\nx\n}y"),
        SessionMode::Snippet,
        MistakeMode::Strict,
        true,
    );
    for character in "{\nx\n".chars() {
        session.type_char(character);
    }
    session.delete_line();
    assert_eq!(session.cursor, 4);
    assert_eq!(session.results[4], CharResult::Pending);
}

#[test]
fn autopairs_finish_before_final_closing_line() {
    let mut session = Session::new(
        content("{\nx\n}"),
        SessionMode::Snippet,
        MistakeMode::Strict,
        true,
    );
    for character in "{\nx".chars() {
        session.type_char(character);
    }
    assert!(session.is_complete());
    assert_eq!(&session.results[3..], &[CharResult::Skipped; 2]);
}

#[test]
fn autopairs_skip_closers_after_free_mode_errors() {
    let mut session = Session::new(
        content("(a)"),
        SessionMode::Snippet,
        MistakeMode::Free,
        true,
    );
    session.type_char('(');
    session.type_char('x');
    assert!(session.is_complete());
    assert_eq!(session.results[2], CharResult::Skipped);
}

#[test]
fn autopairs_do_not_skip_unmatched_closers() {
    let mut session = Session::new(
        content("print(\"}\")"),
        SessionMode::Snippet,
        MistakeMode::Strict,
        true,
    );
    for character in "print(\"}\"".chars() {
        session.type_char(character);
    }
    assert!(session.is_complete());
    assert_eq!(session.results[7], CharResult::Correct);
    assert_eq!(session.results[9], CharResult::Skipped);
}

#[test]
fn auto_paired_closer_is_green_before_cursor_reaches_it() {
    let mut session = Session::new(content("(x)"), SessionMode::Snippet, MistakeMode::Strict, true);
    session.type_char('(');
    assert!(session.is_auto_paired(2));
    assert_eq!(session.results[2], CharResult::Pending);
}

#[test]
fn typing_the_text_completes_the_session() {
    let mut session = Session::new(
        content("fn a() {\n    b(c);\n}"),
        SessionMode::Snippet,
        MistakeMode::Strict,
        true,
    );
    // Closers of typed openers are filled in, and so is the indentation.
    for character in "fn a( {\nb(c;".chars() {
        session.type_char(character);
    }
    assert!(session.is_complete());
    assert_eq!(session.mistakes, 0);
    assert_eq!(session.correct_keystrokes, session.total_keystrokes);
}

#[test]
fn a_key_press_logs_judges_and_counts_once() {
    let mut session = Session::new(content("ab\ncd"), SessionMode::WordCount(2), MistakeMode::Free, false);
    session.type_char_at('a', 1_000);
    session.type_char_at('x', 1_250);
    assert_eq!(session.total_keystrokes, 2);
    assert_eq!(session.keystrokes.len(), 2);
    let last = session.keystrokes[1];
    assert_eq!(last.position, 1);
    assert_eq!(last.expected, 'b');
    assert_eq!(last.typed, 'x');
    assert!(!last.accepted);
    assert_eq!(last.elapsed_ms, 250);
    assert_eq!(session.results[0], CharResult::Correct);
    assert_eq!(session.results[1], CharResult::Incorrect('x'));
    assert_eq!(session.correct_keystrokes + session.mistakes, 2);
    assert_eq!(session.cursor, 2);
    assert_eq!(session.progress.len(), 2);
}

#[test]
fn a_key_press_past_the_end_changes_nothing() {
    let mut session = Session::new(content("a"), SessionMode::WordCount(1), MistakeMode::Free, false);
    session.type_char_at('a', 10);
    session.type_char_at('b', 20);
    assert_eq!(session.total_keystrokes, 1);
    assert_eq!(session.keystrokes.len(), 1);
    assert_eq!(session.cursor, 1);
}

#[test]
fn deleting_the_line_goes_back_to_its_start() {
    let mut session = Session::new(content("ab\ncde"), SessionMode::WordCount(2), MistakeMode::Free, false);
    for (step, key) in "ab\ncx".chars().enumerate() {
        session.type_char_at(key, 100 * step as u64);
    }
    assert_eq!(session.cursor, 5);
    session.delete_line_at(1_000);
    assert_eq!(session.cursor, 3);
    assert_eq!(session.corrections, 2);
    assert_eq!(session.results[3], CharResult::Pending);
    assert_eq!(session.results[4], CharResult::Pending);
    assert_eq!(session.results[0], CharResult::Correct);
    assert_eq!(session.results[2], CharResult::Correct);
}

#[test]
fn free_mode_shows_the_latest_real_mistake_before_the_caret() {
    let mut session = Session::new(content("abcd"), SessionMode::WordCount(1), MistakeMode::Free, false);
    assert_eq!(session.latest_error(), None);
    session.type_char_at('x', 10);
    session.type_char_at('b', 20);
    session.type_char_at('y', 30);
    assert_eq!(session.latest_error(), Some(('c', 'y')));
    session.backspace_at(40);
    assert_eq!(session.latest_error(), Some(('a', 'x')));
}

#[test]
fn closers_are_filled_only_after_their_opener_and_only_with_pairs() {
    let mut paired = Session::new(content("f(x)"), SessionMode::WordCount(1), MistakeMode::Free, true);
    assert!(!paired.is_auto_paired(3));
    paired.type_char_at('f', 10);
    paired.type_char_at('(', 20);
    assert!(paired.is_auto_paired(3));
    assert!(!paired.is_auto_paired(9));
    let mut plain = Session::new(content("f(x)"), SessionMode::WordCount(1), MistakeMode::Free, false);
    plain.type_char_at('f', 10);
    plain.type_char_at('(', 20);
    assert!(!plain.is_auto_paired(3));
}
