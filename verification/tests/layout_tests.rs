use typeforge::content::{ContentSource, MistakeMode, TypingContent, WordLanguage, WordListSize};
use typeforge::layout::{
    completed_words, line_cursor, shade_at, terminal_size_supported, typed_buffer, visible_mistake,
    wrap_words, Shade,
};
use typeforge::session::{Session, SessionMode};

fn content(text: &str) -> TypingContent {
    TypingContent {
        text: text.into(),
        source: ContentSource::Words {
            language: WordLanguage::English,
            size: WordListSize::Top200,
        },
    }
}

fn chars(text: &str) -> Vec<char> {
    text.chars().collect()
}

#[test]
fn line_cursor_tracks_source_lines() {
    assert_eq!(line_cursor(&chars("abcdef"), 3), (0, 3));
    assert_eq!(line_cursor(&chars("ab\ncd"), 5), (1, 2));
}

#[test]
fn line_cursor_stops_at_the_text_end() {
    assert_eq!(line_cursor(&chars("ab\n"), 10), (1, 0));
    assert_eq!(line_cursor(&chars(""), 0), (0, 0));
}

#[test]
fn words_wrap_without_leading_spaces() {
    let text = chars("one two three");
    let layout = wrap_words(&text, 8, 7);
    let rendered: Vec<String> = layout
        .rows
        .iter()
        .map(|row| row.iter().map(|&index| text[index]).collect())
        .collect();
    assert_eq!(rendered, vec!["one two", "three"]);
    assert_eq!((layout.cursor_row, layout.cursor_column), (1, 0));
}

#[test]
fn long_words_are_broken_at_the_width() {
    let text = chars("abcdefgh ij");
    let layout = wrap_words(&text, 11, 4);
    let rendered: Vec<String> = layout
        .rows
        .iter()
        .map(|row| row.iter().map(|&index| text[index]).collect())
        .collect();
    assert_eq!(rendered, vec!["abcd", "efgh", "ij"]);
    assert!(layout.rows.iter().all(|row| row.len() <= 4));
    assert_eq!((layout.cursor_row, layout.cursor_column), (2, 2));
    let zero = wrap_words(&chars("ab"), 0, 0);
    assert_eq!(zero.rows.len(), 3);
}

#[test]
fn typed_buffer_keeps_actual_mistakes() {
    let mut session = Session::new(content("ab"), SessionMode::WordCount(1), MistakeMode::Free, false);
    session.type_char('a');
    session.type_char('x');
    assert_eq!(typed_buffer(&session), vec![('a', false), ('x', true)]);
}

#[test]
fn word_count_meter_reports_words() {
    let mut session = Session::new(content("one two"), SessionMode::WordCount(2), MistakeMode::Free, false);
    for character in "one ".chars() {
        session.type_char(character);
    }
    let completed = completed_words(&session);
    assert_eq!(completed, 1);
    let ratio = (completed as f64 / 2.0).clamp(0.0, 1.0);
    assert_eq!(ratio, 0.5);
    assert_eq!(
        format!("{completed} / 2 words · {:.0}%", ratio * 100.0),
        "1 / 2 words · 50%"
    );
    for character in "two".chars() {
        session.type_char(character);
    }
    assert_eq!(completed_words(&session), 2);
}

#[test]
fn mistakes_show_invisible_keys() {
    assert_eq!(visible_mistake('\n'), "↵");
    assert_eq!(visible_mistake('\t'), "⇥");
    assert_eq!(visible_mistake(' '), "·");
    assert_eq!(visible_mistake('q'), "q");
}

#[test]
fn expected_text_shades_follow_the_results() {
    let mut session = Session::new(
        TypingContent {
            text: "(ab)".into(),
            source: ContentSource::Words {
                language: WordLanguage::English,
                size: WordListSize::Top200,
            },
        },
        SessionMode::Snippet,
        MistakeMode::Free,
        true,
    );
    session.type_char('(');
    session.type_char('x');
    assert_eq!(shade_at(&session, 0), Shade::Typed);
    assert_eq!(shade_at(&session, 1), Shade::Mistake);
    assert_eq!(shade_at(&session, 2), Shade::Pending);
    assert_eq!(shade_at(&session, 3), Shade::Typed);
}

#[test]
fn terminal_size_boundary_is_explicit() {
    assert!(terminal_size_supported(64, 20));
    assert!(!terminal_size_supported(63, 20));
    assert!(!terminal_size_supported(64, 19));
}
