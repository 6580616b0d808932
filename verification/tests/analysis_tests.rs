use typeforge::analysis::{correct_chars_at, format_error, line_analyses, LineSummary};
use typeforge::session::{KeystrokeEvent, ProgressEvent};

fn event_at(elapsed_ms: u64, position: usize, expected: char, typed: char) -> KeystrokeEvent {
    KeystrokeEvent {
        elapsed_ms,
        position,
        expected,
        typed,
        accepted: expected == typed,
    }
}

fn progress(elapsed_ms: u64, correct_chars: u32) -> ProgressEvent {
    ProgressEvent {
        elapsed_ms,
        correct_chars,
    }
}

fn wpm_of(line: &LineSummary) -> f64 {
    let seconds = line.end_ms.saturating_sub(line.start_ms) as f64 / 1_000.0;
    line.correct as f64 / 5.0 / (seconds.max(0.1) / 60.0)
}

fn wpm_at(events: &[ProgressEvent], seconds: f64) -> f64 {
    let correct = correct_chars_at(&events.to_vec(), (seconds * 1_000.0) as u64);
    correct as f64 / 5.0 / (seconds.max(0.1) / 60.0)
}

#[test]
fn lines_combine_timing_and_mistakes() {
    let events = vec![
        event_at(0, 0, 'a', 'a'),
        event_at(500, 1, 'b', 'b'),
        event_at(1_000, 2, '\n', '\n'),
        event_at(1_500, 3, 'c', 'x'),
        event_at(1_800, 3, 'c', 'c'),
        event_at(2_000, 4, 'd', 'd'),
    ];
    let lines = line_analyses("ab\ncd", &events, &vec![true; 5], 5, 3_000);
    assert_eq!(lines.len(), 2);
    assert_eq!((lines[0].start_ms, lines[0].end_ms), (0, 1_000));
    assert_eq!((lines[1].start_ms, lines[1].end_ms), (1_000, 3_000));
    assert_eq!(lines[1].mistakes.len(), 1);
    assert_eq!(lines[1].mistakes[0], 3);
    assert!((wpm_of(&lines[1]) - 12.0).abs() < f64::EPSILON * 10.0);
    assert_eq!(lines[0].correct, 3);
    assert_eq!(lines[1].start_position, 3);
    assert_eq!(lines[1].length, 2);
}

#[test]
fn lines_past_the_recorded_positions_count_nothing_correct() {
    let lines = line_analyses("ab\ncd", &vec![], &vec![true; 3], 0, 500);
    assert_eq!(lines[0].correct, 3);
    assert_eq!(lines[1].correct, 0);
    assert_eq!((lines[0].start_ms, lines[0].end_ms), (0, 500));
    assert_eq!((lines[1].start_ms, lines[1].end_ms), (500, 500));
    assert_eq!(line_analyses("", &vec![], &vec![], 0, 0).len(), 1);
}

#[test]
fn cumulative_wpm_uses_the_whole_session() {
    let events = vec![progress(1_000, 1), progress(6_000, 2)];
    assert!((wpm_at(&events, 6.0) - 4.0).abs() < f64::EPSILON * 10.0);
}

#[test]
fn cumulative_wpm_reflects_deleted_correct_characters() {
    let events = vec![progress(0, 1), progress(500, 0), progress(1_000, 1)];
    assert_eq!(wpm_at(&events, 0.75), 0.0);
    assert!((wpm_at(&events, 1.0) - 12.0).abs() < f64::EPSILON * 10.0);
    assert_eq!(correct_chars_at(&vec![progress(10, 4)], 9), 0);
}

#[test]
fn mistakes_are_listed_with_visible_keys() {
    assert_eq!(format_error('a', &vec!['x']), "a→x");
    assert_eq!(format_error('\n', &vec![' ', 'q']), "↵→·/q");
    assert_eq!(format_error('b', &vec![]), "b→");
}
