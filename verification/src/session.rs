//! A typing session: the caret, per-character results and the keystroke log.
use vstd::prelude::*;

use crate::content::{MistakeMode, TypingContent};
use crate::protocol::now_ms;
use crate::text::{
    append_decimal, chars_of, is_alphanumeric, is_whitespace, push_char, spec_decimal,
    spec_is_alphanumeric, spec_is_whitespace,
};

verus! {

broadcast use vstd::string::group_string_axioms;

/// When a session ends.
#[derive(Debug, Clone, Copy, PartialEq, Eq, Structural)]
pub enum SessionMode {
    /// After the given number of seconds.
    Timed(u64),
    /// After the given number of words.
    WordCount(u32),
    /// When the whole snippet is typed.
    Snippet,
}

pub open spec fn spec_mode_label(mode: SessionMode) -> Seq<char> {
    match mode {
        SessionMode::Timed(seconds) => spec_decimal(seconds as nat) + "s"@,
        SessionMode::WordCount(words) => spec_decimal(words as nat) + " words"@,
        SessionMode::Snippet => "complete snippet"@,
    }
}

impl SessionMode {
    pub fn label(self) -> (r: String)
        ensures
            r@ == spec_mode_label(self),
    {
        match self {
            SessionMode::Timed(seconds) => {
                let mut s = String::new();
                append_decimal(&mut s, seconds);
                s.append("s");
                s
            },
            SessionMode::WordCount(words) => {
                let mut s = String::new();
                append_decimal(&mut s, words as u64);
                s.append(" words");
                s
            },
            SessionMode::Snippet => "complete snippet".to_owned(),
        }
    }
}

/// What became of one character of the text.
#[derive(Debug, Clone, Copy, PartialEq, Eq, Structural)]
pub enum CharResult {
    /// Not reached yet.
    Pending,
    /// Typed correctly.
    Correct,
    /// Passed over automatically (indentation, auto-paired closers).
    Skipped,
    /// Typed wrongly; holds the key that was pressed.
    Incorrect(char),
}

/// One key press, as logged for the analysis screen.
#[derive(Debug, Clone, Copy, PartialEq, Eq, Structural)]
pub struct KeystrokeEvent {
    pub elapsed_ms: u64,
    pub position: usize,
    pub expected: char,
    pub typed: char,
    pub accepted: bool,
}

/// Number of correct characters at a moment of the session.
#[derive(Debug, Clone, Copy, PartialEq, Eq, Structural)]
pub struct ProgressEvent {
    pub elapsed_ms: u64,
    pub correct_chars: u32,
}

/// Time and accuracy spent on one expected character.
#[derive(Debug, Clone, Copy, PartialEq, Eq, Structural)]
pub struct CharTiming {
    pub character: char,
    pub total_ms: u64,
    pub attempts: u32,
    pub correct: u32,
}

/// How often one expected character was replaced by another key.
#[derive(Debug, Clone, Copy, PartialEq, Eq, Structural)]
pub struct Confusion {
    pub expected: char,
    pub typed: char,
    pub count: u32,
}

pub open spec fn closer_of(c: char) -> Option<char> {
    if c == '(' {
        Some(')')
    } else if c == '[' {
        Some(']')
    } else if c == '{' {
        Some('}')
    } else {
        None
    }
}

/// Left-to-right bracket scan over the first `n` characters: the stack of
/// open brackets (position, expected closer) and, for each closer that
/// matched the innermost open bracket, the position of that bracket.
pub open spec fn bracket_scan(chars: Seq<char>, n: nat) -> (Seq<(usize, char)>, Seq<Option<usize>>)
    decreases n,
{
    if n == 0 {
        (seq![], Seq::new(chars.len(), |i: int| None))
    } else {
        let (stack, matches) = bracket_scan(chars, (n - 1) as nat);
        let c = chars[n - 1];
        match closer_of(c) {
            Some(closer) => (stack.push(((n - 1) as usize, closer)), matches),
            None => if stack.len() > 0 && stack.last().1 == c {
                (stack.drop_last(), matches.update(n - 1, Some(stack.last().0)))
            } else {
                (stack, matches)
            },
        }
    }
}

/// For each position, the opening bracket that a closer there matches.
pub open spec fn spec_matched_openers(chars: Seq<char>) -> Seq<Option<usize>> {
    bracket_scan(chars, chars.len()).1
}

/// Every recorded opener precedes its closer and is the matching open bracket.
pub open spec fn openers_valid(chars: Seq<char>, openers: Seq<Option<usize>>) -> bool {
    &&& openers.len() == chars.len()
    &&& forall|i: int|
        0 <= i < openers.len() && #[trigger] openers[i] is Some ==> {
            let o = openers[i]->0 as int;
            &&& 0 <= o < i
            &&& closer_of(chars[o]) == Some(chars[i])
        }
}

proof fn lemma_bracket_scan(chars: Seq<char>, n: nat)
    requires
        n <= chars.len(),
        chars.len() <= usize::MAX,
    ensures
        ({
            let (stack, matches) = bracket_scan(chars, n);
            &&& matches.len() == chars.len()
            &&& forall|k: int|
                0 <= k < stack.len() ==> (#[trigger] stack[k]).0 < n && closer_of(
                    chars[stack[k].0 as int],
                ) == Some(stack[k].1)
            &&& forall|i: int|
                0 <= i < matches.len() && #[trigger] matches[i] is Some ==> {
                    let o = matches[i]->0 as int;
                    &&& i < n
                    &&& 0 <= o < i
                    &&& closer_of(chars[o]) == Some(chars[i])
                }
        }),
    decreases n,
{
    if n > 0 {
        lemma_bracket_scan(chars, (n - 1) as nat);
        let (stack, matches) = bracket_scan(chars, (n - 1) as nat);
        let c = chars[n - 1];
        let (stack2, matches2) = bracket_scan(chars, n);
        match closer_of(c) {
            Some(closer) => {
                assert forall|k: int| 0 <= k < stack2.len() implies (#[trigger] stack2[k]).0 < n
                    && closer_of(chars[stack2[k].0 as int]) == Some(stack2[k].1) by {
                    if k < stack.len() {
                        assert(stack2[k] == stack[k]);
                    } else {
                        assert(stack2[k] == ((n - 1) as usize, closer));
                    }
                }
            },
            None => {
                if stack.len() > 0 && stack.last().1 == c {
                    let top = stack.last();
                    assert(top == stack[stack.len() - 1]);
                    assert forall|k: int| 0 <= k < stack2.len() implies (#[trigger] stack2[k]).0
                        < n && closer_of(chars[stack2[k].0 as int]) == Some(stack2[k].1) by {
                        assert(stack2[k] == stack[k]);
                    }
                    assert forall|i: int| 0 <= i < matches2.len() && #[trigger] matches2[i] is Some implies {
                        let o = matches2[i]->0 as int;
                        &&& i < n
                        &&& 0 <= o < i
                        &&& closer_of(chars[o]) == Some(chars[i])
                    } by {
                        if i != n - 1 {
                            assert(matches2[i] == matches[i]);
                        }
                    }
                }
            },
        }
    }
}

fn matched_bracket_openers(chars: &Vec<char>) -> (r: Vec<Option<usize>>)
    ensures
        r@ == spec_matched_openers(chars@),
        openers_valid(chars@, r@),
{
    let mut openers: Vec<(usize, char)> = Vec::new();
    let mut matches: Vec<Option<usize>> = vec![None; chars.len()];
    proof {
        assert(matches@ =~= bracket_scan(chars@, 0).1);
    }
    let mut index: usize = 0;
    while index < chars.len()
        invariant
            index <= chars@.len(),
            (openers@, matches@) == bracket_scan(chars@, index as nat),
            matches@.len() == chars@.len(),
        decreases chars@.len() - index,
    {
        let character = chars[index];
        let closer: Option<char> = if character == '(' {
            Some(')')
        } else if character == '[' {
            Some(']')
        } else if character == '{' {
            Some('}')
        } else {
            None
        };
        match closer {
            Some(closer) => {
                openers.push((index, closer));
            },
            None => {
                if openers.len() > 0 && openers[openers.len() - 1].1 == character {
                    let top = openers.pop().unwrap();
                    matches.set(index, Some(top.0));
                }
            },
        }
        index += 1;
    }
    proof {
        lemma_bracket_scan(chars@, chars@.len());
    }
    matches
}


pub open spec fn sat_sub(a: u64, b: u64) -> u64 {
    if a >= b {
        (a - b) as u64
    } else {
        0
    }
}

/// Whether a character belongs to a word for word-wise deletion.
pub open spec fn is_word_char(c: char) -> bool {
    spec_is_alphanumeric(c) || c == '_'
}

/// Index of the first entry at or after `from` that records `c`, or -1.
pub open spec fn timing_index(ts: Seq<CharTiming>, c: char, from: int) -> int
    decreases ts.len() - from,
{
    if from < 0 || from >= ts.len() {
        -1
    } else if ts[from].character == c {
        from
    } else {
        timing_index(ts, c, from + 1)
    }
}

/// Index of the first entry at or after `from` that records the pair, or -1.
pub open spec fn confusion_index(cs: Seq<Confusion>, expected: char, typed: char, from: int) -> int
    decreases cs.len() - from,
{
    if from < 0 || from >= cs.len() {
        -1
    } else if cs[from].expected == expected && cs[from].typed == typed {
        from
    } else {
        confusion_index(cs, expected, typed, from + 1)
    }
}

/// Adds one attempt at `c` taking `interval` ms to the timing table.
pub open spec fn add_timing(ts: Seq<CharTiming>, c: char, interval: u64, accepted: bool) -> Seq<
    CharTiming,
> {
    let i = timing_index(ts, c, 0);
    let hit: int = if accepted { 1 } else { 0 };
    if i >= 0 {
        ts.update(
            i,
            CharTiming {
                character: c,
                total_ms: (ts[i].total_ms + interval) as u64,
                attempts: (ts[i].attempts + 1) as u32,
                correct: (ts[i].correct + hit) as u32,
            },
        )
    } else {
        ts.push(CharTiming { character: c, total_ms: interval, attempts: 1, correct: hit as u32 })
    }
}

/// Counts one more time `typed` was pressed where `expected` was due.
pub open spec fn add_confusion(cs: Seq<Confusion>, expected: char, typed: char) -> Seq<Confusion> {
    let i = confusion_index(cs, expected, typed, 0);
    if i >= 0 {
        cs.update(i, Confusion { expected, typed, count: (cs[i].count + 1) as u32 })
    } else {
        cs.push(Confusion { expected, typed, count: 1 })
    }
}

/// The mathematical state of a session.
#[verifier::ext_equal]
pub struct TypingModel {
    pub content: TypingContent,
    pub mode: SessionMode,
    pub mistake_mode: MistakeMode,
    pub chars: Seq<char>,
    pub openers: Seq<Option<usize>>,
    pub results: Seq<CharResult>,
    pub cursor: int,
    pub error: Option<usize>,
    pub start: Option<u64>,
    pub last: Option<u64>,
    pub total: int,
    pub correct: int,
    pub mistakes: int,
    pub corrections: int,
    pub keystrokes: Seq<KeystrokeEvent>,
    pub progress: Seq<ProgressEvent>,
    pub timings: Seq<CharTiming>,
    pub confusions: Seq<Confusion>,
}

impl TypingModel {
    pub open spec fn len(self) -> int {
        self.chars.len() as int
    }

    pub open spec fn strict(self) -> bool {
        self.mistake_mode == MistakeMode::Strict
    }

    pub open spec fn latest_ms(self) -> u64 {
        match self.last {
            Some(l) => l,
            None => 0,
        }
    }

    /// A closer whose matching opener was typed correctly: it is filled in automatically.
    pub open spec fn auto_paired(self, i: int) -> bool {
        &&& 0 <= i < self.openers.len()
        &&& self.openers[i] is Some
        &&& 0 <= self.openers[i]->0 < self.results.len()
        &&& self.results[self.openers[i]->0 as int] == CharResult::Correct
    }

    pub open spec fn wf(self) -> bool {
        &&& self.results.len() == self.chars.len()
        &&& openers_valid(self.chars, self.openers)
        &&& self.chars.len() <= usize::MAX
        &&& 0 <= self.cursor <= self.len()
        &&& forall|i: int|
            0 <= i < self.results.len() ==> ((#[trigger] self.results[i] != CharResult::Pending)
                <==> i < self.cursor)
        &&& self.error matches Some(k) ==> {
            &&& self.strict()
            &&& (k as int) < self.cursor
            &&& self.results[k as int] is Incorrect
            &&& !self.auto_paired(k as int)
        }
        &&& 0 <= self.correct <= self.total <= u32::MAX
        &&& 0 <= self.mistakes <= self.total
        &&& 0 <= self.corrections <= u32::MAX
        &&& self.keystrokes.len() == self.total
        &&& forall|i: int|
            0 <= i < self.timings.len() ==> {
                let t = #[trigger] self.timings[i];
                t.correct <= t.attempts <= self.total && t.total_ms <= self.latest_ms()
            }
        &&& forall|i: int|
            0 <= i < self.confusions.len() ==> (#[trigger] self.confusions[i]).count
                <= self.mistakes
    }

    pub open spec fn with_result(self, i: int, r: CharResult) -> TypingModel {
        TypingModel { results: self.results.update(i, r), ..self }
    }

    /// Passes over consecutive auto-paired closers at the caret.
    pub open spec fn skip_closers_loop(self) -> TypingModel
        decreases self.len() - self.cursor,
    {
        if 0 <= self.cursor < self.len() && self.auto_paired(self.cursor) {
            TypingModel {
                cursor: self.cursor + 1,
                ..self.with_result(self.cursor, CharResult::Skipped)
            }.skip_closers_loop()
        } else {
            self
        }
    }

    /// The rest of the text is a line break followed by nothing but
    /// whitespace and auto-paired closers, at least one of them.
    pub open spec fn closing_tail(self) -> bool {
        &&& self.error is None
        &&& 0 <= self.cursor < self.len()
        &&& self.chars[self.cursor] == '\n'
        &&& forall|j: int|
            self.cursor <= j < self.len() ==> spec_is_whitespace(#[trigger] self.chars[j])
                || self.auto_paired(j)
        &&& exists|j: int| self.cursor <= j < self.len() && #[trigger] self.auto_paired(j)
    }

    pub open spec fn skip_closers(self) -> TypingModel {
        if self.closing_tail() {
            TypingModel {
                results: self.results.take(self.cursor) + Seq::new(
                    (self.len() - self.cursor) as nat,
                    |i: int| CharResult::Skipped,
                ),
                cursor: self.len(),
                ..self
            }
        } else {
            self.skip_closers_loop()
        }
    }

    /// Passes over spaces and tabs at the caret.
    pub open spec fn skip_indent_loop(self) -> TypingModel
        decreases self.len() - self.cursor,
    {
        if 0 <= self.cursor < self.len() && (self.chars[self.cursor] == ' ' || self.chars[self.cursor]
            == '\t') {
            TypingModel {
                cursor: self.cursor + 1,
                ..self.with_result(self.cursor, CharResult::Skipped)
            }.skip_indent_loop()
        } else {
            self
        }
    }

    pub open spec fn record_progress(self, now: u64) -> TypingModel {
        match self.start {
            Some(s) => TypingModel {
                progress: self.progress.push(
                    ProgressEvent { elapsed_ms: sat_sub(now, s), correct_chars: self.correct as u32 },
                ),
                ..self
            },
            None => self,
        }
    }

    /// One key press at the caret (which must be inside the text).
    pub open spec fn keystroke(self, typed: char, now: u64) -> TypingModel {
        let p = self.cursor;
        let expected = self.chars[p];
        let accepted = typed == expected && self.error is None;
        let start = match self.start {
            Some(s) => s,
            None => now,
        };
        let interval = match self.last {
            Some(l) => sat_sub(now, l),
            None => 0,
        };
        let event = KeystrokeEvent {
            elapsed_ms: sat_sub(now, start),
            position: p as usize,
            expected,
            typed,
            accepted,
        };
        let base = TypingModel {
            start: Some(start),
            last: Some(now),
            total: self.total + 1,
            keystrokes: self.keystrokes.push(event),
            timings: add_timing(self.timings, expected, interval, accepted),
            ..self
        };
        if accepted {
            let after = TypingModel {
                correct: self.correct + 1,
                cursor: p + 1,
                ..base.with_result(p, CharResult::Correct)
            };
            if expected == '\n' {
                after.skip_indent_loop()
            } else {
                after
            }
        } else {
            TypingModel {
                mistakes: self.mistakes + 1,
                confusions: if typed != expected {
                    add_confusion(self.confusions, expected, typed)
                } else {
                    self.confusions
                },
                error: if self.strict() && self.error is None {
                    Some(p as usize)
                } else {
                    self.error
                },
                cursor: p + 1,
                ..base.with_result(p, CharResult::Incorrect(typed))
            }
        }
    }


    /// Steps back over auto-paired closers before the caret, un-filling them.
    pub open spec fn skip_back_loop(self) -> TypingModel
        decreases self.cursor,
    {
        if 0 < self.cursor <= self.len() && self.auto_paired(self.cursor - 1) {
            TypingModel {
                cursor: self.cursor - 1,
                ..self.with_result(self.cursor - 1, CharResult::Pending)
            }.skip_back_loop()
        } else {
            self
        }
    }

    /// Backspace at time `now`: steps back over auto-paired closers, then
    /// un-types the character before the caret.
    pub open spec fn backspace(self, now: u64) -> TypingModel {
        let m = self.skip_back_loop();
        if m.cursor <= 0 {
            m
        } else {
            let p = m.cursor - 1;
            TypingModel {
                cursor: p,
                error: if m.error == Some(p as usize) {
                    None
                } else {
                    m.error
                },
                correct: if m.results[p] == CharResult::Correct && m.correct > 0 {
                    m.correct - 1
                } else {
                    m.correct
                },
                corrections: m.corrections + 1,
                ..m.with_result(p, CharResult::Pending)
            }.record_progress(now)
        }
    }

    /// Backspaces while the character before the caret is whitespace.
    pub open spec fn backspace_while_space(self, now: u64) -> TypingModel
        decreases self.cursor,
    {
        if 0 < self.cursor <= self.len() && spec_is_whitespace(self.chars[self.cursor - 1]) {
            proof {
                lemma_backspace_cursor(self, now);
            }
            self.backspace(now).backspace_while_space(now)
        } else {
            self
        }
    }

    /// Backspaces while the character before the caret is a non-space
    /// character of the given class (word character or not).
    pub open spec fn backspace_while_class(self, word: bool, now: u64) -> TypingModel
        decreases self.cursor,
    {
        if 0 < self.cursor <= self.len() && !spec_is_whitespace(self.chars[self.cursor - 1])
            && is_word_char(self.chars[self.cursor - 1]) == word {
            proof {
                lemma_backspace_cursor(self, now);
            }
            self.backspace(now).backspace_while_class(word, now)
        } else {
            self
        }
    }

    /// Backspaces while the character before the caret is not a line break.
    pub open spec fn backspace_while_in_line(self, now: u64) -> TypingModel
        decreases self.cursor,
    {
        if 0 < self.cursor <= self.len() && self.chars[self.cursor - 1] != '\n' {
            proof {
                lemma_backspace_cursor(self, now);
            }
            self.backspace(now).backspace_while_in_line(now)
        } else {
            self
        }
    }

    /// Deleting the word before the caret, editor style: trailing
    /// whitespace, then a run of word characters or of other symbols.
    pub open spec fn delete_word(self, now: u64) -> TypingModel {
        let m = self.skip_back_loop().backspace_while_space(now);
        if m.cursor <= 0 || m.cursor > m.len() {
            m
        } else {
            m.backspace_while_class(is_word_char(m.chars[m.cursor - 1]), now)
        }
    }

    /// Deleting back to the start of the current line.
    pub open spec fn delete_line(self, now: u64) -> TypingModel {
        self.skip_back_loop().backspace_while_in_line(now)
    }


    /// The latest mistake before position `n` whose key differed from the text.
    pub open spec fn last_mistake(self, n: int) -> Option<(char, char)>
        decreases n,
    {
        if n <= 0 || n > self.len() {
            None
        } else {
            match self.results[n - 1] {
                CharResult::Incorrect(t) => if self.chars[n - 1] != t {
                    Some((self.chars[n - 1], t))
                } else {
                    self.last_mistake(n - 1)
                },
                _ => self.last_mistake(n - 1),
            }
        }
    }

    /// The mistake to show: the one holding the caret in strict mode, else
    /// the latest real mistake before the caret.
    pub open spec fn latest_error(self) -> Option<(char, char)> {
        match self.error {
            Some(k) if self.results[k as int] is Incorrect => Some(
                (self.chars[k as int], self.results[k as int]->Incorrect_0),
            ),
            _ => self.last_mistake(if self.cursor < self.len() { self.cursor } else { self.len() }),
        }
    }

    pub open spec fn is_complete(self) -> bool {
        self.cursor >= self.len() && self.error is None
    }

    /// Milliseconds since the start at clock reading `now`.
    pub open spec fn elapsed_ms(self, now: u64) -> u64 {
        match self.start {
            Some(s) => sat_sub(now, s),
            None => 0,
        }
    }

    pub open spec fn is_timed_out(self, now: u64) -> bool {
        match self.mode {
            SessionMode::Timed(seconds) => self.start is Some && self.elapsed_ms(now) as int >= seconds
                * 1000,
            _ => false,
        }
    }

    /// Typing `typed` at time `now`.
    pub open spec fn type_char(self, typed: char, now: u64) -> TypingModel {
        let m = self.skip_closers();
        if m.cursor >= m.len() {
            m
        } else {
            m.keystroke(typed, now).skip_closers().record_progress(now)
        }
    }
}

/// A typing session over one text.
pub struct Session {
    pub content: TypingContent,
    pub chars: Vec<char>,
    pub results: Vec<CharResult>,
    pub cursor: usize,
    pub mode: SessionMode,
    pub mistake_mode: MistakeMode,
    /// Clock reading (ms) of the first key press, or of the race start.
    pub start_time: Option<u64>,
    pub total_keystrokes: u32,
    pub correct_keystrokes: u32,
    pub mistakes: u32,
    pub corrections: u32,
    pub confusion: Vec<Confusion>,
    /// Position of the uncorrected mistake that holds the caret in strict mode.
    pub strict_error_start: Option<usize>,
    /// Clock reading (ms) of the latest key press.
    pub last_keystroke: Option<u64>,
    pub char_timings: Vec<CharTiming>,
    pub keystrokes: Vec<KeystrokeEvent>,
    pub progress: Vec<ProgressEvent>,
    /// For each closer, the opening bracket it is auto-paired with.
    pub autopair_openers: Vec<Option<usize>>,
}

proof fn lemma_opener_not_closer(chars: Seq<char>, openers: Seq<Option<usize>>, i: int)
    requires
        openers_valid(chars, openers),
        0 <= i < openers.len(),
        openers[i] is Some,
    ensures
        openers[openers[i]->0 as int] is None,
{
    let o = openers[i]->0 as int;
    if openers[o] is Some {
        let o2 = openers[o]->0 as int;
        assert(closer_of(chars[o2]) == Some(chars[o]));
        assert(closer_of(chars[o]) == Some(chars[i]));
    }
}

/// Changing the result of a closer does not change which positions are auto-paired.
proof fn lemma_closer_update_keeps_pairs(m: TypingModel, j: int, r: CharResult)
    requires
        openers_valid(m.chars, m.openers),
        m.results.len() == m.chars.len(),
        0 <= j < m.openers.len(),
        m.openers[j] is Some,
    ensures
        forall|i: int| #[trigger] m.with_result(j, r).auto_paired(i) == m.auto_paired(i),
{
    assert forall|i: int| #[trigger] m.with_result(j, r).auto_paired(i) == m.auto_paired(i) by {
        if 0 <= i < m.openers.len() && m.openers[i] is Some {
            lemma_opener_not_closer(m.chars, m.openers, i);
            lemma_opener_not_closer(m.chars, m.openers, j);
        }
    }
}

/// Changing the result at or after the caret does not change whether a
/// position before the caret is auto-paired.
proof fn lemma_late_update_keeps_pairs(m: TypingModel, j: int, r: CharResult, k: int)
    requires
        openers_valid(m.chars, m.openers),
        m.results.len() == m.chars.len(),
        0 <= k < j < m.results.len(),
    ensures
        m.with_result(j, r).auto_paired(k) == m.auto_paired(k),
{
    if k < m.openers.len() && m.openers[k] is Some {
        assert(m.openers[k]->0 < k);
    }
}

proof fn lemma_skip_closers_loop(m: TypingModel)
    requires
        m.wf(),
    ensures
        m.skip_closers_loop().wf(),
        m.cursor <= m.skip_closers_loop().cursor <= m.len(),
        m.skip_closers_loop().cursor < m.len() ==> !m.skip_closers_loop().auto_paired(
            m.skip_closers_loop().cursor,
        ),
        m.skip_closers_loop() == (TypingModel {
            results: m.skip_closers_loop().results,
            cursor: m.skip_closers_loop().cursor,
            ..m
        }),
        forall|i: int| 0 <= i < m.cursor ==> m.skip_closers_loop().results[i] == m.results[i],
    decreases m.len() - m.cursor,
{
    if 0 <= m.cursor < m.len() && m.auto_paired(m.cursor) {
        let n = TypingModel { cursor: m.cursor + 1, ..m.with_result(m.cursor, CharResult::Skipped) };
        lemma_closer_update_keeps_pairs(m, m.cursor, CharResult::Skipped);
        assert(n.wf());
        lemma_skip_closers_loop(n);
        assert forall|i: int| 0 <= i < m.cursor implies n.results[i] == m.results[i] by {}
    }
}

proof fn lemma_skip_indent_loop(m: TypingModel)
    requires
        m.wf(),
    ensures
        m.skip_indent_loop().wf(),
        m.cursor <= m.skip_indent_loop().cursor <= m.len(),
        m.skip_indent_loop() == (TypingModel {
            results: m.skip_indent_loop().results,
            cursor: m.skip_indent_loop().cursor,
            ..m
        }),
        forall|i: int| 0 <= i < m.cursor ==> m.skip_indent_loop().results[i] == m.results[i],
    decreases m.len() - m.cursor,
{
    if 0 <= m.cursor < m.len() && (m.chars[m.cursor] == ' ' || m.chars[m.cursor] == '\t') {
        let n = TypingModel { cursor: m.cursor + 1, ..m.with_result(m.cursor, CharResult::Skipped) };
        if let Some(k) = m.error {
            lemma_late_update_keeps_pairs(m, m.cursor, CharResult::Skipped, k as int);
        }
        assert(n.wf());
        lemma_skip_indent_loop(n);
        assert forall|i: int| 0 <= i < m.cursor implies n.results[i] == m.results[i] by {}
    }
}

proof fn lemma_skip_closers(m: TypingModel)
    requires
        m.wf(),
    ensures
        m.skip_closers().wf(),
        m.cursor <= m.skip_closers().cursor <= m.len(),
        m.skip_closers().cursor < m.len() ==> !m.skip_closers().auto_paired(
            m.skip_closers().cursor,
        ),
        m.skip_closers() == (TypingModel {
            results: m.skip_closers().results,
            cursor: m.skip_closers().cursor,
            ..m
        }),
        forall|i: int| 0 <= i < m.cursor ==> m.skip_closers().results[i] == m.results[i],
{
    if m.closing_tail() {
        let n = m.skip_closers();
        assert forall|i: int| 0 <= i < n.results.len() implies ((#[trigger] n.results[i]
            != CharResult::Pending) <==> i < n.cursor) by {
            if i < m.cursor {
                assert(n.results[i] == m.results[i]);
            }
        }
    } else {
        lemma_skip_closers_loop(m);
    }
}

proof fn lemma_timing_index(ts: Seq<CharTiming>, c: char, from: int)
    requires
        0 <= from,
    ensures
        -1 <= timing_index(ts, c, from) < ts.len(),
        timing_index(ts, c, from) >= 0 ==> timing_index(ts, c, from) >= from
            && ts[timing_index(ts, c, from)].character == c,
        timing_index(ts, c, from) < 0 ==> forall|j: int| from <= j < ts.len() ==> #[trigger] ts[j].character != c,
    decreases ts.len() - from,
{
    if from < ts.len() && ts[from].character != c {
        lemma_timing_index(ts, c, from + 1);
    }
}

proof fn lemma_confusion_index(cs: Seq<Confusion>, e: char, t: char, from: int)
    requires
        0 <= from,
    ensures
        -1 <= confusion_index(cs, e, t, from) < cs.len(),
        confusion_index(cs, e, t, from) >= 0 ==> confusion_index(cs, e, t, from) >= from
            && cs[confusion_index(cs, e, t, from)].expected == e
            && cs[confusion_index(cs, e, t, from)].typed == t,
        confusion_index(cs, e, t, from) < 0 ==> forall|j: int| from <= j < cs.len() ==> !(#[trigger] cs[j].expected == e && cs[j].typed == t),
    decreases cs.len() - from,
{
    if from < cs.len() && !(cs[from].expected == e && cs[from].typed == t) {
        lemma_confusion_index(cs, e, t, from + 1);
    }
}

impl Session {
    pub open spec fn model(&self) -> TypingModel {
        TypingModel {
            content: self.content,
            mode: self.mode,
            mistake_mode: self.mistake_mode,
            chars: self.chars@,
            openers: self.autopair_openers@,
            results: self.results@,
            cursor: self.cursor as int,
            error: self.strict_error_start,
            start: self.start_time,
            last: self.last_keystroke,
            total: self.total_keystrokes as int,
            correct: self.correct_keystrokes as int,
            mistakes: self.mistakes as int,
            corrections: self.corrections as int,
            keystrokes: self.keystrokes@,
            progress: self.progress@,
            timings: self.char_timings@,
            confusions: self.confusion@,
        }
    }

    pub open spec fn wf(&self) -> bool {
        self.model().wf()
    }

    pub fn new(content: TypingContent, mode: SessionMode, mistake_mode: MistakeMode, autopairs: bool) -> (s: Self)
        requires
            content.text@.len() <= usize::MAX,
        ensures
            s.wf(),
            s.content == content,
            s.mode == mode,
            s.mistake_mode == mistake_mode,
            s.chars@ == content.text@,
            s.autopair_openers@ == (if autopairs {
                spec_matched_openers(content.text@)
            } else {
                Seq::new(content.text@.len(), |i: int| None)
            }),
            s.results@ == Seq::new(content.text@.len(), |i: int| CharResult::Pending),
            s.cursor == 0,
            s.strict_error_start is None,
            s.start_time is None,
            s.last_keystroke is None,
            s.total_keystrokes == 0,
            s.correct_keystrokes == 0,
            s.mistakes == 0,
            s.corrections == 0,
            s.keystrokes@.len() == 0,
            s.progress@.len() == 0,
            s.char_timings@.len() == 0,
            s.confusion@.len() == 0,
    {
        let chars = chars_of(content.text.as_str());
        let autopair_openers = if autopairs {
            matched_bracket_openers(&chars)
        } else {
            vec![None; chars.len()]
        };
        let results = vec![CharResult::Pending; chars.len()];
        let s = Session {
            content,
            chars,
            results,
            cursor: 0,
            mode,
            mistake_mode,
            start_time: None,
            total_keystrokes: 0,
            correct_keystrokes: 0,
            mistakes: 0,
            corrections: 0,
            confusion: Vec::new(),
            strict_error_start: None,
            last_keystroke: None,
            char_timings: Vec::new(),
            keystrokes: Vec::new(),
            progress: Vec::new(),
            autopair_openers,
        };
        s
    }
}


impl Session {
    /// Whether position `index` holds a closer that is filled in automatically.
    pub fn is_auto_paired(&self, index: usize) -> (r: bool)
        requires
            self.wf(),
        ensures
            r == self.model().auto_paired(index as int),
    {
        if index < self.autopair_openers.len() {
            match self.autopair_openers[index] {
                Some(opener) => self.results[opener] == CharResult::Correct,
                None => false,
            }
        } else {
            false
        }
    }

    fn skip_closers_loop(&mut self)
        requires
            old(self).wf(),
        ensures
            final(self).model() == old(self).model().skip_closers_loop(),
    {
        proof {
            lemma_skip_closers_loop(self.model());
        }
        while self.is_auto_paired(self.cursor)
            invariant
                self.wf(),
                self.model().skip_closers_loop() == old(self).model().skip_closers_loop(),
            decreases self.chars@.len() - self.cursor,
        {
            let c = self.cursor;
            proof {
                lemma_closer_update_keeps_pairs(self.model(), c as int, CharResult::Skipped);
            }
            self.results.set(c, CharResult::Skipped);
            self.cursor = c + 1;
        }
    }

    fn rest_blank_or_paired(&self) -> (r: bool)
        requires
            self.wf(),
        ensures
            r == (forall|j: int|
                self.cursor <= j < self.model().len() ==> spec_is_whitespace(
                    #[trigger] self.chars@[j],
                ) || self.model().auto_paired(j)),
    {
        let mut j = self.cursor;
        while j < self.chars.len()
            invariant
                self.wf(),
                self.cursor <= j <= self.chars@.len(),
                forall|t: int|
                    self.cursor <= t < j ==> spec_is_whitespace(#[trigger] self.chars@[t])
                        || self.model().auto_paired(t),
            decreases self.chars@.len() - j,
        {
            if !(is_whitespace(self.chars[j]) || self.is_auto_paired(j)) {
                return false;
            }
            j += 1;
        }
        true
    }

    fn rest_has_paired(&self) -> (r: bool)
        requires
            self.wf(),
        ensures
            r == (exists|j: int| self.cursor <= j < self.model().len() && #[trigger] self.model().auto_paired(j)),
    {
        let mut j = self.cursor;
        while j < self.chars.len()
            invariant
                self.wf(),
                self.cursor <= j <= self.chars@.len(),
                forall|t: int| self.cursor <= t < j ==> !#[trigger] self.model().auto_paired(t),
            decreases self.chars@.len() - j,
        {
            if self.is_auto_paired(j) {
                return true;
            }
            j += 1;
        }
        false
    }

    fn skip_auto_paired_closers(&mut self)
        requires
            old(self).wf(),
        ensures
            final(self).model() == old(self).model().skip_closers(),
            final(self).wf(),
    {
        proof {
            lemma_skip_closers(self.model());
        }
        let len = self.chars.len();
        let tail = self.strict_error_start.is_none() && self.cursor < len && self.chars[self.cursor]
            == '\n' && self.rest_blank_or_paired() && self.rest_has_paired();
        if tail {
            let c0 = self.cursor;
            let ghost r0 = self.results@;
            while self.cursor < len
                invariant
                    len == self.chars@.len() == self.results@.len(),
                    c0 <= self.cursor <= len,
                    r0 == old(self).results@,
                    self.model() == (TypingModel {
                        results: self.results@,
                        cursor: self.cursor as int,
                        ..old(self).model()
                    }),
                    forall|i: int| 0 <= i < c0 ==> self.results@[i] == r0[i],
                    forall|i: int| c0 <= i < self.cursor ==> self.results@[i] == CharResult::Skipped,
                decreases len - self.cursor,
            {
                let c = self.cursor;
                self.results.set(c, CharResult::Skipped);
                self.cursor = c + 1;
            }
            assert(self.results@ =~= r0.take(c0 as int) + Seq::new(
                (len - c0) as nat,
                |i: int| CharResult::Skipped,
            ));
        } else {
            self.skip_closers_loop();
        }
    }

    fn skip_indentation(&mut self)
        requires
            old(self).wf(),
        ensures
            final(self).model() == old(self).model().skip_indent_loop(),
    {
        proof {
            lemma_skip_indent_loop(self.model());
        }
        while self.cursor < self.chars.len() && (self.chars[self.cursor] == ' '
            || self.chars[self.cursor] == '\t')
            invariant
                self.wf(),
                self.model().skip_indent_loop() == old(self).model().skip_indent_loop(),
            decreases self.chars@.len() - self.cursor,
        {
            let c = self.cursor;
            proof {
                if let Some(k) = self.strict_error_start {
                    lemma_late_update_keeps_pairs(self.model(), c as int, CharResult::Skipped, k as int);
                }
            }
            self.results.set(c, CharResult::Skipped);
            self.cursor = c + 1;
        }
    }
}


/// Spec of the timing table after an attempt: the bounds of a well-formed
/// session carry over.
proof fn lemma_add_timing(ts: Seq<CharTiming>, c: char, interval: u64, accepted: bool, total: int, latest: u64, now: u64)
    requires
        forall|i: int|
            0 <= i < ts.len() ==> {
                let t = #[trigger] ts[i];
                t.correct <= t.attempts <= total && t.total_ms <= latest
            },
        latest + interval <= now,
        0 <= total < u32::MAX,
    ensures
        forall|i: int|
            0 <= i < add_timing(ts, c, interval, accepted).len() ==> {
                let t = #[trigger] add_timing(ts, c, interval, accepted)[i];
                t.correct <= t.attempts <= total + 1 && t.total_ms <= now
            },
{
    lemma_timing_index(ts, c, 0);
    let k = timing_index(ts, c, 0);
    let n = add_timing(ts, c, interval, accepted);
    assert forall|i: int| 0 <= i < n.len() implies {
        let t = #[trigger] n[i];
        t.correct <= t.attempts <= total + 1 && t.total_ms <= now
    } by {
        if k >= 0 {
            if i != k {
                assert(n[i] == ts[i]);
            } else {
                let t0 = ts[k];
                assert(t0.correct <= t0.attempts <= total && t0.total_ms <= latest);
                assert(n[k].total_ms == t0.total_ms + interval);
                assert(n[k].attempts == t0.attempts + 1);
            }
        } else if i < ts.len() {
            assert(n[i] == ts[i]);
        } else {
            assert(n[i].total_ms == interval);
        }
    }
}

proof fn lemma_add_confusion(cs: Seq<Confusion>, e: char, t: char, mistakes: int)
    requires
        forall|i: int| 0 <= i < cs.len() ==> (#[trigger] cs[i]).count <= mistakes,
        0 <= mistakes < u32::MAX,
    ensures
        forall|i: int|
            0 <= i < add_confusion(cs, e, t).len() ==> (#[trigger] add_confusion(cs, e, t)[i]).count
                <= mistakes + 1,
{
    lemma_confusion_index(cs, e, t, 0);
    let k = confusion_index(cs, e, t, 0);
    let n = add_confusion(cs, e, t);
    assert forall|i: int| 0 <= i < n.len() implies (#[trigger] n[i]).count <= mistakes + 1 by {
        if i < cs.len() && i != k {
            assert(n[i] == cs[i]);
        } else if i == k {
            assert(cs[k].count <= mistakes);
            assert(n[k].count == cs[k].count + 1);
        }
    }
}

/// Passing over closers and indentation touches only the results and the caret.
proof fn lemma_skip_frames(m: TypingModel)
    ensures
        m.skip_closers_loop() == (TypingModel {
            results: m.skip_closers_loop().results,
            cursor: m.skip_closers_loop().cursor,
            ..m
        }),
        m.skip_indent_loop() == (TypingModel {
            results: m.skip_indent_loop().results,
            cursor: m.skip_indent_loop().cursor,
            ..m
        }),
        m.skip_closers() == (TypingModel {
            results: m.skip_closers().results,
            cursor: m.skip_closers().cursor,
            ..m
        }),
    decreases m.len() - m.cursor,
{
    if 0 <= m.cursor < m.len() {
        lemma_skip_frames(TypingModel { cursor: m.cursor + 1, ..m.with_result(m.cursor, CharResult::Skipped) });
    }
}


pub proof fn lemma_skip_back_frame(m: TypingModel)
    ensures
        m.skip_back_loop() == (TypingModel {
            results: m.skip_back_loop().results,
            cursor: m.skip_back_loop().cursor,
            ..m
        }),
        m.cursor >= 0 ==> 0 <= m.skip_back_loop().cursor <= m.cursor,
        m.skip_back_loop().cursor < m.cursor ==> 0 <= m.skip_back_loop().cursor,
        m.skip_back_loop().cursor > m.cursor ==> false,
    decreases m.cursor,
{
    if 0 < m.cursor <= m.len() && m.auto_paired(m.cursor - 1) {
        lemma_skip_back_frame(TypingModel { cursor: m.cursor - 1, ..m.with_result(m.cursor - 1, CharResult::Pending) });
    }
}

/// A backspace with text before the caret moves the caret back and counts
/// at most one correction.
pub proof fn lemma_backspace_cursor(m: TypingModel, now: u64)
    requires
        m.cursor > 0,
    ensures
        m.backspace(now).cursor < m.cursor,
        m.backspace(now).cursor >= 0,
        m.backspace(now).chars == m.chars,
        m.backspace(now).corrections >= m.corrections,
        m.backspace(now).corrections <= m.corrections + 1,
{
    lemma_skip_back_frame(m);
}

proof fn lemma_skip_back_wf(m: TypingModel)
    requires
        m.wf(),
    ensures
        m.skip_back_loop().wf(),
    decreases m.cursor,
{
    if 0 < m.cursor <= m.len() && m.auto_paired(m.cursor - 1) {
        let q = m.cursor - 1;
        let n = TypingModel { cursor: q, ..m.with_result(q, CharResult::Pending) };
        lemma_closer_update_keeps_pairs(m, q, CharResult::Pending);
        assert forall|i: int| 0 <= i < n.results.len() implies ((#[trigger] n.results[i]
            != CharResult::Pending) <==> i < n.cursor) by {
            if i != q {
                assert(n.results[i] == m.results[i]);
            }
        }
        assert(n.wf());
        lemma_skip_back_wf(n);
    }
}

proof fn lemma_backspace_wf(m: TypingModel, now: u64)
    requires
        m.wf(),
        m.backspace(now).corrections <= u32::MAX,
    ensures
        m.backspace(now).wf(),
{
    lemma_skip_back_wf(m);
    lemma_skip_back_frame(m);
    let s = m.skip_back_loop();
    if s.cursor > 0 {
        let p = s.cursor - 1;
        let n = TypingModel {
            cursor: p,
            error: if s.error == Some(p as usize) {
                None
            } else {
                s.error
            },
            correct: if s.results[p] == CharResult::Correct && s.correct > 0 {
                s.correct - 1
            } else {
                s.correct
            },
            corrections: s.corrections + 1,
            ..s.with_result(p, CharResult::Pending)
        };
        if let Some(k) = n.error {
            lemma_late_update_keeps_pairs(s, p, CharResult::Pending, k as int);
        }
        assert forall|i: int| 0 <= i < n.results.len() implies ((#[trigger] n.results[i]
            != CharResult::Pending) <==> i < n.cursor) by {
            if i != p {
                assert(n.results[i] == s.results[i]);
            }
        }
        assert(n.wf());
    }
}

proof fn lemma_backspace_while_space(m: TypingModel, now: u64)
    requires
        m.wf(),
        m.backspace_while_space(now).corrections <= u32::MAX,
    ensures
        m.backspace_while_space(now).wf(),
        m.backspace_while_space(now).corrections >= m.corrections,
    decreases m.cursor,
{
    if 0 < m.cursor <= m.len() && spec_is_whitespace(m.chars[m.cursor - 1]) {
        lemma_backspace_cursor(m, now);
        let b = m.backspace(now);
        lemma_backspace_while_space_mono(b, now);
        lemma_backspace_wf(m, now);
        lemma_backspace_while_space(b, now);
    }
}

proof fn lemma_backspace_while_space_mono(m: TypingModel, now: u64)
    ensures
        m.backspace_while_space(now).corrections >= m.corrections,
    decreases m.cursor,
{
    if 0 < m.cursor <= m.len() && spec_is_whitespace(m.chars[m.cursor - 1]) {
        lemma_backspace_cursor(m, now);
        lemma_backspace_while_space_mono(m.backspace(now), now);
    }
}

proof fn lemma_backspace_while_class_mono(m: TypingModel, word: bool, now: u64)
    ensures
        m.backspace_while_class(word, now).corrections >= m.corrections,
    decreases m.cursor,
{
    if 0 < m.cursor <= m.len() && !spec_is_whitespace(m.chars[m.cursor - 1]) && is_word_char(
        m.chars[m.cursor - 1],
    ) == word {
        lemma_backspace_cursor(m, now);
        lemma_backspace_while_class_mono(m.backspace(now), word, now);
    }
}

proof fn lemma_backspace_while_in_line_mono(m: TypingModel, now: u64)
    ensures
        m.backspace_while_in_line(now).corrections >= m.corrections,
    decreases m.cursor,
{
    if 0 < m.cursor <= m.len() && m.chars[m.cursor - 1] != '\n' {
        lemma_backspace_cursor(m, now);
        lemma_backspace_while_in_line_mono(m.backspace(now), now);
    }
}

/// A key press keeps a session well formed.
#[verifier::rlimit(40)]
proof fn lemma_keystroke_wf(m: TypingModel, typed: char, now: u64, expected: char)
    requires
        expected == m.chars[m.cursor],
        m.wf(),
        0 <= m.cursor < m.len(),
        !m.auto_paired(m.cursor),
        m.latest_ms() <= now,
        m.total < u32::MAX,
    ensures
        m.keystroke(typed, now).wf(),
        m.keystroke(typed, now).total == m.total + 1,
{
    let p = m.cursor;
    let accepted = typed == expected && m.error is None;
    let interval = match m.last {
        Some(l) => sat_sub(now, l),
        None => 0,
    };
    lemma_add_timing(m.timings, expected, interval, accepted, m.total, m.latest_ms(), now);
    let start = match m.start {
        Some(s) => s,
        None => now,
    };
    let event = KeystrokeEvent {
        elapsed_ms: sat_sub(now, start),
        position: p as usize,
        expected,
        typed,
        accepted,
    };
    let base = TypingModel {
        start: Some(start),
        last: Some(now),
        total: m.total + 1,
        keystrokes: m.keystrokes.push(event),
        timings: add_timing(m.timings, expected, interval, accepted),
        ..m
    };
    assert(base.latest_ms() == now);
    if accepted {
        let after = TypingModel {
            correct: m.correct + 1,
            cursor: p + 1,
            ..base.with_result(p, CharResult::Correct)
        };
        assert(after.wf());
        if expected == '\n' {
            lemma_skip_indent_loop(after);
        }
    } else {
        lemma_add_confusion(m.confusions, expected, typed, m.mistakes);
        if let Some(k) = m.error {
            lemma_late_update_keeps_pairs(base, p, CharResult::Incorrect(typed), k as int);
        }
        if m.openers[p] is Some {
            assert(m.openers[p]->0 < p);
        }
        let after = m.keystroke(typed, now);
        assert(after.mistakes == m.mistakes + 1);
        assert(after.start == Some(start));
        assert(after.last == Some(now));
        assert(base.keystrokes.len() == m.keystrokes.len() + 1);
        assert(base.with_result(p, CharResult::Incorrect(typed)).keystrokes == base.keystrokes);
        assert(after.timings == base.timings);
        assert(after.keystrokes == base.keystrokes);
        assert(after.total == m.total + 1);
        assert(after.results.len() == after.chars.len());
        assert(0 <= after.cursor <= after.len());
        assert forall|i: int| 0 <= i < after.results.len() implies ((#[trigger] after.results[i]
            != CharResult::Pending) <==> i < after.cursor) by {
            if i != p {
                assert(after.results[i] == m.results[i]);
            }
        }
        assert(after.error matches Some(k) ==> {
            &&& after.strict()
            &&& (k as int) < after.cursor
            &&& after.results[k as int] is Incorrect
            &&& !after.auto_paired(k as int)
        });
        assert(0 <= after.correct <= after.total <= u32::MAX);
        assert(after.keystrokes.len() == after.total);
        assert(after.wf());
    }
}

proof fn lemma_keystroke_total(m: TypingModel, typed: char, now: u64, expected: char)
    requires
        expected == m.chars[m.cursor],
    ensures
        m.keystroke(typed, now).total == m.total + 1,
{
    let p = m.cursor;
    let accepted = typed == expected && m.error is None;
    if accepted && expected == '\n' {
        let k = m.keystroke(typed, now);
        let start = match m.start {
            Some(s) => s,
            None => now,
        };
        let interval = match m.last {
            Some(l) => sat_sub(now, l),
            None => 0,
        };
        let event = KeystrokeEvent {
            elapsed_ms: sat_sub(now, start),
            position: p as usize,
            expected,
            typed,
            accepted,
        };
        let base = TypingModel {
            start: Some(start),
            last: Some(now),
            total: m.total + 1,
            keystrokes: m.keystrokes.push(event),
            timings: add_timing(m.timings, expected, interval, accepted),
            ..m
        };
        let after = TypingModel {
            correct: m.correct + 1,
            cursor: p + 1,
            ..base.with_result(p, CharResult::Correct)
        };
        lemma_skip_frames(after);
    }
}

impl Session {
    fn add_timing(&mut self, c: char, interval: u64, accepted: bool)
        requires
            forall|i: int|
                0 <= i < old(self).char_timings@.len() ==> {
                    let t = #[trigger] old(self).char_timings@[i];
                    t.correct < u32::MAX && t.attempts < u32::MAX && t.total_ms + interval <= u64::MAX
                },
        ensures
            final(self).model() == (TypingModel {
                timings: add_timing(old(self).char_timings@, c, interval, accepted),
                ..old(self).model()
            }),
    {
        proof {
            lemma_timing_index(self.char_timings@, c, 0);
        }
        let hit: u32 = if accepted { 1 } else { 0 };
        let mut i: usize = 0;
        while i < self.char_timings.len()
            invariant
                self.model() == old(self).model(),
                i <= self.char_timings@.len(),
                hit == (if accepted { 1u32 } else { 0u32 }),
                forall|j: int| 0 <= j < i ==> #[trigger] self.char_timings@[j].character != c,
                forall|j: int|
                    0 <= j < self.char_timings@.len() ==> {
                        let t = #[trigger] self.char_timings@[j];
                        t.correct < u32::MAX && t.attempts < u32::MAX && t.total_ms + interval <= u64::MAX
                    },
                timing_index(self.char_timings@, c, 0) == timing_index(self.char_timings@, c, i as int),
            decreases self.char_timings@.len() - i,
        {
            if self.char_timings[i].character == c {
                let t = self.char_timings[i];
                assert(timing_index(self.char_timings@, c, i as int) == i);
                self.char_timings.set(
                    i,
                    CharTiming {
                        character: c,
                        total_ms: t.total_ms + interval,
                        attempts: t.attempts + 1,
                        correct: t.correct + hit,
                    },
                );
                return;
            }
            i += 1;
        }
        self.char_timings.push(CharTiming { character: c, total_ms: interval, attempts: 1, correct: hit });
    }

    fn add_confusion(&mut self, expected: char, typed: char)
        requires
            forall|i: int| 0 <= i < old(self).confusion@.len() ==> (#[trigger] old(self).confusion@[i]).count < u32::MAX,
        ensures
            final(self).model() == (TypingModel {
                confusions: add_confusion(old(self).confusion@, expected, typed),
                ..old(self).model()
            }),
    {
        proof {
            lemma_confusion_index(self.confusion@, expected, typed, 0);
        }
        let mut i: usize = 0;
        while i < self.confusion.len()
            invariant
                self.model() == old(self).model(),
                i <= self.confusion@.len(),
                forall|j: int| 0 <= j < i ==> !(#[trigger] self.confusion@[j].expected == expected && self.confusion@[j].typed == typed),
                forall|j: int| 0 <= j < self.confusion@.len() ==> (#[trigger] self.confusion@[j]).count < u32::MAX,
                confusion_index(self.confusion@, expected, typed, 0) == confusion_index(self.confusion@, expected, typed, i as int),
            decreases self.confusion@.len() - i,
        {
            if self.confusion[i].expected == expected && self.confusion[i].typed == typed {
                assert(confusion_index(self.confusion@, expected, typed, i as int) == i);
                let count = self.confusion[i].count;
                self.confusion.set(i, Confusion { expected, typed, count: count + 1 });
                return;
            }
            i += 1;
        }
        self.confusion.push(Confusion { expected, typed, count: 1 });
    }

    fn record_progress(&mut self, now: u64)
        ensures
            final(self).model() == old(self).model().record_progress(now),
    {
        if let Some(start) = self.start_time {
            let elapsed = if now >= start { now - start } else { 0 };
            self.progress.push(ProgressEvent { elapsed_ms: elapsed, correct_chars: self.correct_keystrokes });
        }
    }

    #[verifier::rlimit(30)]
    fn keystroke(&mut self, typed: char, now: u64)
        requires
            old(self).wf(),
            old(self).cursor < old(self).chars@.len(),
            !old(self).model().auto_paired(old(self).cursor as int),
            old(self).model().latest_ms() <= now,
            old(self).total_keystrokes < u32::MAX,
        ensures
            final(self).wf(),
            final(self).model() == old(self).model().keystroke(typed, now),
    {
        let ghost m = self.model();
        let p = self.cursor;
        let expected = self.chars[p];
        proof {
            lemma_keystroke_wf(m, typed, now, expected);
        }
        let accepted = typed == expected && self.strict_error_start.is_none();
        let start = match self.start_time {
            Some(s) => s,
            None => now,
        };
        let interval = match self.last_keystroke {
            Some(l) => if now >= l { now - l } else { 0 },
            None => 0,
        };
        proof {
            lemma_add_timing(self.char_timings@, expected, interval, accepted, self.total_keystrokes as int, m.latest_ms(), now);
        }
        self.add_timing(expected, interval, accepted);
        self.start_time = Some(start);
        self.last_keystroke = Some(now);
        self.total_keystrokes = self.total_keystrokes + 1;
        self.keystrokes.push(KeystrokeEvent {
            elapsed_ms: if now >= start { now - start } else { 0 },
            position: p,
            expected,
            typed,
            accepted,
        });
        if accepted {
            self.results.set(p, CharResult::Correct);
            self.correct_keystrokes = self.correct_keystrokes + 1;
            self.cursor = p + 1;
            assert(self.model().wf());
            if expected == '\n' {
                let ghost after = self.model();
                proof {
                    lemma_skip_indent_loop(after);
                }
                self.skip_indentation();
            }
            assert(self.model() =~= m.keystroke(typed, now));
        } else {
            self.results.set(p, CharResult::Incorrect(typed));
            self.mistakes = self.mistakes + 1;
            if typed != expected {
                proof {
                    lemma_add_confusion(self.confusion@, expected, typed, m.mistakes);
                }
                self.add_confusion(expected, typed);
            }
            if self.mistake_mode == MistakeMode::Strict && self.strict_error_start.is_none() {
                self.strict_error_start = Some(p);
            }
            self.cursor = p + 1;
            proof {
                if let Some(k) = m.error {
                    lemma_late_update_keeps_pairs(m, p as int, CharResult::Incorrect(typed), k as int);
                }
                if p < m.openers.len() && m.openers[p as int] is Some {
                    assert(m.openers[p as int]->0 < p);
                }
            }
            assert(self.model() =~= m.keystroke(typed, now));
        }
    }

    /// Types `typed` at clock reading `now` (ms): passes over auto-paired
    /// closers, judges the key against the expected character, logs it and
    /// moves the caret.
    pub fn type_char_at(&mut self, typed: char, now: u64)
        requires
            old(self).wf(),
            old(self).model().latest_ms() <= now,
            old(self).model().type_char(typed, now).total <= u32::MAX,
        ensures
            final(self).wf(),
            final(self).model() == old(self).model().type_char(typed, now),
    {
        let ghost m = self.model();
        proof {
            lemma_skip_closers(m);
            lemma_skip_frames(m);
            lemma_skip_frames(m.skip_closers().keystroke(typed, now));
        }
        self.skip_auto_paired_closers();
        if self.cursor >= self.chars.len() {
            return;
        }
        assert(m.skip_closers().total == m.total);
        let expected = self.chars[self.cursor];
        proof {
            lemma_keystroke_total(m.skip_closers(), typed, now, expected);
        }
        assert(m.type_char(typed, now).total == m.total + 1);
        self.keystroke(typed, now);
        proof {
            lemma_keystroke_wf(m.skip_closers(), typed, now, expected);
            lemma_skip_closers(m.skip_closers().keystroke(typed, now));
        }
        self.skip_auto_paired_closers();
        self.record_progress(now);
        proof {
            let k = m.skip_closers().keystroke(typed, now).skip_closers();
            assert(k.record_progress(now).wf());
        }
    }

    /// The latest clock reading the session has seen.
    pub fn latest_ms(&self) -> (r: u64)
        ensures
            r == self.model().latest_ms(),
    {
        match self.last_keystroke {
            Some(l) => l,
            None => 0,
        }
    }

    /// Types `typed` now. The system clock is read; a reading earlier than
    /// the latest key press counts as that key press's time.
    pub fn type_char(&mut self, typed: char)
        requires
            old(self).wf(),
            forall|t: u64| old(self).model().type_char(typed, t).total <= u32::MAX,
        ensures
            final(self).wf(),
            exists|t: u64| t >= old(self).model().latest_ms() && final(self).model() == old(self).model().type_char(typed, t),
    {
        let reading = now_ms();
        let latest = self.latest_ms();
        let now = if reading < latest { latest } else { reading };
        self.type_char_at(typed, now);
    }
}


impl Session {
    fn skip_auto_pairs_backward(&mut self)
        requires
            old(self).wf(),
        ensures
            final(self).model() == old(self).model().skip_back_loop(),
            final(self).wf(),
    {
        proof {
            lemma_skip_back_wf(self.model());
        }
        while self.cursor > 0 && self.is_auto_paired(self.cursor - 1)
            invariant
                self.wf(),
                self.model().skip_back_loop() == old(self).model().skip_back_loop(),
            decreases self.cursor,
        {
            let q = self.cursor - 1;
            proof {
                lemma_closer_update_keeps_pairs(self.model(), q as int, CharResult::Pending);
                lemma_skip_back_wf(self.model());
            }
            self.results.set(q, CharResult::Pending);
            self.cursor = q;
        }
    }

    /// Backspace at clock reading `now` (ms).
    pub fn backspace_at(&mut self, now: u64)
        requires
            old(self).wf(),
            old(self).model().backspace(now).corrections <= u32::MAX,
        ensures
            final(self).wf(),
            final(self).model() == old(self).model().backspace(now),
    {
        proof {
            lemma_backspace_wf(self.model(), now);
            lemma_skip_back_frame(self.model());
        }
        self.skip_auto_pairs_backward();
        if self.cursor == 0 {
            return;
        }
        self.cursor = self.cursor - 1;
        if self.strict_error_start == Some(self.cursor) {
            self.strict_error_start = None;
        }
        if self.results[self.cursor] == CharResult::Correct {
            self.correct_keystrokes = self.correct_keystrokes.saturating_sub(1);
        }
        self.results.set(self.cursor, CharResult::Pending);
        self.corrections = self.corrections + 1;
        self.record_progress(now);
    }

    /// Backspace now, by the system clock.
    pub fn backspace(&mut self)
        requires
            old(self).wf(),
            forall|t: u64| old(self).model().backspace(t).corrections <= u32::MAX,
        ensures
            final(self).wf(),
            exists|t: u64| final(self).model() == old(self).model().backspace(t),
    {
        self.backspace_at(now_ms());
    }

    /// Deletes the word before the caret at clock reading `now` (ms).
    pub fn delete_word_at(&mut self, now: u64)
        requires
            old(self).wf(),
            old(self).model().delete_word(now).corrections <= u32::MAX,
        ensures
            final(self).wf(),
            final(self).model() == old(self).model().delete_word(now),
    {
        let ghost m0 = self.model();
        proof {
            lemma_skip_back_wf(m0);
            lemma_skip_back_frame(m0);
            lemma_backspace_while_space_mono(m0.skip_back_loop(), now);
            let w = m0.skip_back_loop().backspace_while_space(now);
            if 0 < w.cursor <= w.len() {
                lemma_backspace_while_class_mono(w, is_word_char(w.chars[w.cursor - 1]), now);
            }
        }
        self.skip_auto_pairs_backward();
        while self.cursor > 0 && is_whitespace(self.chars[self.cursor - 1])
            invariant
                self.wf(),
                self.model().backspace_while_space(now) == m0.skip_back_loop().backspace_while_space(now),
                self.model().backspace_while_space(now).corrections <= u32::MAX,
            decreases self.cursor,
        {
            proof {
                lemma_backspace_cursor(self.model(), now);
                lemma_backspace_while_space_mono(self.model().backspace(now), now);
            }
            self.backspace_at(now);
        }
        if self.cursor == 0 {
            return;
        }
        let previous = self.chars[self.cursor - 1];
        let word = is_alphanumeric(previous) || previous == '_';
        while self.cursor > 0
            invariant
                self.wf(),
                self.model().backspace_while_class(word, now) == old(self).model().delete_word(now),
                self.model().backspace_while_class(word, now).corrections <= u32::MAX,
            decreases self.cursor,
        {
            let character = self.chars[self.cursor - 1];
            if is_whitespace(character) || (is_alphanumeric(character) || character == '_') != word {
                return;
            }
            proof {
                lemma_backspace_cursor(self.model(), now);
                lemma_backspace_while_class_mono(self.model().backspace(now), word, now);
            }
            self.backspace_at(now);
        }
    }

    /// Deletes the word before the caret now, by the system clock.
    pub fn delete_word(&mut self)
        requires
            old(self).wf(),
            forall|t: u64| old(self).model().delete_word(t).corrections <= u32::MAX,
        ensures
            final(self).wf(),
            exists|t: u64| final(self).model() == old(self).model().delete_word(t),
    {
        self.delete_word_at(now_ms());
    }

    /// Deletes back to the start of the line at clock reading `now` (ms).
    pub fn delete_line_at(&mut self, now: u64)
        requires
            old(self).wf(),
            old(self).model().delete_line(now).corrections <= u32::MAX,
        ensures
            final(self).wf(),
            final(self).model() == old(self).model().delete_line(now),
    {
        let ghost m0 = self.model();
        proof {
            lemma_skip_back_wf(m0);
            lemma_skip_back_frame(m0);
        }
        self.skip_auto_pairs_backward();
        while self.cursor > 0 && self.chars[self.cursor - 1] != '\n'
            invariant
                self.wf(),
                self.model().backspace_while_in_line(now) == old(self).model().delete_line(now),
                self.model().backspace_while_in_line(now).corrections <= u32::MAX,
            decreases self.cursor,
        {
            proof {
                lemma_backspace_cursor(self.model(), now);
                lemma_backspace_while_in_line_mono(self.model().backspace(now), now);
            }
            self.backspace_at(now);
        }
    }

    /// Deletes back to the start of the line now, by the system clock.
    pub fn delete_line(&mut self)
        requires
            old(self).wf(),
            forall|t: u64| old(self).model().delete_line(t).corrections <= u32::MAX,
        ensures
            final(self).wf(),
            exists|t: u64| final(self).model() == old(self).model().delete_line(t),
    {
        self.delete_line_at(now_ms());
    }
}


pub open spec fn spec_visible(c: char) -> Seq<char> {
    if c == ' ' {
        "space"@
    } else if c == '\n' {
        "enter"@
    } else if c == '\t' {
        "tab"@
    } else {
        seq![c]
    }
}

/// A readable name for a character: whitespace keys are spelled out.
pub fn visible(c: char) -> (r: String)
    ensures
        r@ == spec_visible(c),
{
    if c == ' ' {
        "space".to_owned()
    } else if c == '\n' {
        "enter".to_owned()
    } else if c == '\t' {
        "tab".to_owned()
    } else {
        let mut s = String::new();
        push_char(&mut s, c);
        s
    }
}

/// The key under which a confusion is counted, such as `a→s`.
pub fn confusion_label(expected: char, typed: char) -> (r: String)
    ensures
        r@ == spec_visible(expected) + "→"@ + spec_visible(typed),
{
    let mut s = visible(expected);
    s.append("→");
    let t = visible(typed);
    s.append(t.as_str());
    s
}

impl Session {
    /// The mistake to report under the text.
    pub fn latest_error(&self) -> (r: Option<(char, char)>)
        requires
            self.wf(),
        ensures
            r == self.model().latest_error(),
    {
        if let Some(index) = self.strict_error_start {
            if let CharResult::Incorrect(typed) = self.results[index] {
                return Some((self.chars[index], typed));
            }
        }
        let mut n = if self.cursor < self.results.len() { self.cursor } else { self.results.len() };
        while n > 0
            invariant
                self.wf(),
                n <= self.chars@.len(),
                self.model().last_mistake(n as int) == self.model().latest_error(),
            decreases n,
        {
            if let CharResult::Incorrect(typed) = self.results[n - 1] {
                if self.chars[n - 1] != typed {
                    return Some((self.chars[n - 1], typed));
                }
            }
            n -= 1;
        }
        None
    }

    /// Marks the session started `elapsed` ms before clock reading `now`
    /// (at `now` when that would precede the clock's origin).
    pub fn start_with_elapsed_at(&mut self, now: u64, elapsed: u64)
        ensures
            final(self).model() == (TypingModel {
                start: Some(if now >= elapsed { (now - elapsed) as u64 } else { now }),
                ..old(self).model()
            }),
    {
        self.start_time = Some(if now >= elapsed { now - elapsed } else { now });
    }

    /// Marks the session started `elapsed` ms ago, by the system clock.
    pub fn start_with_elapsed(&mut self, elapsed: u64)
        ensures
            final(self).start_time is Some,
            final(self).model() == (TypingModel { start: final(self).start_time, ..old(self).model() }),
    {
        self.start_with_elapsed_at(now_ms(), elapsed);
    }

    /// The caret is past the end and no mistake holds it back.
    pub fn is_complete(&self) -> (r: bool)
        ensures
            r == self.model().is_complete(),
    {
        self.cursor >= self.chars.len() && self.strict_error_start.is_none()
    }

    /// Milliseconds since the start at clock reading `now` (0 before the start).
    pub fn elapsed_ms_at(&self, now: u64) -> (r: u64)
        ensures
            r == self.model().elapsed_ms(now),
    {
        match self.start_time {
            Some(start) => if now >= start { now - start } else { 0 },
            None => 0,
        }
    }

    /// Milliseconds since the start, by the system clock.
    pub fn elapsed_ms(&self) -> (r: u64)
        ensures
            exists|now: u64| r == self.model().elapsed_ms(now),
    {
        self.elapsed_ms_at(now_ms())
    }

    /// A timed session has run its time out at clock reading `now`.
    pub fn is_timed_out_at(&self, now: u64) -> (r: bool)
        ensures
            r == self.model().is_timed_out(now),
    {
        match self.mode {
            SessionMode::Timed(seconds) => {
                if self.start_time.is_none() {
                    false
                } else {
                    (self.elapsed_ms_at(now) as u128) >= (seconds as u128) * 1000
                }
            },
            _ => false,
        }
    }

    /// A timed session has run its time out, by the system clock.
    pub fn is_timed_out(&self) -> (r: bool)
        ensures
            exists|now: u64| r == self.model().is_timed_out(now),
    {
        self.is_timed_out_at(now_ms())
    }
}


proof fn lemma_closers_loop_advances(m: TypingModel)
    ensures
        m.skip_closers_loop().cursor >= m.cursor,
        m.skip_closers_loop().error == m.error,
        m.skip_closers_loop().mistake_mode == m.mistake_mode,
    decreases m.len() - m.cursor,
{
    if 0 <= m.cursor < m.len() && m.auto_paired(m.cursor) {
        lemma_closers_loop_advances(TypingModel { cursor: m.cursor + 1, ..m.with_result(m.cursor, CharResult::Skipped) });
    }
}

proof fn lemma_indent_loop_advances(m: TypingModel)
    ensures
        m.skip_indent_loop().cursor >= m.cursor,
        m.skip_indent_loop().error == m.error,
    decreases m.len() - m.cursor,
{
    if 0 <= m.cursor < m.len() && (m.chars[m.cursor] == ' ' || m.chars[m.cursor] == '\t') {
        lemma_indent_loop_advances(TypingModel { cursor: m.cursor + 1, ..m.with_result(m.cursor, CharResult::Skipped) });
    }
}

proof fn lemma_keystroke_advances(m: TypingModel, typed: char, now: u64)
    requires
        0 <= m.cursor < m.len(),
    ensures
        m.keystroke(typed, now).cursor >= m.cursor + 1,
        !m.strict() ==> m.keystroke(typed, now).error == m.error,
        m.keystroke(typed, now).mistake_mode == m.mistake_mode,
        m.keystroke(typed, now).chars == m.chars,
        typed == m.chars[m.cursor] && m.error is None ==> m.keystroke(typed, now).error is None,
{
    let p = m.cursor;
    let expected = m.chars[p];
    let accepted = typed == expected && m.error is None;
    let start = match m.start {
        Some(s) => s,
        None => now,
    };
    let interval = match m.last {
        Some(l) => sat_sub(now, l),
        None => 0,
    };
    let event = KeystrokeEvent {
        elapsed_ms: sat_sub(now, start),
        position: p as usize,
        expected,
        typed,
        accepted,
    };
    let base = TypingModel {
        start: Some(start),
        last: Some(now),
        total: m.total + 1,
        keystrokes: m.keystrokes.push(event),
        timings: add_timing(m.timings, expected, interval, accepted),
        ..m
    };
    if accepted {
        let after = TypingModel {
            correct: m.correct + 1,
            cursor: p + 1,
            ..base.with_result(p, CharResult::Correct)
        };
        lemma_indent_loop_advances(after);
        lemma_skip_frames(after);
    }
}

proof fn lemma_closers_advance(m: TypingModel)
    ensures
        m.skip_closers().cursor >= m.cursor,
        m.skip_closers().error == m.error,
        m.skip_closers().mistake_mode == m.mistake_mode,
{
    lemma_closers_loop_advances(m);
}

/// A key press inside the text always moves the caret forward, right or
/// wrong; in free mode no mistake ever holds the caret.
pub proof fn law_key_press_advances(m: TypingModel, typed: char, now: u64)
    requires
        m.wf(),
        m.cursor < m.len(),
    ensures
        m.type_char(typed, now).cursor > m.cursor,
        !m.strict() ==> m.type_char(typed, now).error is None,
{
    let s = m.skip_closers();
    lemma_closers_advance(m);
    lemma_skip_frames(m);
    assert(s.len() == m.len());
    if s.cursor < s.len() {
        let k = s.keystroke(typed, now);
        lemma_keystroke_advances(s, typed, now);
        assert(k.cursor >= s.cursor + 1);
        lemma_closers_advance(k);
    }
}

/// The character the user has to type next: the one at the caret once
/// auto-paired closers are passed over.
pub open spec fn next_expected(m: TypingModel) -> char {
    let s = m.skip_closers();
    s.chars[s.cursor]
}

/// The session after `n` key presses, each of the character expected next.
pub open spec fn typed_through(m: TypingModel, n: nat, now: u64) -> TypingModel
    decreases n,
{
    if n == 0 {
        m
    } else {
        typed_through(m.type_char(next_expected(m), now), (n - 1) as nat, now)
    }
}

proof fn lemma_expected_key(m: TypingModel, now: u64)
    requires
        m.error is None,
        0 <= m.cursor,
    ensures
        m.type_char(next_expected(m), now).error is None,
        m.type_char(next_expected(m), now).chars == m.chars,
        m.type_char(next_expected(m), now).cursor >= m.cursor,
        m.cursor < m.len() ==> m.type_char(next_expected(m), now).cursor > m.cursor,
{
    let s = m.skip_closers();
    lemma_closers_advance(m);
    lemma_skip_frames(m);
    if s.cursor < s.len() {
        let k = s.keystroke(next_expected(m), now);
        lemma_keystroke_advances(s, next_expected(m), now);
        lemma_closers_advance(k);
        lemma_skip_frames(k);
    }
}

proof fn lemma_typed_through(m: TypingModel, n: nat, now: u64)
    requires
        m.error is None,
        0 <= m.cursor,
    ensures
        typed_through(m, n, now).error is None,
        typed_through(m, n, now).chars == m.chars,
        typed_through(m, n, now).cursor >= m.cursor + n || typed_through(m, n, now).cursor >= m.len(),
    decreases n,
{
    if n > 0 {
        let t = m.type_char(next_expected(m), now);
        lemma_expected_key(m, now);
        lemma_typed_through(t, (n - 1) as nat, now);
    }
}

/// Typing the text as it stands completes the session: after one correct
/// key press per remaining character, the caret is past the end and no
/// mistake holds it.
pub proof fn law_typing_the_text_completes(m: TypingModel, now: u64)
    requires
        m.wf(),
        m.error is None,
    ensures
        typed_through(m, (m.len() - m.cursor) as nat, now).is_complete(),
{
    lemma_typed_through(m, (m.len() - m.cursor) as nat, now);
}

/// In strict mode a mistake holds: no key press clears it, so the session
/// cannot complete until the mistake is deleted.
pub proof fn law_strict_mistake_holds(m: TypingModel, typed: char, now: u64)
    requires
        m.wf(),
        m.strict(),
        m.error is Some,
    ensures
        m.type_char(typed, now).error == m.error,
        !m.type_char(typed, now).is_complete(),
{
    lemma_skip_frames(m);
    let s = m.skip_closers();
    assert(!m.closing_tail());
    assert(s == m.skip_closers_loop());
    if s.cursor < s.len() {
        let k = s.keystroke(typed, now);
        lemma_skip_frames(k);
        assert(!k.closing_tail());
    }
}

/// Without auto-paired closers nothing is ever skipped over.
proof fn lemma_no_pairs_no_skips(m: TypingModel)
    requires
        forall|i: int| 0 <= i < m.openers.len() ==> m.openers[i] is None,
    ensures
        m.skip_closers() == m,
        m.skip_back_loop() == m,
{
    assert(!m.closing_tail());
    if 0 <= m.cursor < m.len() {
        assert(!m.auto_paired(m.cursor));
    }
    if 0 < m.cursor <= m.len() {
        assert(!m.auto_paired(m.cursor - 1));
    }
}

/// Backspace undoes typing one character `expected` that is not a line
/// break (in a text without auto-paired closers): the caret, the results, the mistake
/// holding the caret and the count of correct keys are as before, while the
/// key press stays in the log and the correction is counted.
pub proof fn law_backspace_undoes_typing(m: TypingModel, expected: char, typed: char, now: u64, later: u64)
    requires
        m.wf(),
        m.cursor < m.len(),
        expected == m.chars[m.cursor],
        expected != '\n',
        forall|i: int| 0 <= i < m.openers.len() ==> m.openers[i] is None,
    ensures
        ({
            let t = m.type_char(typed, now);
            let n = t.backspace(later);
            &&& n.cursor == m.cursor
            &&& n.results == m.results
            &&& n.error == m.error
            &&& n.correct == m.correct
            &&& t.total == m.total + 1
            &&& n.keystrokes == t.keystrokes
            &&& t.keystrokes.len() == m.keystrokes.len() + 1
            &&& t.keystrokes.drop_last() == m.keystrokes
            &&& n.corrections == t.corrections + 1
        }),
{
    lemma_no_pairs_no_skips(m);
    let k = m.keystroke(typed, now);
    assert(k.openers == m.openers);
    lemma_no_pairs_no_skips(k);
    let t = k.skip_closers().record_progress(now);
    assert(t == m.type_char(typed, now));
    lemma_no_pairs_no_skips(t);
    assert(t.cursor == m.cursor + 1);
    assert(m.results[m.cursor] == CharResult::Pending);
    if let Some(e) = m.error {
        assert((e as int) < m.cursor);
    }
    let n = t.backspace(later);
    let p = m.cursor;
    assert(k.results =~= m.results.update(p, k.results[p]));
    assert(t.results == k.results);
    let u = TypingModel {
        cursor: p,
        error: if t.error == Some(p as usize) { None } else { t.error },
        correct: if t.results[p] == CharResult::Correct && t.correct > 0 { t.correct - 1 } else { t.correct },
        corrections: t.corrections + 1,
        ..t.with_result(p, CharResult::Pending)
    };
    assert(n == u.record_progress(later));
    assert(n.results == u.results);
    assert(u.results =~= m.results);
    lemma_keystroke_logs(m, typed, now, expected);
}

/// Passing over indentation leaves what lies before the caret alone and
/// stops at the end of the text.
proof fn lemma_indent_loop_keeps_before(m: TypingModel)
    requires
        0 <= m.cursor <= m.len(),
        m.results.len() == m.len(),
    ensures
        m.skip_indent_loop().results.len() == m.results.len(),
        forall|q: int| 0 <= q < m.cursor ==> #[trigger] m.skip_indent_loop().results[q] == m.results[q],
        m.skip_indent_loop().cursor <= m.len(),
    decreases m.len() - m.cursor,
{
    if 0 <= m.cursor < m.len() && (m.chars[m.cursor] == ' ' || m.chars[m.cursor] == '\t') {
        let n = TypingModel { cursor: m.cursor + 1, ..m.with_result(m.cursor, CharResult::Skipped) };
        lemma_indent_loop_keeps_before(n);
    }
}

/// One key press in a text without auto-paired closers. Inside the text it
/// logs one event for the character at the caret, judges the key there
/// (right only when it matches and no mistake holds the caret), counts it
/// as right or wrong, moves the caret forward, records progress and leaves
/// the text and everything before the caret alone. Past the end of the
/// text it changes nothing.
pub proof fn law_key_press_records(m: TypingModel, typed: char, now: u64)
    requires
        m.wf(),
        forall|i: int| 0 <= i < m.openers.len() ==> m.openers[i] is None,
    ensures
        m.cursor >= m.len() ==> m.type_char(typed, now) == m,
        m.cursor < m.len() ==> ({
            let t = m.type_char(typed, now);
            let i = m.cursor;
            let e = t.keystrokes.last();
            &&& t.keystrokes == m.keystrokes.push(e)
            &&& e.position == i
            &&& e.expected == m.chars[i]
            &&& e.typed == typed
            &&& e.accepted == (typed == m.chars[i] && m.error is None)
            &&& t.results[i] == (if e.accepted { CharResult::Correct } else { CharResult::Incorrect(typed) })
            &&& t.total == m.total + 1
            &&& t.correct + t.mistakes == m.correct + m.mistakes + 1
            &&& i < t.cursor <= m.len()
            &&& t.results.take(i) == m.results.take(i)
            &&& t.chars == m.chars
            &&& t.progress.len() == m.progress.len() + 1
            &&& t.start == (match m.start {
                Some(s) => Some(s),
                None => Some(now),
            })
            &&& t.last == Some(now)
        }),
{
    lemma_no_pairs_no_skips(m);
    if m.cursor < m.len() {
        let p = m.cursor;
        let k = m.keystroke(typed, now);
        lemma_keystroke_facts(m, typed, now, m.chars[p]);
        lemma_no_pairs_no_skips(k);
        assert(k.results.take(p) =~= m.results.take(p));
        let t = m.type_char(typed, now);
        assert(t == k.record_progress(now));
    }
}

/// What one key press at the caret does to the log, the counts and the
/// results.
proof fn lemma_keystroke_facts(m: TypingModel, typed: char, now: u64, expected: char)
    requires
        0 <= m.cursor < m.len(),
        expected == m.chars[m.cursor],
        m.results.len() == m.len(),
        m.len() <= usize::MAX,
    ensures
        ({
            let k = m.keystroke(typed, now);
            let p = m.cursor;
            let e = k.keystrokes.last();
            let accepted = typed == m.chars[p] && m.error is None;
            &&& k.keystrokes == m.keystrokes.push(e)
            &&& e.position == p
            &&& e.expected == m.chars[p]
            &&& e.typed == typed
            &&& e.accepted == accepted
            &&& k.results[p] == (if accepted { CharResult::Correct } else { CharResult::Incorrect(typed) })
            &&& k.total == m.total + 1
            &&& k.correct + k.mistakes == m.correct + m.mistakes + 1
            &&& p < k.cursor <= m.len()
            &&& k.results.len() == m.results.len()
            &&& forall|q: int| 0 <= q < p ==> #[trigger] k.results[q] == m.results[q]
            &&& k.chars == m.chars
            &&& k.openers == m.openers
            &&& k.start is Some
            &&& k.start == (match m.start {
                Some(s) => Some(s),
                None => Some(now),
            })
            &&& k.last == Some(now)
            &&& k.mode == m.mode
            &&& k.progress == m.progress
        }),
{
    lemma_indent_frames();
    let p = m.cursor;
    let k = m.keystroke(typed, now);
    assert(k.keystrokes.drop_last() =~= m.keystrokes);
    assert(k.keystrokes =~= m.keystrokes.push(k.keystrokes.last()));
}

/// Passing over indentation changes only the results and the caret, keeps
/// the results before the caret, and stops at the end of the text.
proof fn lemma_indent_frames()
    ensures
        forall|x: TypingModel| #[trigger] x.skip_indent_loop() == (TypingModel {
            results: x.skip_indent_loop().results,
            cursor: x.skip_indent_loop().cursor,
            ..x
        }),
        forall|x: TypingModel, q: int|
            0 <= x.cursor <= x.len() && x.results.len() == x.len() && 0 <= q < x.cursor
                ==> #[trigger] x.skip_indent_loop().results[q] == x.results[q],
        forall|x: TypingModel|
            0 <= x.cursor <= x.len() && x.results.len() == x.len() ==> {
                &&& (#[trigger] x.skip_indent_loop()).cursor <= x.len()
                &&& x.skip_indent_loop().cursor >= x.cursor
                &&& x.skip_indent_loop().results.len() == x.results.len()
            },
{
    assert forall|x: TypingModel| #[trigger] x.skip_indent_loop() == (TypingModel {
        results: x.skip_indent_loop().results,
        cursor: x.skip_indent_loop().cursor,
        ..x
    }) by {
        lemma_skip_frames(x);
    }
    assert forall|x: TypingModel, q: int|
        0 <= x.cursor <= x.len() && x.results.len() == x.len() && 0 <= q < x.cursor
            implies #[trigger] x.skip_indent_loop().results[q] == x.results[q] by {
        lemma_indent_loop_keeps_before(x);
    }
    assert forall|x: TypingModel|
        0 <= x.cursor <= x.len() && x.results.len() == x.len() implies {
            &&& (#[trigger] x.skip_indent_loop()).cursor <= x.len()
            &&& x.skip_indent_loop().cursor >= x.cursor
            &&& x.skip_indent_loop().results.len() == x.results.len()
        } by {
        lemma_indent_loop_keeps_before(x);
        lemma_indent_loop_advances(x);
    }
}

/// Deleting the line before the caret, where nothing is reached through
/// auto-paired closers: whatever happened before
/// the deletion is not touched: the caret goes back to the start of its
/// line (just after the nearest line break, or to the start of the text),
/// every character it passes over is pending again, what lies before
/// stays as it was, and one correction is counted per character.
pub proof fn law_delete_line_clears_the_line(m: TypingModel, now: u64)
    requires
        m.wf(),
        forall|i: int| 0 <= i < m.openers.len() ==> m.openers[i] is None,
    ensures
        ({
            let d = m.delete_line(now);
            &&& 0 <= d.cursor <= m.cursor
            &&& d.cursor == 0 || m.chars[d.cursor - 1] == '\n'
            &&& forall|j: int| d.cursor <= j < m.cursor ==> m.chars[j] != '\n'
            &&& forall|j: int| d.cursor <= j < m.cursor ==> d.results[j] == CharResult::Pending
            &&& d.results.take(d.cursor) == m.results.take(d.cursor)
            &&& d.corrections == m.corrections + (m.cursor - d.cursor)
            &&& d.chars == m.chars
        }),
{
    lemma_no_pairs_no_skips(m);
    lemma_line_deletion(m, now);
    let d = m.delete_line(now);
    assert(d.results.take(d.cursor) =~= m.results.take(d.cursor));
}

proof fn lemma_line_deletion(m: TypingModel, now: u64)
    requires
        forall|i: int| 0 <= i < m.openers.len() ==> m.openers[i] is None,
        0 <= m.cursor <= m.len(),
        m.results.len() == m.len(),
    ensures
        ({
            let d = m.backspace_while_in_line(now);
            &&& 0 <= d.cursor <= m.cursor
            &&& d.cursor == 0 || m.chars[d.cursor - 1] == '\n'
            &&& forall|j: int| d.cursor <= j < m.cursor ==> m.chars[j] != '\n'
            &&& forall|j: int| d.cursor <= j < m.cursor ==> d.results[j] == CharResult::Pending
            &&& forall|j: int| 0 <= j < d.cursor ==> d.results[j] == m.results[j]
            &&& forall|j: int| m.cursor <= j < m.len() ==> d.results[j] == m.results[j]
            &&& d.results.len() == m.results.len()
            &&& d.corrections == m.corrections + (m.cursor - d.cursor)
            &&& d.chars == m.chars
            &&& d.openers == m.openers
        }),
    decreases m.cursor,
{
    if 0 < m.cursor <= m.len() && m.chars[m.cursor - 1] != '\n' {
        lemma_no_pairs_no_skips(m);
        let b = m.backspace(now);
        let p = m.cursor - 1;
        assert(b.cursor == p);
        assert(b.results == m.results.update(p, CharResult::Pending));
        lemma_line_deletion(b, now);
    }
}

/// Position `i` holds a real mistake: a wrong key that differs from the text.
pub open spec fn real_mistake(m: TypingModel, i: int) -> bool {
    &&& 0 <= i < m.len()
    &&& (m.results[i] matches CharResult::Incorrect(t) && t != m.chars[i])
}

proof fn lemma_last_mistake(m: TypingModel, n: int)
    requires
        0 <= n <= m.len(),
    ensures
        m.last_mistake(n) is None <==> forall|i: int| 0 <= i < n ==> !#[trigger] real_mistake(m, i),
        m.last_mistake(n) matches Some((e, t)) ==> exists|i: int|
            0 <= i < n && #[trigger] real_mistake(m, i) && m.results[i] == CharResult::Incorrect(t) && e == m.chars[i]
                && forall|j: int| i < j < n ==> !#[trigger] real_mistake(m, j),
    decreases n,
{
    if n > 0 {
        lemma_last_mistake(m, n - 1);
        if real_mistake(m, n - 1) {
            assert(real_mistake(m, n - 1));
        } else {
            if let Some((e, t)) = m.last_mistake(n) {
                let i = choose|i: int|
                    0 <= i < n - 1 && #[trigger] real_mistake(m, i) && m.results[i] == CharResult::Incorrect(t) && e == m.chars[i]
                        && forall|j: int| i < j < n - 1 ==> !#[trigger] real_mistake(m, j);
                assert forall|j: int| i < j < n implies !#[trigger] real_mistake(m, j) by {
                    if j == n - 1 {
                    }
                }
            }
        }
    }
}

/// In free mode the mistake shown is the latest real one before the caret:
/// the character at the greatest position before the caret where a wrong
/// key differing from the text was pressed, with that key; none when there
/// is no such position.
pub proof fn law_latest_error_is_last_mistake(m: TypingModel)
    requires
        m.wf(),
        !m.strict(),
    ensures
        m.latest_error() is None <==> forall|i: int| 0 <= i < m.cursor ==> !#[trigger] real_mistake(m, i),
        m.latest_error() matches Some((e, t)) ==> exists|i: int|
            0 <= i < m.cursor && #[trigger] real_mistake(m, i) && m.results[i] == CharResult::Incorrect(t) && e == m.chars[i]
                && forall|j: int| i < j < m.cursor ==> !#[trigger] real_mistake(m, j),
{
    assert(m.error is None);
    lemma_last_mistake(m, m.cursor);
}

proof fn lemma_backspace_keeps_pairs(m: TypingModel, now: u64)
    ensures
        m.backspace(now).openers == m.openers,
        m.backspace(now).chars == m.chars,
{
    lemma_skip_back_frame(m);
}

proof fn lemma_runs_keep_pairs(m: TypingModel, word: bool, now: u64)
    ensures
        m.backspace_while_space(now).openers == m.openers,
        m.backspace_while_space(now).chars == m.chars,
        m.backspace_while_class(word, now).openers == m.openers,
        m.backspace_while_class(word, now).chars == m.chars,
        m.backspace_while_in_line(now).openers == m.openers,
        m.backspace_while_in_line(now).chars == m.chars,
    decreases m.cursor,
{
    if 0 < m.cursor <= m.len() {
        lemma_backspace_cursor(m, now);
        lemma_backspace_keeps_pairs(m, now);
        lemma_runs_keep_pairs(m.backspace(now), word, now);
    }
}

/// Which closer is paired with which opener is fixed when the session is
/// made and follows the text: no key press and no deletion changes it or
/// the text. A closer is filled in exactly when its opener is typed
/// correctly, and with no pairs (a session made without auto-pairing)
/// nothing ever is.
pub proof fn law_pairs_follow_the_text(m: TypingModel, typed: char, now: u64)
    ensures
        m.type_char(typed, now).openers == m.openers,
        m.type_char(typed, now).chars == m.chars,
        m.backspace(now).openers == m.openers,
        m.backspace(now).chars == m.chars,
        m.delete_word(now).openers == m.openers,
        m.delete_word(now).chars == m.chars,
        m.delete_line(now).openers == m.openers,
        m.delete_line(now).chars == m.chars,
        forall|i: int| #[trigger] m.auto_paired(i) <==> (0 <= i < m.openers.len() && (m.openers[i] matches Some(o) && 0 <= o < m.results.len()
            && m.results[o as int] == CharResult::Correct)),
        (forall|i: int| 0 <= i < m.openers.len() ==> m.openers[i] is None) ==> forall|i: int| !#[trigger] m.auto_paired(i),
{
    lemma_skip_frames(m);
    let s = m.skip_closers();
    if s.cursor < s.len() {
        lemma_indent_frames();
        let k = s.keystroke(typed, now);
        assert(k.openers == s.openers && k.chars == s.chars);
        lemma_skip_frames(k);
    }
    lemma_backspace_keeps_pairs(m, now);
    lemma_skip_back_frame(m);
    let b = m.skip_back_loop();
    lemma_runs_keep_pairs(b, true, now);
    let w = b.backspace_while_space(now);
    lemma_runs_keep_pairs(w, true, now);
    lemma_runs_keep_pairs(w, false, now);
}

/// The clock of a timed session runs from its start, not from the latest
/// key press: a started timed session has run out at `now` exactly when at
/// least its seconds (times 1000 ms) have passed since the start (a
/// reading before the start counting as none), while an untimed session or
/// one not yet started never has. The start is the first key press's time
/// (see `law_key_press_records`), and later key presses leave it alone.
pub proof fn law_time_runs_from_the_start(m: TypingModel, now: u64)
    ensures
        m.is_timed_out(now) <==> (m.mode matches SessionMode::Timed(seconds) && m.start matches Some(s) && (if now
            >= s {
            now - s
        } else {
            0
        }) >= seconds * 1000),
{
}

/// Backspace keeps every key press in the log.
pub proof fn law_backspace_keeps_keystrokes(m: TypingModel, now: u64)
    ensures
        m.backspace(now).keystrokes == m.keystrokes,
        m.backspace(now).total == m.total,
        m.backspace(now).mistakes == m.mistakes,
{
    lemma_skip_back_frame(m);
}


/// A key press adds one event to the log and keeps the earlier ones
/// (`expected` is the character at the caret).
proof fn lemma_keystroke_logs(m: TypingModel, typed: char, now: u64, expected: char)
    requires
        0 <= m.cursor < m.len(),
        expected == m.chars[m.cursor],
        expected != '\n',
    ensures
        m.keystroke(typed, now).keystrokes.len() == m.keystrokes.len() + 1,
        m.keystroke(typed, now).keystrokes.drop_last() == m.keystrokes,
{
    let k = m.keystroke(typed, now);
    assert(k.keystrokes.drop_last() =~= m.keystrokes);
}

} // verus!
