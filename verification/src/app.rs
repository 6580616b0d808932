//! Screens, settings and menu rules of the typing application. The terminal
//! front end owns the I/O (loading, the network, saving); it hands key
//! presses to these functions and acts on what they return.
use vstd::prelude::*;

use crate::content::{
    spec_code_label, spec_code_slug, spec_language_label, spec_language_slug, spec_length_accepts,
    spec_length_label, spec_mistake_label, spec_size_label, CodeLanguage, ContentSource,
    MistakeMode, PracticeKind, Snippet, WordLanguage, WordLength, WordListSize,
};
use crate::snippet::LoadRequest;
use crate::protocol::{spec_starts_at, RoomPhase};
use crate::relay::first_index;
use crate::session::{spec_mode_label, CharResult, KeystrokeEvent, ProgressEvent, Session, SessionMode};
use crate::snippet::spec_split;
use crate::text::{
    char_count, chars_of, is_ascii_alphanumeric, is_control, push_char, spec_ascii_upper,
    spec_is_ascii_alphanumeric, spec_is_control, spec_prefix, spec_utf8_len, string_of,
    lowercase, spec_lowercase, to_ascii_uppercase, utf8_len_exceeds,
};

verus! {

broadcast use vstd::string::group_string_axioms;

/// The screen the application shows.
#[derive(Debug, Clone, Copy, PartialEq, Eq, Structural)]
pub enum AppState {
    Menu,
    Loading,
    RoomEntry,
    Lobby,
    Countdown,
    Typing,
    Results,
    Analysis,
    Stats,
}

/// Shape of the terminal caret while typing.
#[derive(Debug, Clone, Copy, PartialEq, Eq, Structural)]
pub enum CaretStyle {
    BlinkingBar,
    SteadyBar,
    BlinkingBlock,
    SteadyBlock,
    BlinkingUnderline,
    SteadyUnderline,
}

pub open spec fn spec_caret_label(v: CaretStyle) -> Seq<char> {
    match v {
        CaretStyle::BlinkingBar => "blinking bar"@,
        CaretStyle::SteadyBar => "steady bar"@,
        CaretStyle::BlinkingBlock => "blinking block"@,
        CaretStyle::SteadyBlock => "steady block"@,
        CaretStyle::BlinkingUnderline => "blinking underline"@,
        CaretStyle::SteadyUnderline => "steady underline"@,
    }
}

impl CaretStyle {
    pub const ALL: [CaretStyle; 6] = [
        CaretStyle::BlinkingBar,
        CaretStyle::SteadyBar,
        CaretStyle::BlinkingBlock,
        CaretStyle::SteadyBlock,
        CaretStyle::BlinkingUnderline,
        CaretStyle::SteadyUnderline,
    ];

    pub fn label(self) -> (r: &'static str)
        ensures
            r@ == spec_caret_label(self),
    {
        match self {
            CaretStyle::BlinkingBar => "blinking bar",
            CaretStyle::SteadyBar => "steady bar",
            CaretStyle::BlinkingBlock => "blinking block",
            CaretStyle::SteadyBlock => "steady block",
            CaretStyle::BlinkingUnderline => "blinking underline",
            CaretStyle::SteadyUnderline => "steady underline",
        }
    }
}

/// What the user chose in the menu.
#[derive(Debug, Clone, Copy, PartialEq, Eq, Structural)]
pub struct Settings {
    pub practice: PracticeKind,
    pub word_language: WordLanguage,
    pub word_list: WordListSize,
    pub word_length: WordLength,
    pub word_mode: SessionMode,
    pub code_language: CodeLanguage,
    pub mistake_mode: MistakeMode,
    pub lowercase_words: bool,
    pub code_autopairs: bool,
    pub caret_style: CaretStyle,
}

pub open spec fn spec_default_settings() -> Settings {
    Settings {
        practice: PracticeKind::Words,
        word_language: WordLanguage::English,
        word_list: WordListSize::Top1k,
        word_length: WordLength::Any,
        word_mode: SessionMode::Timed(30),
        code_language: CodeLanguage::Rust,
        mistake_mode: MistakeMode::Strict,
        lowercase_words: true,
        code_autopairs: false,
        caret_style: CaretStyle::BlinkingBar,
    }
}

impl Default for Settings {
    fn default() -> (r: Settings)
        ensures
            r == spec_default_settings(),
    {
        Settings {
            practice: PracticeKind::Words,
            word_language: WordLanguage::English,
            word_list: WordListSize::Top1k,
            word_length: WordLength::Any,
            word_mode: SessionMode::Timed(30),
            code_language: CodeLanguage::Rust,
            mistake_mode: MistakeMode::Strict,
            lowercase_words: true,
            code_autopairs: false,
            caret_style: CaretStyle::BlinkingBar,
        }
    }
}

/// What the analysis screen shows of a finished session.
#[derive(Debug, Clone)]
pub struct SessionAnalysis {
    pub text: String,
    pub keystrokes: Vec<KeystrokeEvent>,
    pub progress: Vec<ProgressEvent>,
    pub correct_positions: Vec<bool>,
    pub final_cursor: usize,
}

/// A menu value that can be compared with another of its kind.
pub trait Choice: Copy {
    fn same_as(&self, other: &Self) -> (r: bool)
        ensures
            r == (*self == *other);
}

impl Choice for WordListSize {
    fn same_as(&self, other: &Self) -> (r: bool) {
        *self == *other
    }
}

impl Choice for WordLength {
    fn same_as(&self, other: &Self) -> (r: bool) {
        *self == *other
    }
}

impl Choice for SessionMode {
    fn same_as(&self, other: &Self) -> (r: bool) {
        *self == *other
    }
}

impl Choice for CaretStyle {
    fn same_as(&self, other: &Self) -> (r: bool) {
        *self == *other
    }
}

impl Choice for CodeLanguage {
    fn same_as(&self, other: &Self) -> (r: bool) {
        *self == *other
    }
}

/// The value after (or before) `current` in `values`, wrapping around;
/// a value not in the list counts as the first.
pub open spec fn equals<T>(x: T) -> spec_fn(T) -> bool {
    |v: T| v == x
}

pub open spec fn spec_cycle<T>(values: Seq<T>, current: T, forward: bool) -> T {
    let k = first_index(values, equals(current));
    let index = if k < 0 { 0 } else { k };
    let next = if forward {
        (index + 1) % (values.len() as int)
    } else if index == 0 {
        values.len() - 1
    } else {
        index - 1
    };
    values[next]
}

/// The next (or previous) of `values` after `current`.
pub fn cycle<T: Choice>(current: T, values: &[T], forward: bool) -> (r: T)
    requires
        values@.len() > 0,
    ensures
        r == spec_cycle(values@, current, forward),
{
    let ghost p = equals(current);
    let mut index: usize = 0;
    let mut found = false;
    while index < values.len() && !found
        invariant
            index <= values@.len(),
            p == equals(current),
            forall|j: int| 0 <= j < index ==> !p(#[trigger] values@[j]),
            found ==> index < values@.len() && p(values@[index as int]),
        decreases values@.len() - index + (if found { 0int } else { 1int }),
    {
        if values[index].same_as(&current) {
            found = true;
        } else {
            index += 1;
        }
    }
    proof {
        crate::relay::lemma_first_index(values@, p, index as int);
    }
    if !found {
        index = 0;
    }
    let next = if forward {
        (index + 1) % values.len()
    } else if index == 0 {
        values.len() - 1
    } else {
        index - 1
    };
    values[next]
}

/// Words to draw for a word session: five per second of a timed session
/// (enough for 300 words per minute), the count of a word-count session.
pub open spec fn spec_word_sample_size(mode: SessionMode) -> int {
    match mode {
        SessionMode::WordCount(count) => count as int,
        SessionMode::Timed(seconds) => seconds * 5,
        SessionMode::Snippet => 0,
    }
}

pub fn word_sample_size(mode: SessionMode) -> (r: usize)
    requires
        spec_word_sample_size(mode) <= usize::MAX,
    ensures
        r == spec_word_sample_size(mode),
{
    match mode {
        SessionMode::WordCount(count) => count as usize,
        SessionMode::Timed(seconds) => seconds as usize * 5,
        SessionMode::Snippet => 0,
    }
}

pub open spec fn spec_menu_rows(practice: PracticeKind) -> usize {
    match practice {
        PracticeKind::Words => 9,
        PracticeKind::Code => 6,
    }
}

pub open spec fn word_list_choices() -> Seq<WordListSize> {
    seq![WordListSize::Top200, WordListSize::Top1k, WordListSize::Top5k, WordListSize::Top10k]
}

pub open spec fn word_length_choices() -> Seq<WordLength> {
    seq![WordLength::Any, WordLength::Short, WordLength::Medium, WordLength::Long]
}

pub open spec fn word_mode_choices() -> Seq<SessionMode> {
    seq![
        SessionMode::Timed(15),
        SessionMode::Timed(30),
        SessionMode::Timed(60),
        SessionMode::Timed(120),
        SessionMode::WordCount(10),
        SessionMode::WordCount(25),
        SessionMode::WordCount(50),
        SessionMode::WordCount(100),
    ]
}

pub open spec fn caret_choices() -> Seq<CaretStyle> {
    seq![
        CaretStyle::BlinkingBar,
        CaretStyle::SteadyBar,
        CaretStyle::BlinkingBlock,
        CaretStyle::SteadyBlock,
        CaretStyle::BlinkingUnderline,
        CaretStyle::SteadyUnderline,
    ]
}

pub open spec fn code_language_choices() -> Seq<CodeLanguage> {
    seq![
        CodeLanguage::Python,
        CodeLanguage::JavaScript,
        CodeLanguage::TypeScript,
        CodeLanguage::Rust,
        CodeLanguage::Go,
        CodeLanguage::Swift,
        CodeLanguage::Kotlin,
        CodeLanguage::Cpp,
        CodeLanguage::CSharp,
        CodeLanguage::Java,
    ]
}

/// The settings after changing the value on menu row `row`. Word menus:
/// practice, language, list, length, mode, mistakes, lower case, caret;
/// code menus: practice, language, mistakes, auto-pairs, caret. The last
/// row starts a session and changes nothing.
pub open spec fn spec_menu_change(s: Settings, row: usize, forward: bool) -> Settings {
    if row == 0 {
        Settings {
            practice: match s.practice {
                PracticeKind::Words => PracticeKind::Code,
                PracticeKind::Code => PracticeKind::Words,
            },
            ..s
        }
    } else {
        match s.practice {
            PracticeKind::Words => {
                if row == 1 {
                    Settings {
                        word_language: match s.word_language {
                            WordLanguage::English => WordLanguage::Russian,
                            WordLanguage::Russian => WordLanguage::English,
                        },
                        ..s
                    }
                } else if row == 2 {
                    Settings { word_list: spec_cycle(word_list_choices(), s.word_list, forward), ..s }
                } else if row == 3 {
                    Settings { word_length: spec_cycle(word_length_choices(), s.word_length, forward), ..s }
                } else if row == 4 {
                    Settings { word_mode: spec_cycle(word_mode_choices(), s.word_mode, forward), ..s }
                } else if row == 5 {
                    Settings { mistake_mode: flip_mistake_mode(s.mistake_mode), ..s }
                } else if row == 6 {
                    Settings { lowercase_words: !s.lowercase_words, ..s }
                } else if row == 7 {
                    Settings { caret_style: spec_cycle(caret_choices(), s.caret_style, forward), ..s }
                } else {
                    s
                }
            },
            PracticeKind::Code => {
                if row == 1 {
                    Settings { code_language: spec_cycle(code_language_choices(), s.code_language, forward), ..s }
                } else if row == 2 {
                    Settings { mistake_mode: flip_mistake_mode(s.mistake_mode), ..s }
                } else if row == 3 {
                    Settings { code_autopairs: !s.code_autopairs, ..s }
                } else if row == 4 {
                    Settings { caret_style: spec_cycle(caret_choices(), s.caret_style, forward), ..s }
                } else {
                    s
                }
            },
        }
    }
}

pub open spec fn flip_mistake_mode(m: MistakeMode) -> MistakeMode {
    match m {
        MistakeMode::Strict => MistakeMode::Free,
        MistakeMode::Free => MistakeMode::Strict,
    }
}

/// What the front end does after Enter on the room screen.
#[derive(Debug, Clone, Copy, PartialEq, Eq, Structural)]
pub enum RoomEntryAction {
    Nothing,
    Join,
    Host,
}

/// The menu and screen state of the application.
#[derive(Debug)]
pub struct App {
    pub state: AppState,
    pub settings: Settings,
    pub menu_selection: usize,
    pub room_entry_selection: usize,
    pub analysis_line: usize,
    pub room_code_input: String,
    pub player_name: String,
    pub status: Option<String>,
    pub hosting_room: bool,
}

/// Room codes typed or pasted: ASCII letters and digits, upper case, at most six.
pub open spec fn spec_room_code_input(code: Seq<char>) -> Seq<char> {
    spec_prefix(code.filter(|c: char| spec_is_ascii_alphanumeric(c)), 6).map_values(|c: char| spec_ascii_upper(c))
}

impl App {
    /// Selections stay on their screens' rows.
    pub open spec fn wf(&self) -> bool {
        &&& self.menu_selection < spec_menu_rows(self.settings.practice)
        &&& self.room_entry_selection < 4
    }

    /// The application on its menu, with the given settings and player name.
    pub fn new(settings: Settings, player_name: String, status: Option<String>) -> (r: App)
        ensures
            r.wf(),
            r.state == AppState::Menu,
            r.settings == settings,
            r.menu_selection == 0,
            r.room_entry_selection == 1,
            r.analysis_line == 0,
            r.room_code_input@.len() == 0,
            r.player_name == player_name,
            r.status == status,
            !r.hosting_room,
    {
        App {
            state: AppState::Menu,
            settings,
            menu_selection: 0,
            room_entry_selection: 1,
            analysis_line: 0,
            room_code_input: String::new(),
            player_name,
            status,
            hosting_room: false,
        }
    }

    /// Rows of the menu for the chosen practice.
    pub fn menu_rows(&self) -> (r: usize)
        ensures
            r == spec_menu_rows(self.settings.practice),
    {
        match self.settings.practice {
            PracticeKind::Words => 9,
            PracticeKind::Code => 6,
        }
    }

    pub fn menu_next(&mut self)
        requires
            old(self).wf(),
        ensures
            final(self).wf(),
            final(self).menu_selection == (old(self).menu_selection + 1) % (spec_menu_rows(old(self).settings.practice) as int),
            *final(self) == (App { menu_selection: final(self).menu_selection, ..*old(self) }),
    {
        self.menu_selection = (self.menu_selection + 1) % self.menu_rows();
    }

    pub fn menu_prev(&mut self)
        requires
            old(self).wf(),
        ensures
            final(self).wf(),
            final(self).menu_selection == if old(self).menu_selection == 0 {
                spec_menu_rows(old(self).settings.practice) - 1
            } else {
                old(self).menu_selection - 1
            },
            *final(self) == (App { menu_selection: final(self).menu_selection, ..*old(self) }),
    {
        self.menu_selection = if self.menu_selection == 0 {
            self.menu_rows() - 1
        } else {
            self.menu_selection - 1
        };
    }

    /// Changes the value on the selected row, forward when `direction` is
    /// positive. Switching the practice keeps the selection within the new menu.
    pub fn menu_change(&mut self, direction: i8)
        requires
            old(self).wf(),
        ensures
            final(self).wf(),
            final(self).settings == spec_menu_change(old(self).settings, old(self).menu_selection, direction > 0),
            final(self).menu_selection == if old(self).menu_selection == 0 {
                0
            } else {
                old(self).menu_selection
            },
            *final(self) == (App { settings: final(self).settings, menu_selection: final(self).menu_selection, ..*old(self) }),
    {
        let forward = direction > 0;
        let row = self.menu_selection;
        if row == 0 {
            self.settings.practice = match self.settings.practice {
                PracticeKind::Words => PracticeKind::Code,
                PracticeKind::Code => PracticeKind::Words,
            };
            let rows = self.menu_rows();
            if self.menu_selection > rows - 1 {
                self.menu_selection = rows - 1;
            }
            return;
        }
        match self.settings.practice {
            PracticeKind::Words => {
                if row == 1 {
                    self.settings.word_language = match self.settings.word_language {
                        WordLanguage::English => WordLanguage::Russian,
                        WordLanguage::Russian => WordLanguage::English,
                    };
                } else if row == 2 {
                    let values = [WordListSize::Top200, WordListSize::Top1k, WordListSize::Top5k, WordListSize::Top10k];
                    assert(values@ =~= word_list_choices());
                    self.settings.word_list = cycle(self.settings.word_list, &values, forward);
                } else if row == 3 {
                    let values = [WordLength::Any, WordLength::Short, WordLength::Medium, WordLength::Long];
                    assert(values@ =~= word_length_choices());
                    self.settings.word_length = cycle(self.settings.word_length, &values, forward);
                } else if row == 4 {
                    let values = [
                        SessionMode::Timed(15),
                        SessionMode::Timed(30),
                        SessionMode::Timed(60),
                        SessionMode::Timed(120),
                        SessionMode::WordCount(10),
                        SessionMode::WordCount(25),
                        SessionMode::WordCount(50),
                        SessionMode::WordCount(100),
                    ];
                    assert(values@ =~= word_mode_choices());
                    self.settings.word_mode = cycle(self.settings.word_mode, &values, forward);
                } else if row == 5 {
                    self.settings.mistake_mode = match self.settings.mistake_mode {
                        MistakeMode::Strict => MistakeMode::Free,
                        MistakeMode::Free => MistakeMode::Strict,
                    };
                } else if row == 6 {
                    self.settings.lowercase_words = !self.settings.lowercase_words;
                } else if row == 7 {
                    let values = CaretStyle::ALL;
                    assert(values@ =~= caret_choices());
                    self.settings.caret_style = cycle(self.settings.caret_style, &values, forward);
                }
            },
            PracticeKind::Code => {
                if row == 1 {
                    let values = CodeLanguage::ALL;
                    assert(values@ =~= code_language_choices());
                    self.settings.code_language = cycle(self.settings.code_language, &values, forward);
                } else if row == 2 {
                    self.settings.mistake_mode = match self.settings.mistake_mode {
                        MistakeMode::Strict => MistakeMode::Free,
                        MistakeMode::Free => MistakeMode::Strict,
                    };
                } else if row == 3 {
                    self.settings.code_autopairs = !self.settings.code_autopairs;
                } else if row == 4 {
                    let values = CaretStyle::ALL;
                    assert(values@ =~= caret_choices());
                    self.settings.caret_style = cycle(self.settings.caret_style, &values, forward);
                }
            },
        }
    }

    /// Enter on the menu: the last row starts a session (`true`); any other
    /// row changes its value forward.
    pub fn menu_activate(&mut self) -> (start: bool)
        requires
            old(self).wf(),
        ensures
            final(self).wf(),
            start == (old(self).menu_selection + 1 == spec_menu_rows(old(self).settings.practice)),
            start ==> *final(self) == *old(self),
            !start ==> final(self).settings == spec_menu_change(old(self).settings, old(self).menu_selection, true),
    {
        if self.menu_selection + 1 == self.menu_rows() {
            true
        } else {
            self.menu_change(1);
            false
        }
    }
}


/// The text without its last character (`String::pop`).
fn without_last(s: &String) -> (r: String)
    ensures
        r@ == if s@.len() > 0 { s@.drop_last() } else { s@ },
{
    let v = chars_of(s.as_str());
    if v.len() == 0 {
        String::new()
    } else {
        let r = string_of(&v, 0, v.len() - 1);
        assert(v@.subrange(0, v@.len() - 1) =~= v@.drop_last());
        r
    }
}

/// Number of newlines in the text: one less than the pieces it splits into.
pub fn newline_count(text: &str) -> (n: usize)
    ensures
        n + 1 == spec_split(text@).len(),
{
    let v = chars_of(text);
    let mut n: usize = 0;
    let mut i: usize = 0;
    while i < v.len()
        invariant
            v@ == text@,
            i <= v@.len(),
            n + 1 == spec_split(v@.take(i as int)).len(),
            n <= i,
        decreases v@.len() - i,
    {
        proof {
            assert(v@.take(i + 1).drop_last() =~= v@.take(i as int));
            assert(v@.take(i + 1).last() == v@[i as int]);
            crate::snippet::lemma_split_len(v@.take(i as int));
        }
        if v[i] == '\n' {
            n += 1;
        }
        i += 1;
    }
    assert(v@.take(i as int) =~= v@);
    n
}

impl App {
    /// Opens the room screen, with a code given on the command line if any.
    pub fn open_multiplayer(&mut self, code: Option<String>)
        requires
            old(self).wf(),
        ensures
            final(self).wf(),
            final(self).status is None,
            final(self).room_code_input@ == spec_room_code_input(match code {
                Some(c) => c@,
                None => Seq::<char>::empty(),
            }),
            final(self).room_entry_selection == if final(self).room_code_input@.len() == 0 { 1usize } else { 2usize },
            final(self).state == AppState::RoomEntry,
            final(self).settings == old(self).settings,
            final(self).menu_selection == old(self).menu_selection,
            final(self).player_name == old(self).player_name,
            final(self).analysis_line == old(self).analysis_line,
            final(self).hosting_room == old(self).hosting_room,
    {
        self.status = None;
        let raw = match code {
            Some(c) => c,
            None => String::new(),
        };
        let v = chars_of(raw.as_str());
        let ghost keep = |c: char| spec_is_ascii_alphanumeric(c);
        let mut out = String::new();
        let mut count: usize = 0;
        let mut i: usize = 0;
        while i < v.len() && count < 6
            invariant
                i <= v@.len(),
                keep == (|c: char| spec_is_ascii_alphanumeric(c)),
                count <= 6,
                count == v@.take(i as int).filter(keep).len(),
                out@ == v@.take(i as int).filter(keep).map_values(|c: char| spec_ascii_upper(c)),
            decreases v@.len() - i,
        {
            let c = v[i];
            proof {
                reveal(Seq::filter);
                assert(v@.take(i + 1).drop_last() =~= v@.take(i as int));
                assert(v@.take(i + 1).last() == c);
            }
            if is_ascii_alphanumeric(c) {
                push_char(&mut out, to_ascii_uppercase(c));
                count += 1;
                proof {
                    assert(v@.take(i + 1).filter(keep) == v@.take(i as int).filter(keep).push(c));
                    assert(v@.take(i + 1).filter(keep).map_values(|c: char| spec_ascii_upper(c)) =~= v@.take(i as int).filter(keep).map_values(|c: char| spec_ascii_upper(c)).push(spec_ascii_upper(c)));
                }
            }
            i += 1;
        }
        proof {
            reveal(Seq::filter);
            let full = v@.filter(keep);
            if count < 6 {
                assert(v@.take(i as int) =~= v@);
                assert(spec_prefix(full, 6) == full);
            } else {
                lemma_filter_prefix_any(v@, keep, i as int);
                assert(full.take(6) =~= v@.take(i as int).filter(keep));
            }
        }
        self.room_code_input = out;
        self.room_entry_selection = if count == 0 { 1 } else { 2 };
        self.state = AppState::RoomEntry;
    }

    pub fn room_entry_next(&mut self)
        requires
            old(self).wf(),
        ensures
            final(self).wf(),
            *final(self) == (App { room_entry_selection: ((old(self).room_entry_selection + 1) % 4) as usize, ..*old(self) }),
    {
        self.room_entry_selection = (self.room_entry_selection + 1) % 4;
    }

    pub fn room_entry_prev(&mut self)
        requires
            old(self).wf(),
        ensures
            final(self).wf(),
            *final(self) == (App {
                room_entry_selection: if old(self).room_entry_selection == 0 { 3 } else { (old(self).room_entry_selection - 1) as usize },
                ..*old(self)
            }),
    {
        self.room_entry_selection = if self.room_entry_selection == 0 {
            3
        } else {
            self.room_entry_selection - 1
        };
    }

    /// A key typed on the room screen: on the name row any printable
    /// character while the name is under 16 characters, on the code row an
    /// ASCII letter or digit, upper-cased, while the code is under 6 bytes.
    pub fn room_entry_type(&mut self, character: char)
        requires
            old(self).wf(),
        ensures
            final(self).wf(),
            final(self).player_name@ == if old(self).room_entry_selection == 0 && !spec_is_control(character)
                && old(self).player_name@.len() < 16 {
                old(self).player_name@.push(character)
            } else {
                old(self).player_name@
            },
            final(self).room_code_input@ == if old(self).room_entry_selection == 1 && spec_is_ascii_alphanumeric(character)
                && spec_utf8_len(old(self).room_code_input@) < 6 {
                old(self).room_code_input@.push(spec_ascii_upper(character))
            } else {
                old(self).room_code_input@
            },
            *final(self) == (App { player_name: final(self).player_name, room_code_input: final(self).room_code_input, ..*old(self) }),
    {
        if self.room_entry_selection == 0 {
            if !is_control(character) && char_count(self.player_name.as_str()) < 16 {
                push_char(&mut self.player_name, character);
            }
        } else if self.room_entry_selection == 1 {
            if is_ascii_alphanumeric(character) && !utf8_len_exceeds(self.room_code_input.as_str(), 5) {
                push_char(&mut self.room_code_input, to_ascii_uppercase(character));
            }
        }
    }

    /// Backspace on the room screen removes the last character of the field.
    pub fn room_entry_backspace(&mut self)
        requires
            old(self).wf(),
        ensures
            final(self).wf(),
            final(self).player_name@ == if old(self).room_entry_selection == 0 && old(self).player_name@.len() > 0 {
                old(self).player_name@.drop_last()
            } else {
                old(self).player_name@
            },
            final(self).room_code_input@ == if old(self).room_entry_selection == 1 && old(self).room_code_input@.len() > 0 {
                old(self).room_code_input@.drop_last()
            } else {
                old(self).room_code_input@
            },
            *final(self) == (App { player_name: final(self).player_name, room_code_input: final(self).room_code_input, ..*old(self) }),
    {
        if self.room_entry_selection == 0 {
            self.player_name = without_last(&self.player_name);
        } else if self.room_entry_selection == 1 {
            self.room_code_input = without_last(&self.room_code_input);
        }
    }

    /// Enter on the room screen: from the name to the code row; join with a
    /// code; host from the last row; otherwise ask for a code.
    pub fn room_entry_activate(&mut self) -> (action: RoomEntryAction)
        requires
            old(self).wf(),
        ensures
            final(self).wf(),
            old(self).room_entry_selection == 0 ==> action == RoomEntryAction::Nothing && *final(self) == (App { room_entry_selection: 1, ..*old(self) }),
            (old(self).room_entry_selection == 1 || old(self).room_entry_selection == 2) && old(self).room_code_input@.len() > 0
                ==> action == RoomEntryAction::Join && *final(self) == *old(self),
            old(self).room_entry_selection == 3 ==> action == RoomEntryAction::Host && *final(self) == (App { hosting_room: true, ..*old(self) }),
            (old(self).room_entry_selection == 1 || old(self).room_entry_selection == 2) && old(self).room_code_input@.len() == 0
                ==> (action == RoomEntryAction::Nothing && (final(self).status matches Some(m) && m@ == "Enter a room code"@)
                && *final(self) == (App { status: final(self).status, ..*old(self) })),
    {
        if self.room_entry_selection == 0 {
            self.room_entry_selection = 1;
            RoomEntryAction::Nothing
        } else if (self.room_entry_selection == 1 || self.room_entry_selection == 2) && !self.room_code_input.as_str().is_empty() {
            RoomEntryAction::Join
        } else if self.room_entry_selection == 3 {
            self.hosting_room = true;
            RoomEntryAction::Host
        } else {
            self.status = Some("Enter a room code".to_owned());
            RoomEntryAction::Nothing
        }
    }

    /// Back to the menu from a room.
    pub fn leave_room(&mut self)
        ensures
            *final(self) == (App { state: AppState::Menu, ..*old(self) }),
    {
        self.state = AppState::Menu;
    }

    /// Back to the menu while content loads.
    pub fn cancel_loading(&mut self)
        ensures
            *final(self) == (App { state: AppState::Menu, hosting_room: false, ..*old(self) }),
    {
        self.hosting_room = false;
        self.state = AppState::Menu;
    }

    /// The analysis screen, at its first line, once there is a result.
    pub fn open_analysis(&mut self, has_result: bool)
        ensures
            *final(self) == if has_result {
                App { analysis_line: 0, state: AppState::Analysis, ..*old(self) }
            } else {
                *old(self)
            },
    {
        if has_result {
            self.analysis_line = 0;
            self.state = AppState::Analysis;
        }
    }

    pub fn close_analysis(&mut self)
        ensures
            *final(self) == (App { state: AppState::Results, ..*old(self) }),
    {
        self.state = AppState::Results;
    }

    /// The next line of the analysed text, staying on its last line.
    pub fn analysis_line_next(&mut self, text: Option<&str>)
        requires
            old(self).analysis_line < usize::MAX,
        ensures
            ({
                let lines: int = match text {
                    Some(t) => spec_split(t@).len() as int,
                    None => 0,
                };
                let last: int = if lines > 0 { lines - 1 } else { 0 };
                *final(self) == (App {
                    analysis_line: if old(self).analysis_line + 1 < last { (old(self).analysis_line + 1) as usize } else { last as usize },
                    ..*old(self)
                })
            }),
    {
        let last = match text {
            Some(t) => newline_count(t),
            None => 0,
        };
        let next = self.analysis_line + 1;
        self.analysis_line = if next < last { next } else { last };
    }

    pub fn analysis_line_prev(&mut self)
        ensures
            *final(self) == (App {
                analysis_line: if old(self).analysis_line > 0 { (old(self).analysis_line - 1) as usize } else { 0 },
                ..*old(self)
            }),
    {
        if self.analysis_line > 0 {
            self.analysis_line = self.analysis_line - 1;
        }
    }
}

proof fn lemma_filter_prefix_any(s: Seq<char>, keep: spec_fn(char) -> bool, k: int)
    requires
        0 <= k <= s.len(),
    ensures
        s.take(k).filter(keep).len() <= s.filter(keep).len(),
        s.filter(keep).take(s.take(k).filter(keep).len() as int) =~= s.take(k).filter(keep),
    decreases s.len() - k,
{
    reveal(Seq::filter);
    if k < s.len() {
        lemma_filter_prefix_any(s, keep, k + 1);
        assert(s.take(k + 1).drop_last() =~= s.take(k));
        let a = s.take(k).filter(keep);
        let b = s.take(k + 1).filter(keep);
        assert(b.take(a.len() as int) =~= a);
    } else {
        assert(s.take(k) =~= s);
    }
}

/// The name a player starts with: the login name without control
/// characters, at most 16 characters.
pub open spec fn spec_default_player_name(login: Seq<char>) -> Seq<char> {
    spec_prefix(login.filter(|c: char| !spec_is_control(c)), 16)
}

/// The starting player name from the login name (`USER` or `USERNAME`, else `player`).
pub fn default_player_name(login: &str) -> (r: String)
    ensures
        r@ == spec_default_player_name(login@),
{
    let v = chars_of(login);
    let ghost keep = |c: char| !spec_is_control(c);
    let mut out = String::new();
    let mut count: usize = 0;
    let mut i: usize = 0;
    while i < v.len() && count < 16
        invariant
            v@ == login@,
            i <= v@.len(),
            keep == (|c: char| !spec_is_control(c)),
            count <= 16,
            count == out@.len(),
            out@ == v@.take(i as int).filter(keep),
        decreases v@.len() - i,
    {
        let c = v[i];
        proof {
            reveal(Seq::filter);
            assert(v@.take(i + 1).drop_last() =~= v@.take(i as int));
            assert(v@.take(i + 1).last() == c);
        }
        if !is_control(c) {
            push_char(&mut out, c);
            count += 1;
        }
        i += 1;
    }
    proof {
        reveal(Seq::filter);
        let full = v@.filter(keep);
        if count < 16 {
            assert(v@.take(i as int) =~= v@);
            assert(spec_prefix(full, 16) == full);
        } else {
            lemma_filter_prefix_any(v@, keep, i as int);
            assert(full.take(16) =~= out@);
        }
    }
    out
}

/// Milliseconds left before a scheduled race start.
pub fn countdown_remaining_ms(starts_at_ms: Option<u64>, now: u64) -> (r: Option<u64>)
    ensures
        r == match starts_at_ms {
            Some(s) => Some(if s >= now { (s - now) as u64 } else { 0 }),
            None => None,
        },
{
    match starts_at_ms {
        Some(s) => Some(if s >= now { s - now } else { 0 }),
        None => None,
    }
}

/// The local clock moved by the measured offset to the relay's clock,
/// clamped to the range of `u64`.
pub fn multiplayer_now_ms(now: u64, offset_ms: i64) -> (r: u64)
    ensures
        r == if now + offset_ms < 0 {
            0
        } else if now + offset_ms > u64::MAX {
            u64::MAX
        } else {
            (now + offset_ms) as u64
        },
{
    if offset_ms >= 0 {
        let up = offset_ms as u64;
        if now > u64::MAX - up {
            u64::MAX
        } else {
            now + up
        }
    } else {
        let down = if offset_ms == i64::MIN {
            0x8000_0000_0000_0000u64
        } else {
            (-offset_ms) as u64
        };
        if now < down {
            0
        } else {
            now - down
        }
    }
}

/// Offset of the relay's clock from ours, from a ping sent at `nonce`, its
/// answer read at `now`, and the relay time in the answer: the relay time
/// less the midpoint of the round trip.
pub fn clock_offset_ms(nonce: u64, now: u64, server_time_ms: u64) -> (r: i64)
    requires
        nonce <= i64::MAX,
        now <= i64::MAX,
        server_time_ms <= i64::MAX,
    ensures
        r == server_time_ms - (nonce + (if now >= nonce { (now - nonce) / 2 } else { 0 })),
{
    let half = if now >= nonce { (now - nonce) / 2 } else { 0 };
    let midpoint = nonce + half;
    server_time_ms as i64 - midpoint as i64
}

/// What a room update does to the screens: the next screen, whether to
/// build the race session from the room, and the race start the session
/// begins at (its elapsed time counted from there, if not yet started).
#[derive(Debug, Clone, Copy, PartialEq, Eq, Structural)]
pub struct RoomUpdate {
    pub state: AppState,
    pub create_session: bool,
    pub start_at: Option<u64>,
}

pub open spec fn spec_room_update(
    state: AppState,
    in_room: bool,
    has_session: bool,
    has_result: bool,
    phase: RoomPhase,
    now: u64,
) -> RoomUpdate {
    if (state == AppState::Results || state == AppState::Analysis) && in_room {
        RoomUpdate { state, create_session: false, start_at: None }
    } else {
        match phase {
            RoomPhase::Lobby => RoomUpdate { state: AppState::Lobby, create_session: false, start_at: None },
            RoomPhase::Countdown { starts_at_ms } | RoomPhase::Racing { starts_at_ms } => {
                if now >= starts_at_ms {
                    RoomUpdate { state: AppState::Typing, create_session: !has_session, start_at: Some(starts_at_ms) }
                } else {
                    RoomUpdate { state: AppState::Countdown, create_session: !has_session, start_at: None }
                }
            },
            RoomPhase::Finished { starts_at_ms } => {
                if has_result {
                    RoomUpdate { state: AppState::Results, create_session: false, start_at: None }
                } else if !has_session {
                    RoomUpdate { state: AppState::Typing, create_session: true, start_at: Some(starts_at_ms) }
                } else {
                    RoomUpdate { state, create_session: false, start_at: None }
                }
            },
        }
    }
}

/// How the screens follow a room state received from the relay at time
/// `now` (on the relay's clock).
pub fn room_update(state: AppState, in_room: bool, has_session: bool, has_result: bool, phase: RoomPhase, now: u64) -> (r: RoomUpdate)
    ensures
        r == spec_room_update(state, in_room, has_session, has_result, phase, now),
{
    if (state == AppState::Results || state == AppState::Analysis) && in_room {
        return RoomUpdate { state, create_session: false, start_at: None };
    }
    match phase {
        RoomPhase::Lobby => RoomUpdate { state: AppState::Lobby, create_session: false, start_at: None },
        RoomPhase::Countdown { starts_at_ms } | RoomPhase::Racing { starts_at_ms } => {
            if now >= starts_at_ms {
                RoomUpdate { state: AppState::Typing, create_session: !has_session, start_at: Some(starts_at_ms) }
            } else {
                RoomUpdate { state: AppState::Countdown, create_session: !has_session, start_at: None }
            }
        },
        RoomPhase::Finished { starts_at_ms } => {
            if has_result {
                RoomUpdate { state: AppState::Results, create_session: false, start_at: None }
            } else if !has_session {
                RoomUpdate { state: AppState::Typing, create_session: true, start_at: Some(starts_at_ms) }
            } else {
                RoomUpdate { state, create_session: false, start_at: None }
            }
        },
    }
}


pub open spec fn spec_bool_text(b: bool) -> Seq<char> {
    if b {
        "true"@
    } else {
        "false"@
    }
}

/// The key under which results of comparable sessions are kept.
pub open spec fn spec_test_id(source: ContentSource, mode: SessionMode, mistake_mode: MistakeMode, settings: Settings) -> Seq<char> {
    match source {
        ContentSource::Words { language, size } => "words:"@ + spec_language_slug(language) + ":"@ + spec_size_label(size) + ":"@
            + spec_length_label(settings.word_length) + ":"@ + spec_mode_label(mode) + ":"@ + spec_mistake_label(mistake_mode) + ":"@
            + spec_bool_text(settings.lowercase_words),
        ContentSource::Code(snippet) => "code:"@ + spec_code_slug(snippet.language) + ":"@ + spec_mistake_label(mistake_mode)
            + if settings.code_autopairs {
            ":autopairs"@
        } else {
            ""@
        },
    }
}

/// How a finished session is listed in the results and the history.
#[derive(Debug)]
pub struct ResultLabels {
    pub content: String,
    pub language: String,
    pub test_id: String,
    pub source: Option<String>,
    pub snippet_id: Option<String>,
    pub repository: Option<String>,
}

pub open spec fn labels_match(r: ResultLabels, source: ContentSource, mode: SessionMode, mistake_mode: MistakeMode, settings: Settings) -> bool {
    &&& r.test_id@ == spec_test_id(source, mode, mistake_mode, settings)
    &&& match source {
        ContentSource::Words { language, size } => {
            &&& r.content@ == spec_mode_label(mode)
            &&& r.language@ == spec_language_label(language) + " "@ + spec_size_label(size)
            &&& r.source is None
            &&& r.snippet_id is None
            &&& r.repository is None
        },
        ContentSource::Code(snippet) => {
            &&& r.content@ == snippet.kind@
            &&& r.language@ == spec_code_label(snippet.language)
            &&& r.source matches Some(t) && t@ == snippet.repository@ + " · "@ + snippet.path@ + " · "@ + snippet.license@ + "\n"@ + snippet.url@
            &&& r.snippet_id matches Some(id) && id@ == snippet.id@
            &&& r.repository matches Some(repo) && repo@ == snippet.repository@
        },
    }
}

/// Labels of a finished session: what was typed, in which language, its
/// comparison key and, for code, where the snippet came from.
pub fn result_labels(source: &ContentSource, mode: SessionMode, mistake_mode: MistakeMode, settings: &Settings) -> (r: ResultLabels)
    ensures
        labels_match(r, *source, mode, mistake_mode, *settings),
{
    match source {
        ContentSource::Words { language, size } => {
            let mut test_id = String::new();
            test_id.append("words:");
            test_id.append(language.slug());
            test_id.append(":");
            test_id.append(size.label());
            test_id.append(":");
            test_id.append(settings.word_length.label());
            test_id.append(":");
            let mode_label = mode.label();
            test_id.append(mode_label.as_str());
            test_id.append(":");
            test_id.append(mistake_mode.label());
            test_id.append(":");
            test_id.append(if settings.lowercase_words { "true" } else { "false" });
            let mut lang = String::new();
            lang.append(language.label());
            lang.append(" ");
            lang.append(size.label());
            ResultLabels { content: mode.label(), language: lang, test_id, source: None, snippet_id: None, repository: None }
        },
        ContentSource::Code(snippet) => {
            let mut test_id = String::new();
            test_id.append("code:");
            test_id.append(snippet.language.slug());
            test_id.append(":");
            test_id.append(mistake_mode.label());
            test_id.append(if settings.code_autopairs { ":autopairs" } else { "" });
            let mut origin = String::new();
            origin.append(snippet.repository.as_str());
            origin.append(" · ");
            origin.append(snippet.path.as_str());
            origin.append(" · ");
            origin.append(snippet.license.as_str());
            origin.append("\n");
            origin.append(snippet.url.as_str());
            let mut lang = String::new();
            lang.append(snippet.language.label());
            ResultLabels {
                content: snippet.kind.clone(),
                language: lang,
                test_id,
                source: Some(origin),
                snippet_id: Some(snippet.id.clone()),
                repository: Some(snippet.repository.clone()),
            }
        },
    }
}

fn copy_all<T: Copy>(v: &Vec<T>) -> (r: Vec<T>)
    ensures
        r@ == v@,
{
    let mut r: Vec<T> = Vec::new();
    let mut i: usize = 0;
    while i < v.len()
        invariant
            i <= v@.len(),
            r@ == v@.take(i as int),
        decreases v@.len() - i,
    {
        r.push(v[i]);
        assert(v@.take(i + 1) =~= v@.take(i as int).push(v@[i as int]));
        i += 1;
    }
    assert(v@.take(i as int) =~= v@);
    r
}

/// What the analysis screen keeps of a finished session.
pub fn session_analysis(session: &Session) -> (r: SessionAnalysis)
    ensures
        r.text == session.content.text,
        r.keystrokes@ == session.keystrokes@,
        r.progress@ == session.progress@,
        r.correct_positions@ == session.results@.map_values(|c: CharResult| c == CharResult::Correct),
        r.final_cursor == session.cursor,
{
    let mut correct: Vec<bool> = Vec::new();
    let mut i: usize = 0;
    while i < session.results.len()
        invariant
            i <= session.results@.len(),
            correct@ == session.results@.take(i as int).map_values(|c: CharResult| c == CharResult::Correct),
        decreases session.results@.len() - i,
    {
        correct.push(session.results[i] == CharResult::Correct);
        assert(session.results@.take(i + 1).map_values(|c: CharResult| c == CharResult::Correct)
            =~= session.results@.take(i as int).map_values(|c: CharResult| c == CharResult::Correct).push(session.results@[i as int] == CharResult::Correct));
        i += 1;
    }
    assert(session.results@.take(i as int) =~= session.results@);
    SessionAnalysis {
        text: session.content.text.clone(),
        keystrokes: copy_all(&session.keystrokes),
        progress: copy_all(&session.progress),
        correct_positions: correct,
        final_cursor: session.cursor,
    }
}

/// What to load for a new session: the chosen word list, or snippets of
/// the chosen language (fetched anew when `refresh`).
pub fn load_request(settings: &Settings, refresh: bool) -> (r: LoadRequest)
    ensures
        r == match settings.practice {
            PracticeKind::Words => LoadRequest::Words(settings.word_language, settings.word_list),
            PracticeKind::Code => if refresh {
                LoadRequest::Refresh(settings.code_language)
            } else {
                LoadRequest::Code(settings.code_language)
            },
        },
{
    match settings.practice {
        PracticeKind::Words => LoadRequest::Words(settings.word_language, settings.word_list),
        PracticeKind::Code => if refresh {
            LoadRequest::Refresh(settings.code_language)
        } else {
            LoadRequest::Code(settings.code_language)
        },
    }
}

/// Whether closers are typed automatically: only for code, when enabled.
pub fn session_autopairs(settings: &Settings, source: &ContentSource) -> (r: bool)
    ensures
        r == (settings.code_autopairs && source is Code),
{
    settings.code_autopairs && match source {
        ContentSource::Code(_) => true,
        _ => false,
    }
}

/// How a repeated session ends: like the chosen word mode, or at the end of the snippet.
pub fn retry_mode(settings: &Settings, source: &ContentSource) -> (r: SessionMode)
    ensures
        r == match source {
            ContentSource::Words { .. } => settings.word_mode,
            ContentSource::Code(_) => SessionMode::Snippet,
        },
{
    match source {
        ContentSource::Words { .. } => settings.word_mode,
        ContentSource::Code(_) => SessionMode::Snippet,
    }
}

/// The words joined with single spaces.
pub open spec fn spec_join_words(ws: Seq<Seq<char>>) -> Seq<char>
    decreases ws.len(),
{
    if ws.len() == 0 {
        seq![]
    } else if ws.len() == 1 {
        ws[0]
    } else {
        spec_join_words(ws.drop_last()) + seq![' '] + ws.last()
    }
}

/// The text of a word session: the picked words, lower-cased if asked,
/// joined with spaces.
pub open spec fn spec_words_text(words: Seq<String>, picks: Seq<usize>, lowercase: bool) -> Seq<char> {
    spec_join_words(
        Seq::new(
            picks.len(),
            |i: int|
                if lowercase {
                    spec_lowercase(words[picks[i] as int]@)
                } else {
                    words[picks[i] as int]@
                },
        ),
    )
}

/// The text of a word session from the given picks among the words.
pub fn words_text(words: &Vec<String>, picks: &Vec<usize>, lowercase_words: bool) -> (r: String)
    requires
        forall|i: int| 0 <= i < picks@.len() ==> (#[trigger] picks@[i]) < words@.len(),
    ensures
        r@ == spec_words_text(words@, picks@, lowercase_words),
{
    let ghost chosen = Seq::new(
        picks@.len(),
        |i: int|
            if lowercase_words {
                spec_lowercase(words@[picks@[i] as int]@)
            } else {
                words@[picks@[i] as int]@
            },
    );
    let mut r = String::new();
    let mut i: usize = 0;
    while i < picks.len()
        invariant
            i <= picks@.len(),
            forall|q: int| 0 <= q < picks@.len() ==> (#[trigger] picks@[q]) < words@.len(),
            chosen == Seq::new(
                picks@.len(),
                |q: int|
                    if lowercase_words {
                        spec_lowercase(words@[picks@[q] as int]@)
                    } else {
                        words@[picks@[q] as int]@
                    },
            ),
            r@ == spec_join_words(chosen.take(i as int)),
        decreases picks@.len() - i,
    {
        let word = &words[picks[i]];
        let ghost before = r@;
        if i > 0 {
            r.append(" ");
        }
        if lowercase_words {
            let lower = lowercase(word.as_str());
            r.append(lower.as_str());
        } else {
            r.append(word.as_str());
        }
        proof {
            let t = chosen.take(i + 1);
            assert(t.drop_last() =~= chosen.take(i as int));
            assert(t.last() == chosen[i as int]);
            if i == 0 {
                assert(t.len() == 1);
                assert(before =~= seq![]);
                assert(r@ =~= t[0]);
            } else {
                reveal_strlit(" ");
                assert(r@ =~= before + seq![' '] + chosen[i as int]);
            }
        }
        i += 1;
    }
    assert(chosen.take(i as int) =~= chosen);
    r
}

/// The words whose length the filter accepts, in order.
pub fn accepted_words(words: &Vec<String>, length: WordLength) -> (r: Vec<String>)
    ensures
        r@ == words@.filter(|w: String| spec_length_accepts(length, w@.len())),
{
    let ghost keep = |w: String| spec_length_accepts(length, w@.len());
    let mut r: Vec<String> = Vec::new();
    let mut i: usize = 0;
    while i < words.len()
        invariant
            i <= words@.len(),
            keep == (|w: String| spec_length_accepts(length, w@.len())),
            r@ == words@.take(i as int).filter(keep),
        decreases words@.len() - i,
    {
        proof {
            reveal(Seq::filter);
            assert(words@.take(i + 1).drop_last() =~= words@.take(i as int));
            assert(words@.take(i + 1).last() == words@[i as int]);
        }
        if length.accepts(words[i].as_str()) {
            r.push(words[i].clone());
        }
        i += 1;
    }
    assert(words@.take(i as int) =~= words@);
    r
}

/// The text of a word session: `count` words drawn at random (with
/// repetition) from those the length filter accepts; `None` when it accepts none.
pub fn pick_words(words: &Vec<String>, length: WordLength, count: usize, lowercase_words: bool) -> (r: Option<String>)
    ensures
        ({
            let accepted = words@.filter(|w: String| spec_length_accepts(length, w@.len()));
            match r {
                None => accepted.len() == 0,
                Some(text) => accepted.len() > 0 && exists|picks: Seq<usize>|
                    picks.len() == count && (forall|i: int| 0 <= i < count ==> (#[trigger] picks[i]) < accepted.len())
                        && text@ == spec_words_text(accepted, picks, lowercase_words),
            }
        }),
{
    let accepted = accepted_words(words, length);
    if accepted.len() == 0 {
        return None;
    }
    let mut picks: Vec<usize> = Vec::new();
    let mut i: usize = 0;
    while i < count
        invariant
            i <= count,
            accepted@.len() > 0,
            picks@.len() == i,
            forall|q: int| 0 <= q < i ==> (#[trigger] picks@[q]) < accepted@.len(),
        decreases count - i,
    {
        picks.push(crate::relay::random_below(accepted.len()));
        i += 1;
    }
    let text = words_text(&accepted, &picks, lowercase_words);
    assert(picks@.len() == count && (forall|q: int| 0 <= q < count ==> (#[trigger] picks@[q]) < accepted@.len())
        && text@ == spec_words_text(accepted@, picks@, lowercase_words));
    Some(text)
}


pub open spec fn lists(list: Seq<String>, t: Seq<char>) -> bool {
    exists|j: int| 0 <= j < list.len() && (#[trigger] list[j])@ == t
}

/// Snippets of the first kind: not typed yet, from none of the recent repositories.
pub open spec fn fresh_snippet(s: Snippet, seen: Seq<String>, recent: Seq<String>) -> bool {
    !lists(seen, s.id@) && !lists(recent, s.repository@)
}

/// Snippets of the second kind: not typed yet, not from the last repository.
pub open spec fn unseen_snippet(s: Snippet, seen: Seq<String>, last: Option<String>) -> bool {
    !lists(seen, s.id@) && match last {
        Some(l) => l@ != s.repository@,
        None => true,
    }
}

/// Which snippets a code session draws from: the fresh ones, else the
/// unseen ones, else all of them (and then they count as unseen again).
pub open spec fn in_pool(snippets: Seq<Snippet>, seen: Seq<String>, recent: Seq<String>, last: Option<String>, i: int) -> bool {
    if exists|j: int| 0 <= j < snippets.len() && fresh_snippet(#[trigger] snippets[j], seen, recent) {
        fresh_snippet(snippets[i], seen, recent)
    } else if exists|j: int| 0 <= j < snippets.len() && unseen_snippet(#[trigger] snippets[j], seen, last) {
        unseen_snippet(snippets[i], seen, last)
    } else {
        true
    }
}

fn lists_exec(list: &Vec<String>, t: &String) -> (r: bool)
    ensures
        r == lists(list@, t@),
{
    let mut j: usize = 0;
    while j < list.len()
        invariant
            j <= list@.len(),
            forall|q: int| 0 <= q < j ==> (#[trigger] list@[q])@ != t@,
        decreases list@.len() - j,
    {
        if list[j] == *t {
            return true;
        }
        j += 1;
    }
    false
}

/// Positions of the snippets a code session draws from, and whether the
/// typed ones were all used up (so that they count as unseen again).
pub fn snippet_pool(snippets: &Vec<Snippet>, seen: &Vec<String>, recent: &Vec<String>, last: &Option<String>) -> (r: (Vec<usize>, bool))
    ensures
        forall|q: int| 0 <= q < r.0@.len() ==> (#[trigger] r.0@[q]) < snippets@.len(),
        forall|i: int| 0 <= i < snippets@.len() ==> (r.0@.contains(i as usize) <==> in_pool(snippets@, seen@, recent@, *last, i)),
        r.1 == (!(exists|j: int| 0 <= j < snippets@.len() && fresh_snippet(#[trigger] snippets@[j], seen@, recent@))
            && !(exists|j: int| 0 <= j < snippets@.len() && unseen_snippet(#[trigger] snippets@[j], seen@, *last))),
{
    let mut fresh: Vec<usize> = Vec::new();
    let mut unseen: Vec<usize> = Vec::new();
    let mut all: Vec<usize> = Vec::new();
    let mut i: usize = 0;
    while i < snippets.len()
        invariant
            i <= snippets@.len(),
            forall|q: int| 0 <= q < fresh@.len() ==> (#[trigger] fresh@[q]) < i,
            forall|q: int| 0 <= q < unseen@.len() ==> (#[trigger] unseen@[q]) < i,
            forall|q: int| 0 <= q < all@.len() ==> (#[trigger] all@[q]) < i,
            forall|k: int| 0 <= k < i ==> (fresh@.contains(k as usize) <==> fresh_snippet(#[trigger] snippets@[k], seen@, recent@)),
            forall|k: int| 0 <= k < i ==> (unseen@.contains(k as usize) <==> unseen_snippet(#[trigger] snippets@[k], seen@, *last)),
            all@.len() == i,
            forall|q: int| 0 <= q < i ==> (#[trigger] all@[q]) == q as usize,
        decreases snippets@.len() - i,
    {
        let s = &snippets[i];
        let is_seen = lists_exec(seen, &s.id);
        let is_recent = lists_exec(recent, &s.repository);
        let is_last = match last {
            Some(l) => *l == s.repository,
            None => false,
        };
        let ghost f0 = fresh@;
        let ghost u0 = unseen@;
        let ghost a0 = all@;
        if !is_seen && !is_recent {
            fresh.push(i);
        }
        if !is_seen && !is_last {
            unseen.push(i);
        }
        all.push(i);
        proof {
            assert forall|k: int| 0 <= k <= i implies (fresh@.contains(k as usize) <==> fresh_snippet(#[trigger] snippets@[k], seen@, recent@)) by {
                if k < i {
                    if fresh@.contains(k as usize) {
                        let q = choose|q: int| 0 <= q < fresh@.len() && fresh@[q] == k as usize;
                        if q < f0.len() {
                            assert(f0[q] == k as usize);
                        }
                    }
                    if f0.contains(k as usize) {
                        let q = choose|q: int| 0 <= q < f0.len() && f0[q] == k as usize;
                        assert(fresh@[q] == k as usize);
                    }
                } else {
                    if fresh@.contains(k as usize) {
                        let q = choose|q: int| 0 <= q < fresh@.len() && fresh@[q] == k as usize;
                        if q < f0.len() {
                            assert(f0[q] < i);
                        }
                    }
                    if fresh_snippet(snippets@[k], seen@, recent@) {
                        assert(fresh@[fresh@.len() - 1] == i);
                    }
                }
            }
            assert forall|k: int| 0 <= k <= i implies (unseen@.contains(k as usize) <==> unseen_snippet(#[trigger] snippets@[k], seen@, *last)) by {
                if k < i {
                    if unseen@.contains(k as usize) {
                        let q = choose|q: int| 0 <= q < unseen@.len() && unseen@[q] == k as usize;
                        if q < u0.len() {
                            assert(u0[q] == k as usize);
                        }
                    }
                    if u0.contains(k as usize) {
                        let q = choose|q: int| 0 <= q < u0.len() && u0[q] == k as usize;
                        assert(unseen@[q] == k as usize);
                    }
                } else {
                    if unseen@.contains(k as usize) {
                        let q = choose|q: int| 0 <= q < unseen@.len() && unseen@[q] == k as usize;
                        if q < u0.len() {
                            assert(u0[q] < i);
                        }
                    }
                    if unseen_snippet(snippets@[k], seen@, *last) {
                        assert(unseen@[unseen@.len() - 1] == i);
                    }
                }
            }
        }
        i += 1;
    }
    if fresh.len() > 0 {
        proof {
            let k = fresh@[0] as int;
            assert(fresh@.contains(k as usize));
            assert(0 <= k < snippets@.len());
            assert(fresh_snippet(snippets@[k], seen@, recent@));
            assert(exists|j: int| 0 <= j < snippets@.len() && fresh_snippet(#[trigger] snippets@[j], seen@, recent@));
        }
        (fresh, false)
    } else if unseen.len() > 0 {
        proof {
            assert forall|j: int| 0 <= j < snippets@.len() implies !fresh_snippet(#[trigger] snippets@[j], seen@, recent@) by {
                if fresh_snippet(snippets@[j], seen@, recent@) {
                    assert(fresh@.contains(j as usize));
                }
            }
            let k = unseen@[0] as int;
            assert(unseen@.contains(k as usize));
            assert(0 <= k < snippets@.len());
            assert(unseen_snippet(snippets@[k], seen@, *last));
            assert(exists|j: int| 0 <= j < snippets@.len() && unseen_snippet(#[trigger] snippets@[j], seen@, *last));
        }
        (unseen, false)
    } else {
        proof {
            assert forall|j: int| 0 <= j < snippets@.len() implies !fresh_snippet(#[trigger] snippets@[j], seen@, recent@) by {
                if fresh_snippet(snippets@[j], seen@, recent@) {
                    assert(fresh@.contains(j as usize));
                }
            }
            assert forall|j: int| 0 <= j < snippets@.len() implies !unseen_snippet(#[trigger] snippets@[j], seen@, *last) by {
                if unseen_snippet(snippets@[j], seen@, *last) {
                    assert(unseen@.contains(j as usize));
                }
            }
            assert forall|j: int| 0 <= j < snippets@.len() implies #[trigger] in_pool(snippets@, seen@, recent@, *last, j) && all@.contains(j as usize) by {
                assert(all@[j] == j as usize);
            }
        }
        (all, true)
    }
}

/// A snippet of the pool: first a repository drawn uniformly from those in
/// the pool, then a snippet of it drawn uniformly; `None` for an empty pool.
pub fn choose_snippet(snippets: &Vec<Snippet>, pool: &Vec<usize>) -> (r: Option<usize>)
    requires
        forall|q: int| 0 <= q < pool@.len() ==> (#[trigger] pool@[q]) < snippets@.len(),
    ensures
        r is None <==> pool@.len() == 0,
        r matches Some(k) ==> pool@.contains(k),
{
    if pool.len() == 0 {
        return None;
    }
    let mut repositories: Vec<String> = Vec::new();
    let mut i: usize = 0;
    while i < pool.len()
        invariant
            i <= pool@.len(),
            pool@.len() > 0,
            forall|q: int| 0 <= q < pool@.len() ==> (#[trigger] pool@[q]) < snippets@.len(),
            i > 0 ==> repositories@.len() > 0,
            forall|q: int| 0 <= q < repositories@.len() ==> exists|p: int| 0 <= p < pool@.len() && (#[trigger] repositories@[q])@ == snippets@[pool@[p] as int].repository@,
        decreases pool@.len() - i,
    {
        let repository = &snippets[pool[i]].repository;
        if !lists_exec(&repositories, repository) {
            repositories.push(repository.clone());
            proof {
                assert(repositories@[repositories@.len() - 1]@ == snippets@[pool@[i as int] as int].repository@);
            }
        }
        i += 1;
    }
    let chosen = crate::relay::random_below(repositories.len());
    let repository = &repositories[chosen];
    let mut matching: Vec<usize> = Vec::new();
    let mut j: usize = 0;
    while j < pool.len()
        invariant
            j <= pool@.len(),
            forall|q: int| 0 <= q < pool@.len() ==> (#[trigger] pool@[q]) < snippets@.len(),
            forall|q: int| 0 <= q < matching@.len() ==> pool@.contains(#[trigger] matching@[q]),
            (exists|p: int| 0 <= p < j && snippets@[pool@[p] as int].repository@ == repository@) ==> matching@.len() > 0,
        decreases pool@.len() - j,
    {
        if snippets[pool[j]].repository == *repository {
            matching.push(pool[j]);
            assert(pool@.contains(matching@[matching@.len() - 1]));
        }
        j += 1;
    }
    let k = matching[crate::relay::random_below(matching.len())];
    Some(k)
}

/// Keeps the last repository and the five most recent distinct ones, latest last.
pub fn remember_repository(last: &mut Option<String>, recent: &mut Vec<String>, repository: &str)
    ensures
        *final(last) matches Some(l) && l@ == repository@,
        final(recent)@.len() <= 5,
        final(recent)@.len() > 0 && final(recent)@.last()@ == repository@,
        ({
            let kept = old(recent)@.filter(|r: String| r@ != repository@);
            let all = kept.push(final(recent)@.last());
            &&& final(recent)@.len() == if all.len() > 5 { 5 } else { all.len() }
            &&& forall|q: int| 0 <= q < final(recent)@.len() ==> (#[trigger] final(recent)@[q]) == all[all.len() - final(recent)@.len() + q]
        }),
{
    *last = Some(repository.to_owned());
    let ghost keep = |r: String| r@ != repository@;
    let mut kept: Vec<String> = Vec::new();
    let mut i: usize = 0;
    while i < recent.len()
        invariant
            i <= recent@.len(),
            keep == (|r: String| r@ != repository@),
            kept@ == recent@.take(i as int).filter(keep),
        decreases recent@.len() - i,
    {
        proof {
            reveal(Seq::filter);
            assert(recent@.take(i + 1).drop_last() =~= recent@.take(i as int));
            assert(recent@.take(i + 1).last() == recent@[i as int]);
        }
        if !text_is(&recent[i], repository) {
            kept.push(recent[i].clone());
        }
        i += 1;
    }
    assert(recent@.take(i as int) =~= recent@);
    kept.push(repository.to_owned());
    let ghost all = kept@;
    let n = kept.len();
    if n > 5 {
        let tail = kept.split_off(n - 5);
        *recent = tail;
    } else {
        *recent = kept;
    }
}

fn text_is(s: &String, t: &str) -> (r: bool)
    ensures
        r == (s@ == t@),
{
    crate::text::text_eq(s.as_str(), t)
}


/// Cycling forward and then back (or back and then forward) through a list
/// of distinct values returns to the value one started from.
pub proof fn law_cycle_round_trip<T>(values: Seq<T>, current: T)
    requires
        values.len() > 0,
        values.contains(current),
        forall|i: int, j: int| 0 <= i < values.len() && 0 <= j < values.len() && i != j ==> values[i] != values[j],
    ensures
        spec_cycle(values, spec_cycle(values, current, true), false) == current,
        spec_cycle(values, spec_cycle(values, current, false), true) == current,
{
    let n = values.len() as int;
    let k = choose|k: int| 0 <= k < n && values[k] == current;
    assert forall|q: int| 0 <= q < n implies first_index(values, equals(values[q])) == q by {
        assert forall|j: int| 0 <= j < q implies !equals(values[q])(#[trigger] values[j]) by {}
        crate::relay::lemma_first_index(values, equals(values[q]), q);
    }
    assert(first_index(values, equals(current)) == k);
    let next = (k + 1) % n;
    if k + 1 < n {
        assert((k + 1) % n == k + 1) by (nonlinear_arith)
            requires
                0 <= k + 1 < n,
        ;
    } else {
        assert((k + 1) % n == 0) by (nonlinear_arith)
            requires
                k + 1 == n,
                n > 0,
        ;
    }
    assert(first_index(values, equals(values[next])) == next);
    assert(spec_cycle(values, current, true) == values[next]);
    let prev = if k == 0 { n - 1 } else { k - 1 };
    assert(first_index(values, equals(values[prev])) == prev);
    assert(spec_cycle(values, current, false) == values[prev]);
    if prev + 1 < n {
        assert((prev + 1) % n == prev + 1) by (nonlinear_arith)
            requires
                0 <= prev + 1 < n,
        ;
    } else {
        assert((prev + 1) % n == 0) by (nonlinear_arith)
            requires
                prev + 1 == n,
                n > 0,
        ;
    }
}


/// A key as the application distinguishes them.
#[derive(Debug, Clone, Copy, PartialEq, Eq, Structural)]
pub enum Key {
    Char(char),
    Enter,
    Esc,
    Backspace,
    Tab,
    Up,
    Down,
    Left,
    Right,
    F(u8),
    Other,
}

/// A key press with its modifiers.
#[derive(Debug, Clone, Copy, PartialEq, Eq, Structural)]
pub struct KeyPress {
    pub key: Key,
    pub control: bool,
    pub alt: bool,
    pub super_key: bool,
}

/// What a key press asks the application to do.
#[derive(Debug, Clone, Copy, PartialEq, Eq, Structural)]
pub enum Command {
    Nothing,
    Quit,
    MenuPrev,
    MenuNext,
    MenuChange(i8),
    MenuActivate,
    ShowStats,
    ShowMenu,
    OpenMultiplayer,
    RefreshSnippets,
    CancelLoading,
    RoomEntryPrev,
    RoomEntryNext,
    RoomEntryBackspace,
    RoomEntryActivate,
    RoomEntryType(char),
    LeaveRoom,
    ToggleReady,
    StartRace,
    TypeChar(char),
    Backspace,
    DeleteWord,
    DeleteLine,
    Retry,
    ToggleTypedView,
    NextSession,
    NewSession,
    OpenAnalysis,
    AnalysisPrev,
    AnalysisNext,
    CloseAnalysis,
}

/// Control held without Alt.
pub open spec fn control_shortcut(k: KeyPress) -> bool {
    k.control && !k.alt
}

/// The command for a key press while typing.
pub open spec fn spec_typing_command(k: KeyPress, in_room: bool) -> Command {
    if k.super_key {
        Command::Nothing
    } else if control_shortcut(k) {
        match k.key {
            Key::Backspace | Key::Char('w') => Command::DeleteWord,
            Key::Char('h') => Command::Backspace,
            Key::Char('r') => if in_room { Command::Nothing } else { Command::Retry },
            Key::Char('u') => Command::DeleteLine,
            _ => Command::Nothing,
        }
    } else if k.alt && !k.control {
        if k.key == Key::Backspace { Command::DeleteWord } else { Command::Nothing }
    } else {
        match k.key {
            Key::Esc => if in_room { Command::LeaveRoom } else { Command::ShowMenu },
            Key::F(n) => if n == 2 {
                Command::ToggleTypedView
            } else if n == 3 && !in_room {
                Command::Retry
            } else {
                Command::Nothing
            },
            Key::Backspace => Command::Backspace,
            Key::Enter => Command::TypeChar('\n'),
            Key::Tab => if in_room { Command::Nothing } else { Command::NextSession },
            Key::Char(c) => Command::TypeChar(c),
            _ => Command::Nothing,
        }
    }
}

/// The command for a key press on the given screen, as the screens' key
/// hints list them. Ctrl-C quits anywhere; off the typing screen, keys
/// with Control, Alt or Super do nothing.
pub open spec fn spec_command(state: AppState, k: KeyPress, in_room: bool, practice: PracticeKind) -> Command {
    if k.key == Key::Char('c') && control_shortcut(k) {
        Command::Quit
    } else if state != AppState::Typing && (k.control || k.alt || k.super_key) {
        Command::Nothing
    } else {
        match state {
            AppState::Menu => match k.key {
                Key::Char('q') | Key::Esc => Command::Quit,
                Key::Up | Key::Char('k') => Command::MenuPrev,
                Key::Down | Key::Char('j') => Command::MenuNext,
                Key::Left | Key::Char('h') => Command::MenuChange(-1i8),
                Key::Right | Key::Char('l') => Command::MenuChange(1i8),
                Key::Enter => Command::MenuActivate,
                Key::Char('s') => Command::ShowStats,
                Key::Char('m') => Command::OpenMultiplayer,
                Key::Char('r') => if practice == PracticeKind::Code { Command::RefreshSnippets } else { Command::Nothing },
                _ => Command::Nothing,
            },
            AppState::Loading => if k.key == Key::Esc { Command::CancelLoading } else { Command::Nothing },
            AppState::RoomEntry => match k.key {
                Key::Esc => Command::ShowMenu,
                Key::Up => Command::RoomEntryPrev,
                Key::Down | Key::Tab => Command::RoomEntryNext,
                Key::Backspace => Command::RoomEntryBackspace,
                Key::Enter => Command::RoomEntryActivate,
                Key::Char(c) => Command::RoomEntryType(c),
                _ => Command::Nothing,
            },
            AppState::Lobby => match k.key {
                Key::Esc => Command::LeaveRoom,
                Key::Char('r') => Command::ToggleReady,
                Key::Enter => Command::StartRace,
                _ => Command::Nothing,
            },
            AppState::Countdown => if k.key == Key::Esc { Command::LeaveRoom } else { Command::Nothing },
            AppState::Typing => spec_typing_command(k, in_room),
            AppState::Results => if in_room {
                if k.key == Key::Esc { Command::LeaveRoom } else { Command::Nothing }
            } else {
                match k.key {
                    Key::Esc => Command::ShowMenu,
                    Key::Tab => Command::NewSession,
                    Key::Enter => Command::Retry,
                    Key::Char('s') => Command::ShowStats,
                    Key::Char('a') => Command::OpenAnalysis,
                    _ => Command::Nothing,
                }
            },
            AppState::Analysis => match k.key {
                Key::Up => Command::AnalysisPrev,
                Key::Down => Command::AnalysisNext,
                Key::Esc => Command::CloseAnalysis,
                _ => Command::Nothing,
            },
            AppState::Stats => if k.key == Key::Esc { Command::ShowMenu } else { Command::Nothing },
        }
    }
}

fn typing_command(k: KeyPress, in_room: bool) -> (c: Command)
    ensures
        c == spec_typing_command(k, in_room),
{
    if k.super_key {
        Command::Nothing
    } else if k.control && !k.alt {
        match k.key {
            Key::Backspace | Key::Char('w') => Command::DeleteWord,
            Key::Char('h') => Command::Backspace,
            Key::Char('r') => if in_room { Command::Nothing } else { Command::Retry },
            Key::Char('u') => Command::DeleteLine,
            _ => Command::Nothing,
        }
    } else if k.alt && !k.control {
        if k.key == Key::Backspace { Command::DeleteWord } else { Command::Nothing }
    } else {
        match k.key {
            Key::Esc => if in_room { Command::LeaveRoom } else { Command::ShowMenu },
            Key::F(n) => if n == 2 {
                Command::ToggleTypedView
            } else if n == 3 && !in_room {
                Command::Retry
            } else {
                Command::Nothing
            },
            Key::Backspace => Command::Backspace,
            Key::Enter => Command::TypeChar('\n'),
            Key::Tab => if in_room { Command::Nothing } else { Command::NextSession },
            Key::Char(c) => Command::TypeChar(c),
            _ => Command::Nothing,
        }
    }
}

/// What a key press does on the given screen.
pub fn command_for(state: AppState, k: KeyPress, in_room: bool, practice: PracticeKind) -> (c: Command)
    ensures
        c == spec_command(state, k, in_room, practice),
{
    if k.key == Key::Char('c') && k.control && !k.alt {
        return Command::Quit;
    }
    if state != AppState::Typing && (k.control || k.alt || k.super_key) {
        return Command::Nothing;
    }
    match state {
        AppState::Menu => match k.key {
            Key::Char('q') | Key::Esc => Command::Quit,
            Key::Up | Key::Char('k') => Command::MenuPrev,
            Key::Down | Key::Char('j') => Command::MenuNext,
            Key::Left | Key::Char('h') => Command::MenuChange(-1i8),
            Key::Right | Key::Char('l') => Command::MenuChange(1i8),
            Key::Enter => Command::MenuActivate,
            Key::Char('s') => Command::ShowStats,
            Key::Char('m') => Command::OpenMultiplayer,
            Key::Char('r') => if practice == PracticeKind::Code { Command::RefreshSnippets } else { Command::Nothing },
            _ => Command::Nothing,
        },
        AppState::Loading => if k.key == Key::Esc { Command::CancelLoading } else { Command::Nothing },
        AppState::RoomEntry => match k.key {
            Key::Esc => Command::ShowMenu,
            Key::Up => Command::RoomEntryPrev,
            Key::Down | Key::Tab => Command::RoomEntryNext,
            Key::Backspace => Command::RoomEntryBackspace,
            Key::Enter => Command::RoomEntryActivate,
            Key::Char(c) => Command::RoomEntryType(c),
            _ => Command::Nothing,
        },
        AppState::Lobby => match k.key {
            Key::Esc => Command::LeaveRoom,
            Key::Char('r') => Command::ToggleReady,
            Key::Enter => Command::StartRace,
            _ => Command::Nothing,
        },
        AppState::Countdown => if k.key == Key::Esc { Command::LeaveRoom } else { Command::Nothing },
        AppState::Typing => typing_command(k, in_room),
        AppState::Results => if in_room {
            if k.key == Key::Esc { Command::LeaveRoom } else { Command::Nothing }
        } else {
            match k.key {
                Key::Esc => Command::ShowMenu,
                Key::Tab => Command::NewSession,
                Key::Enter => Command::Retry,
                Key::Char('s') => Command::ShowStats,
                Key::Char('a') => Command::OpenAnalysis,
                _ => Command::Nothing,
            }
        },
        AppState::Analysis => match k.key {
            Key::Up => Command::AnalysisPrev,
            Key::Down => Command::AnalysisNext,
            Key::Esc => Command::CloseAnalysis,
            _ => Command::Nothing,
        },
        AppState::Stats => if k.key == Key::Esc { Command::ShowMenu } else { Command::Nothing },
    }
}

} // verus!
