//! Where the typing screen puts things: the caret on a code line, word
//! wrapping, what was actually typed, and the words completed so far.
use vstd::prelude::*;

use crate::session::{CharResult, Session};
use crate::text::{is_whitespace, push_char, spec_is_whitespace};

verus! {

broadcast use vstd::string::group_string_axioms;

/// The smallest terminal the screens are laid out for, in columns and rows.
pub const MINIMUM_WIDTH: u16 = 64;
pub const MINIMUM_HEIGHT: u16 = 20;

/// Whether a terminal of `width` columns and `height` rows is large enough
/// to draw the screens.
pub fn terminal_size_supported(width: u16, height: u16) -> (r: bool)
    ensures
        r == (width >= MINIMUM_WIDTH && height >= MINIMUM_HEIGHT),
{
    width >= MINIMUM_WIDTH && height >= MINIMUM_HEIGHT
}

/// Row and column reached after the characters: a newline starts a new row.
pub open spec fn line_position(s: Seq<char>) -> (nat, nat)
    decreases s.len(),
{
    if s.len() == 0 {
        (0, 0)
    } else {
        let (row, column) = line_position(s.drop_last());
        if s.last() == '\n' {
            (row + 1, 0)
        } else {
            (row, column + 1)
        }
    }
}

/// Row and column of the caret in a code text.
pub fn line_cursor(chars: &Vec<char>, cursor: usize) -> (r: (usize, usize))
    ensures
        (r.0 as nat, r.1 as nat) == line_position(chars@.take(if cursor <= chars@.len() { cursor as int } else { chars@.len() as int })),
{
    let end = if cursor <= chars.len() { cursor } else { chars.len() };
    let mut row: usize = 0;
    let mut column: usize = 0;
    let mut i: usize = 0;
    while i < end
        invariant
            end <= chars@.len(),
            i <= end,
            row <= i,
            column <= i,
            (row as nat, column as nat) == line_position(chars@.take(i as int)),
        decreases end - i,
    {
        proof {
            assert(chars@.take(i + 1).drop_last() =~= chars@.take(i as int));
            assert(chars@.take(i + 1).last() == chars@[i as int]);
        }
        if chars[i] == '\n' {
            row += 1;
            column = 0;
        } else {
            column += 1;
        }
        i += 1;
    }
    (row, column)
}

/// What was typed before the caret: the expected character where it was
/// typed correctly or skipped, the wrong key (marked) where it was not.
pub open spec fn typed_prefix(results: Seq<CharResult>, chars: Seq<char>, n: int) -> Seq<(char, bool)>
    decreases n,
{
    if n <= 0 {
        seq![]
    } else {
        let before = typed_prefix(results, chars, n - 1);
        match results[n - 1] {
            CharResult::Correct | CharResult::Skipped => before.push((chars[n - 1], false)),
            CharResult::Incorrect(typed) => before.push((typed, true)),
            CharResult::Pending => before,
        }
    }
}

pub open spec fn typed_span(session: Session) -> int {
    let n = if session.results@.len() <= session.chars@.len() { session.results@.len() } else { session.chars@.len() };
    if session.cursor <= n { session.cursor as int } else { n as int }
}

/// The characters the user actually typed, each marked when it was a mistake.
pub fn typed_buffer(session: &Session) -> (r: Vec<(char, bool)>)
    ensures
        r@ == typed_prefix(session.results@, session.chars@, typed_span(*session)),
{
    let n = if session.results.len() <= session.chars.len() { session.results.len() } else { session.chars.len() };
    let end = if session.cursor <= n { session.cursor } else { n };
    let mut r: Vec<(char, bool)> = Vec::new();
    let mut i: usize = 0;
    while i < end
        invariant
            end <= session.results@.len(),
            end <= session.chars@.len(),
            i <= end,
            r@ == typed_prefix(session.results@, session.chars@, i as int),
        decreases end - i,
    {
        match session.results[i] {
            CharResult::Correct | CharResult::Skipped => r.push((session.chars[i], false)),
            CharResult::Incorrect(typed) => r.push((typed, true)),
            CharResult::Pending => {},
        }
        i += 1;
    }
    r
}

/// How a character of the expected text is shown.
#[derive(Debug, Clone, Copy, PartialEq, Eq, Structural)]
pub enum Shade {
    /// Typed, passed over, or a closer filled in automatically.
    Typed,
    /// Typed wrongly.
    Mistake,
    /// Still to type.
    Pending,
}

pub open spec fn spec_shade(session: Session, index: int) -> Shade {
    match session.results@[index] {
        CharResult::Correct | CharResult::Skipped => Shade::Typed,
        CharResult::Incorrect(_) => Shade::Mistake,
        CharResult::Pending => if session.model().auto_paired(index) {
            Shade::Typed
        } else {
            Shade::Pending
        },
    }
}

/// How the character at `index` of the expected text is shown.
pub fn shade_at(session: &Session, index: usize) -> (r: Shade)
    requires
        session.wf(),
        index < session.chars@.len(),
    ensures
        r == spec_shade(*session, index as int),
{
    match session.results[index] {
        CharResult::Correct | CharResult::Skipped => Shade::Typed,
        CharResult::Incorrect(_) => Shade::Mistake,
        CharResult::Pending => if session.is_auto_paired(index) {
            Shade::Typed
        } else {
            Shade::Pending
        },
    }
}

pub open spec fn count_spaces(s: Seq<char>) -> nat
    decreases s.len(),
{
    if s.len() == 0 {
        0
    } else {
        count_spaces(s.drop_last()) + if s.last() == ' ' { 1nat } else { 0nat }
    }
}

/// Words completed in a word-count session: the spaces before the caret,
/// and the last word once the text is complete.
pub fn completed_words(session: &Session) -> (r: u32)
    requires
        session.wf(),
        session.chars@.len() < u32::MAX,
    ensures
        r == count_spaces(session.chars@.take(session.cursor as int)) + if session.model().is_complete() && session.chars@.len() > 0 { 1nat } else { 0nat },
{
    proof {
        assert(session.cursor <= session.chars@.len());
    }
    let mut count: u32 = 0;
    let mut i: usize = 0;
    while i < session.cursor
        invariant
            session.cursor <= session.chars@.len() < u32::MAX,
            i <= session.cursor,
            count <= i,
            count == count_spaces(session.chars@.take(i as int)),
        decreases session.cursor - i,
    {
        proof {
            assert(session.chars@.take(i + 1).drop_last() =~= session.chars@.take(i as int));
            assert(session.chars@.take(i + 1).last() == session.chars@[i as int]);
        }
        if session.chars[i] == ' ' {
            count += 1;
        }
        i += 1;
    }
    if session.is_complete() && session.chars.len() > 0 {
        count + 1
    } else {
        count
    }
}

/// How a character is shown in the mistake line under the text.
pub open spec fn spec_visible_mistake(c: char) -> Seq<char> {
    if c == '\n' {
        "↵"@
    } else if c == '\t' {
        "⇥"@
    } else if c == ' ' {
        "·"@
    } else {
        seq![c]
    }
}

pub fn visible_mistake(c: char) -> (r: String)
    ensures
        r@ == spec_visible_mistake(c),
{
    if c == '\n' {
        "↵".to_owned()
    } else if c == '\t' {
        "⇥".to_owned()
    } else if c == ' ' {
        "·".to_owned()
    } else {
        let mut s = String::new();
        push_char(&mut s, c);
        s
    }
}

/// Length of the word starting at `i`: the non-whitespace characters up to
/// the next whitespace.
pub open spec fn word_length_at(chars: Seq<char>, i: int) -> nat
    decreases chars.len() - i,
{
    if i < 0 || i >= chars.len() || spec_is_whitespace(chars[i]) {
        0
    } else {
        1 + word_length_at(chars, i + 1)
    }
}

/// The state of word wrapping after some characters: the rows (holding
/// character positions), the current column, and where the caret was met.
pub struct WrapState {
    pub rows: Seq<Seq<usize>>,
    pub column: nat,
    pub caret: Option<(nat, nat)>,
}

/// Word wrapping of the first `n` characters into rows of `width` cells:
/// a word that fits a row but not the rest of the current one starts a new
/// row, whitespace is not shown at the start of a row, and a full row ends.
pub open spec fn wrap_prefix(chars: Seq<char>, cursor: nat, width: nat, n: int) -> WrapState
    decreases n,
{
    if n <= 0 {
        WrapState { rows: seq![seq![]], column: 0, caret: None }
    } else {
        let i = n - 1;
        let st = wrap_prefix(chars, cursor, width, i);
        let starts_word = i == 0 || spec_is_whitespace(chars[i - 1]);
        let word = word_length_at(chars, i);
        let st = if starts_word && st.column > 0 && word <= width && st.column + word > width {
            WrapState { rows: st.rows.push(seq![]), column: 0, ..st }
        } else {
            st
        };
        let st = if i == cursor {
            WrapState { caret: Some(((st.rows.len() - 1) as nat, st.column)), ..st }
        } else {
            st
        };
        if spec_is_whitespace(chars[i]) && st.column == 0 && i > 0 {
            st
        } else {
            let row = st.rows.len() - 1;
            let rows = st.rows.update(row, st.rows[row].push(i as usize));
            if st.column + 1 == width {
                WrapState { rows: rows.push(seq![]), column: 0, ..st }
            } else {
                WrapState { rows, column: st.column + 1, ..st }
            }
        }
    }
}

/// Rows of character positions for a word text, and the caret's row and column.
#[derive(Debug)]
pub struct WrapLayout {
    pub rows: Vec<Vec<usize>>,
    pub cursor_row: usize,
    pub cursor_column: usize,
}

pub open spec fn wrap_width(width: usize) -> nat {
    if width == 0 { 1 } else { width as nat }
}

pub open spec fn wrapped(chars: Seq<char>, cursor: usize, width: usize, r: WrapLayout) -> bool {
    let st = wrap_prefix(chars, cursor as nat, wrap_width(width), chars.len() as int);
    &&& r.rows@.map_values(|row: Vec<usize>| row@) == st.rows
    &&& (r.cursor_row as nat, r.cursor_column as nat) == match st.caret {
        Some(p) => p,
        None => ((st.rows.len() - 1) as nat, st.column),
    }
}

proof fn lemma_word_length_bound(chars: Seq<char>, i: int)
    requires
        0 <= i <= chars.len(),
    ensures
        word_length_at(chars, i) <= chars.len() - i,
    decreases chars.len() - i,
{
    if i < chars.len() && !spec_is_whitespace(chars[i]) {
        lemma_word_length_bound(chars, i + 1);
    }
}

fn word_length(chars: &Vec<char>, i: usize) -> (n: usize)
    requires
        i <= chars@.len(),
    ensures
        n == word_length_at(chars@, i as int),
{
    let mut j = i;
    while j < chars.len() && !is_whitespace(chars[j])
        invariant
            i <= j <= chars@.len(),
            word_length_at(chars@, i as int) == (j - i) + word_length_at(chars@, j as int),
        decreases chars@.len() - j,
    {
        j += 1;
    }
    j - i
}

pub open spec fn rows_view(rows: Seq<Vec<usize>>) -> Seq<Seq<usize>> {
    rows.map_values(|row: Vec<usize>| row@)
}

/// Wraps a word text into rows of at most `width` cells (at least one).
pub fn wrap_words(chars: &Vec<char>, cursor: usize, width: usize) -> (r: WrapLayout)
    ensures
        wrapped(chars@, cursor, width, r),
{
    let width = if width == 0 { 1 } else { width };
    let ghost w = width as nat;
    let mut rows: Vec<Vec<usize>> = Vec::new();
    rows.push(Vec::new());
    let mut column: usize = 0;
    let mut caret: Option<(usize, usize)> = None;
    let mut i: usize = 0;
    proof {
        assert(rows_view(rows@) =~= seq![seq![]]);
    }
    while i < chars.len()
        invariant
            i <= chars@.len(),
            w == width as nat,
            width >= 1,
            rows@.len() >= 1,
            rows@.len() <= 2 * i + 1,
            column <= i,
            ({
                let st = wrap_prefix(chars@, cursor as nat, w, i as int);
                &&& rows_view(rows@) == st.rows
                &&& column as nat == st.column
                &&& match caret {
                    Some((a, b)) => st.caret == Some((a as nat, b as nat)),
                    None => st.caret is None,
                }
            }),
        decreases chars@.len() - i,
    {
        let starts_word = i == 0 || is_whitespace(chars[i - 1]);
        if starts_word && column > 0 {
            let word = word_length(chars, i);
            proof {
                lemma_word_length_bound(chars@, i as int);
            }
            if word <= width && column + word > width {
                let ghost before = rows@;
                rows.push(Vec::new());
                column = 0;
                proof {
                    assert(rows_view(rows@) =~= rows_view(before).push(seq![]));
                }
            }
        }
        if i == cursor {
            caret = Some((rows.len() - 1, column));
        }
        if is_whitespace(chars[i]) && column == 0 && i > 0 {
        } else {
            let last = rows.len() - 1;
            let ghost before = rows@;
            rows[last].push(i);
            proof {
                assert(rows_view(rows@) =~= rows_view(before).update(last as int, rows_view(before)[last as int].push(i)));
            }
            column += 1;
            if column == width {
                let ghost before2 = rows@;
                rows.push(Vec::new());
                column = 0;
                proof {
                    assert(rows_view(rows@) =~= rows_view(before2).push(seq![]));
                }
            }
        }
        i += 1;
    }
    let (cursor_row, cursor_column) = match caret {
        Some(p) => p,
        None => (rows.len() - 1, column),
    };
    WrapLayout { rows, cursor_row, cursor_column }
}


proof fn lemma_wrap_shape(chars: Seq<char>, cursor: nat, width: nat, n: int)
    requires
        width >= 1,
        0 <= n <= chars.len(),
    ensures
        ({
            let st = wrap_prefix(chars, cursor, width, n);
            &&& st.rows.len() >= 1
            &&& st.rows.last().len() == st.column
            &&& st.column < width
            &&& forall|r: int| 0 <= r < st.rows.len() ==> (#[trigger] st.rows[r]).len() <= width
        }),
    decreases n,
{
    if n > 0 {
        lemma_wrap_shape(chars, cursor, width, n - 1);
    }
}

/// Word wrapping never puts more than `width` characters on a row.
pub proof fn law_wrapped_rows_fit(chars: Seq<char>, cursor: nat, width: nat)
    requires
        width >= 1,
    ensures
        forall|r: int|
            0 <= r < wrap_prefix(chars, cursor, width, chars.len() as int).rows.len()
                ==> (#[trigger] wrap_prefix(chars, cursor, width, chars.len() as int).rows[r]).len() <= width,
{
    lemma_wrap_shape(chars, cursor, width, chars.len() as int);
}

/// Each row of `a` is a prefix of the same row of `b`.
pub open spec fn rows_extend(a: Seq<Seq<usize>>, b: Seq<Seq<usize>>) -> bool {
    &&& a.len() <= b.len()
    &&& forall|r: int| 0 <= r < a.len() ==> (#[trigger] a[r]).len() <= b[r].len()
    &&& forall|r: int, c: int| 0 <= r < a.len() && 0 <= c < a[r].len() ==> #[trigger] b[r][c] == a[r][c]
}

/// Later characters only add to the rows: each row of an earlier state is
/// a prefix of the same row later.
proof fn lemma_wrap_rows_grow(chars: Seq<char>, cursor: nat, width: nat, n: int, m: int)
    requires
        width >= 1,
        0 <= n <= m <= chars.len(),
    ensures
        rows_extend(wrap_prefix(chars, cursor, width, n).rows, wrap_prefix(chars, cursor, width, m).rows),
    decreases m - n,
{
    let a = wrap_prefix(chars, cursor, width, n).rows;
    let b = wrap_prefix(chars, cursor, width, m).rows;
    if n < m {
        lemma_wrap_rows_grow(chars, cursor, width, n, m - 1);
        lemma_wrap_step(chars, cursor, width, m - 1);
        let p = wrap_prefix(chars, cursor, width, m - 1).rows;
        assert forall|r: int| 0 <= r < a.len() implies (#[trigger] a[r]).len() <= b[r].len() by {
            assert(a[r].len() <= p[r].len());
            assert(p[r].len() <= b[r].len());
        }
        assert forall|r: int, c: int| 0 <= r < a.len() && 0 <= c < a[r].len() implies #[trigger] b[r][c] == a[r][c] by {
            assert(p[r][c] == a[r][c]);
            assert(b[r][c] == p[r][c]);
        }
    }
}

proof fn lemma_wrap_step(chars: Seq<char>, cursor: nat, width: nat, k: int)
    requires
        width >= 1,
        0 <= k < chars.len(),
    ensures
        rows_extend(wrap_prefix(chars, cursor, width, k).rows, wrap_prefix(chars, cursor, width, k + 1).rows),
{
    lemma_wrap_shape(chars, cursor, width, k);
    let a = wrap_prefix(chars, cursor, width, k).rows;
    let b = wrap_prefix(chars, cursor, width, k + 1).rows;
    assert forall|r: int| 0 <= r < a.len() implies (#[trigger] a[r]).len() <= b[r].len() by {}
    assert forall|r: int, c: int| 0 <= r < a.len() && 0 <= c < a[r].len() implies #[trigger] b[r][c] == a[r][c] by {}
}

/// While the characters of a word that fits a row are laid out, they go
/// one after another onto a single row.
proof fn lemma_word_on_one_row(chars: Seq<char>, cursor: nat, width: nat, i: int, n: int) -> (rc: (int, int))
    requires
        width >= 1,
        0 <= i < chars.len(),
        i == 0 || spec_is_whitespace(chars[i - 1]),
        1 <= word_length_at(chars, i) <= width,
        i < n <= i + word_length_at(chars, i),
    ensures
        ({
            let st = wrap_prefix(chars, cursor, width, n);
            let (r, c) = rc;
            let w = word_length_at(chars, i);
            &&& 0 <= r < st.rows.len()
            &&& 0 <= c
            &&& c + w <= width
            &&& forall|d: int| 0 <= d < n - i ==> c + d < st.rows[r].len() && #[trigger] st.rows[r][c + d] == (i + d) as usize
            &&& n < i + w ==> r == st.rows.len() - 1 && st.column == c + (n - i)
        }),
    decreases n - i,
{
    let w = word_length_at(chars, i);
    lemma_word_length_bound(chars, i);
    if n == i + 1 {
        lemma_wrap_shape(chars, cursor, width, i);
        let st0 = wrap_prefix(chars, cursor, width, i);
        let st1 = if st0.column > 0 && w <= width && st0.column + w > width {
            WrapState { rows: st0.rows.push(seq![]), column: 0, ..st0 }
        } else {
            st0
        };
        let c = st1.column as int;
        let r = st1.rows.len() - 1;
        assert(!spec_is_whitespace(chars[i]));
        assert(st1.rows.last().len() == st1.column);
        (r, c)
    } else {
        let (r, c) = lemma_word_on_one_row(chars, cursor, width, i, n - 1);
        lemma_wrap_shape(chars, cursor, width, n - 1);
        let j = n - 1;
        lemma_word_chars(chars, i, j);
        (r, c)
    }
}

/// The characters of a word are not whitespace, and none after the first
/// starts a word.
proof fn lemma_word_chars(chars: Seq<char>, i: int, j: int)
    requires
        0 <= i <= j < i + word_length_at(chars, i),
    ensures
        j < chars.len(),
        !spec_is_whitespace(chars[j]),
        j > i ==> !spec_is_whitespace(chars[j - 1]),
        word_length_at(chars, j) == word_length_at(chars, i) - (j - i),
    decreases j - i,
{
    if j > i {
        lemma_word_chars(chars, i + 1, j);
    }
}

/// Row `r` holds positions `start`, `start + 1`, ..., `start + len - 1`
/// one after another, from column `c`.
pub open spec fn side_by_side(rows: Seq<Seq<usize>>, r: int, c: int, start: int, len: nat) -> bool {
    &&& 0 <= r < rows.len()
    &&& 0 <= c
    &&& c + len <= rows[r].len()
    &&& forall|d: int| 0 <= d < len ==> #[trigger] rows[r][c + d] == (start + d) as usize
}

/// Words are not broken when they fit: every word no longer than the row
/// width lies on a single row, its characters side by side, so a row never
/// ends inside it. A word that does not fit what is left of a row starts
/// the next row.
pub proof fn law_short_words_stay_whole(chars: Seq<char>, cursor: nat, width: nat, i: int)
    requires
        width >= 1,
        0 <= i < chars.len(),
        i == 0 || spec_is_whitespace(chars[i - 1]),
        1 <= word_length_at(chars, i) <= width,
    ensures
        ({
            let rows = wrap_prefix(chars, cursor, width, chars.len() as int).rows;
            exists|r: int, c: int| #[trigger] side_by_side(rows, r, c, i, word_length_at(chars, i))
        }),
{
    let w = word_length_at(chars, i);
    lemma_word_length_bound(chars, i);
    let (r, c) = lemma_word_on_one_row(chars, cursor, width, i, i + w);
    lemma_wrap_rows_grow(chars, cursor, width, i + w, chars.len() as int);
    let st = wrap_prefix(chars, cursor, width, i + w);
    let rows = wrap_prefix(chars, cursor, width, chars.len() as int).rows;
    assert(rows_extend(st.rows, rows));
    assert(c + w <= st.rows[r].len()) by {
        assert(st.rows[r][c + (w - 1)] == (i + (w - 1)) as usize);
    }
    assert forall|d: int| 0 <= d < w implies #[trigger] rows[r][c + d] == (i + d) as usize by {
        assert(st.rows[r][c + d] == (i + d) as usize);
        assert(c + d < st.rows[r].len());
        assert(st.rows[r].len() <= rows[r].len());
        assert(rows[r][c + d] == st.rows[r][c + d]);
    }
    assert(side_by_side(rows, r, c, i, w));
}

} // verus!
