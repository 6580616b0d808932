//! Turning a block of source code into a practice snippet: tab expansion,
//! line splitting, relative indentation and the limits a snippet must meet.
use vstd::prelude::*;

use crate::content::{CodeLanguage, Snippet, WordLanguage, WordListSize};
use crate::text::{
    chars_of, is_whitespace, lemma_trim_end_take, lemma_trim_start_skip, lemma_utf8_len_push,
    push_char, spec_is_whitespace, spec_trim, spec_trim_end, spec_trim_start, spec_utf8_len,
    trim_bounds, utf8_width,
};

verus! {

broadcast use vstd::string::group_string_axioms;

/// What the loader is asked to fetch.
#[derive(Debug, Clone, Copy, PartialEq, Eq, Structural)]
pub enum LoadRequest {
    Words(WordLanguage, WordListSize),
    Code(CodeLanguage),
    Refresh(CodeLanguage),
}

/// What the loader hands back.
#[derive(Debug)]
pub enum LoadResult {
    Words(Vec<String>),
    Code(Vec<Snippet>),
}

/// Column reached after the characters, with tab stops every four columns
/// and a return to column 0 after each newline.
pub open spec fn column_after(s: Seq<char>) -> nat
    decreases s.len(),
{
    if s.len() == 0 {
        0
    } else {
        let col = column_after(s.drop_last());
        if s.last() == '\n' {
            0
        } else if s.last() == '\t' {
            col + (4 - col % 4) as nat
        } else {
            col + 1
        }
    }
}

pub open spec fn spaces(n: nat) -> Seq<char> {
    Seq::new(n, |i: int| ' ')
}

/// The text with each tab replaced by the spaces up to the next tab stop.
pub open spec fn spec_expand_tabs(s: Seq<char>) -> Seq<char>
    decreases s.len(),
{
    if s.len() == 0 {
        seq![]
    } else {
        let before = spec_expand_tabs(s.drop_last());
        if s.last() == '\t' {
            let col = column_after(s.drop_last());
            before + spaces((4 - col % 4) as nat)
        } else {
            before.push(s.last())
        }
    }
}

/// Replaces each tab by spaces up to the next multiple of four columns.
pub fn expand_tabs(text: &str) -> (r: String)
    ensures
        r@ == spec_expand_tabs(text@),
{
    let v = chars_of(text);
    let mut out = String::new();
    let mut phase: usize = 0;
    let mut i: usize = 0;
    while i < v.len()
        invariant
            v@ == text@,
            i <= v@.len(),
            out@ == spec_expand_tabs(v@.take(i as int)),
            phase == column_after(v@.take(i as int)) % 4,
        decreases v@.len() - i,
    {
        let c = v[i];
        proof {
            assert(v@.take(i + 1).drop_last() =~= v@.take(i as int));
            assert(v@.take(i + 1).last() == c);
        }
        if c == '\n' {
            push_char(&mut out, c);
            phase = 0;
        } else if c == '\t' {
            let width = 4 - phase;
            let ghost start = out@;
            let mut k: usize = 0;
            while k < width
                invariant
                    k <= width,
                    out@ == start + spaces(k as nat),
                decreases width - k,
            {
                push_char(&mut out, ' ');
                assert(start + spaces((k + 1) as nat) =~= (start + spaces(k as nat)).push(' '));
                k += 1;
            }
            phase = 0;
        } else {
            push_char(&mut out, c);
            phase = (phase + 1) % 4;
        }
        i += 1;
    }
    assert(v@.take(i as int) =~= v@);
    out
}

/// The pieces of the text between newlines (always at least one).
pub open spec fn spec_split(s: Seq<char>) -> Seq<Seq<char>>
    decreases s.len(),
{
    if s.len() == 0 {
        seq![seq![]]
    } else {
        let r = spec_split(s.drop_last());
        if s.last() == '\n' {
            r.push(seq![])
        } else {
            r.update(r.len() - 1, r.last().push(s.last()))
        }
    }
}

pub open spec fn strip_cr(l: Seq<char>) -> Seq<char> {
    if l.len() > 0 && l.last() == '\r' {
        l.drop_last()
    } else {
        l
    }
}

/// The lines of a text as `str::lines` gives them: split at `\n`, a `\r`
/// just before a `\n` dropped, and no line after a final `\n`.
pub open spec fn spec_lines(s: Seq<char>) -> Seq<Seq<char>> {
    let p = spec_split(s);
    if s.len() == 0 {
        seq![]
    } else if s.last() == '\n' {
        p.drop_last().map_values(|l: Seq<char>| strip_cr(l))
    } else {
        Seq::new(
            p.len(),
            |i: int|
                if i < p.len() - 1 {
                    strip_cr(p[i])
                } else {
                    p[i]
                },
        )
    }
}

pub proof fn lemma_split_len(s: Seq<char>)
    ensures
        spec_split(s).len() >= 1,
    decreases s.len(),
{
    if s.len() > 0 {
        lemma_split_len(s.drop_last());
    }
}

pub open spec fn views(v: Seq<Vec<char>>) -> Seq<Seq<char>> {
    v.map_values(|l: Vec<char>| l@)
}

fn strip_cr_exec(l: Vec<char>) -> (r: Vec<char>)
    ensures
        r@ == strip_cr(l@),
{
    let mut l = l;
    if l.len() > 0 && l[l.len() - 1] == '\r' {
        l.pop();
    }
    l
}

/// The lines of `v[from..to]`, as `str::lines` splits them.
pub fn split_lines(v: &Vec<char>, from: usize, to: usize) -> (r: Vec<Vec<char>>)
    requires
        from <= to <= v@.len(),
    ensures
        views(r@) == spec_lines(v@.subrange(from as int, to as int)),
{
    let ghost s = v@.subrange(from as int, to as int);
    let mut done: Vec<Vec<char>> = Vec::new();
    let mut cur: Vec<char> = Vec::new();
    let mut i = from;
    while i < to
        invariant
            from <= i <= to <= v@.len(),
            s == v@.subrange(from as int, to as int),
            views(done@) == spec_split(s.take(i - from)).drop_last().map_values(|l: Seq<char>| strip_cr(l)),
            cur@ == spec_split(s.take(i - from)).last(),
            spec_split(s.take(i - from)).len() >= 1,
        decreases to - i,
    {
        let c = v[i];
        let ghost t = s.take(i - from);
        let ghost t1 = s.take(i - from + 1);
        proof {
            assert(t1.drop_last() =~= t);
            assert(t1.last() == c);
            lemma_split_len(t);
        }
        if c == '\n' {
            let mut piece: Vec<char> = Vec::new();
            std::mem::swap(&mut piece, &mut cur);
            let line = strip_cr_exec(piece);
            let ghost done_before = done@;
            done.push(line);
            proof {
                assert(views(done@) =~= views(done_before).push(strip_cr(spec_split(t).last())));
                assert(spec_split(t1) == spec_split(t).push(seq![]));
                assert(spec_split(t1).drop_last() =~= spec_split(t));
                assert(spec_split(t) =~= spec_split(t).drop_last().push(spec_split(t).last()));
                assert(views(done@) =~= spec_split(t1).drop_last().map_values(|l: Seq<char>| strip_cr(l)));
            }
        } else {
            cur.push(c);
            proof {
                let r = spec_split(t);
                assert(spec_split(t1) == r.update(r.len() - 1, r.last().push(c)));
                assert(spec_split(t1).drop_last() =~= r.drop_last());
            }
        }
        i += 1;
    }
    proof {
        assert(s.take(i - from) =~= s);
        lemma_split_len(s);
    }
    if to > from && v[to - 1] != '\n' {
        let ghost done_before = done@;
        let ghost last = cur@;
        done.push(cur);
        proof {
            let p = spec_split(s);
            assert(views(done@) =~= views(done_before).push(last));
            assert(s.len() > 0);
            assert(s.last() == v@[to - 1]);
            assert(views(done@) =~= spec_lines(s));
        }
    } else {
        proof {
            if to > from {
                assert(s.last() == v@[to - 1]);
            }
        }
    }
    done
}


/// The text without leading newlines.
pub open spec fn drop_leading_newlines(s: Seq<char>) -> Seq<char>
    decreases s.len(),
{
    if s.len() > 0 && s[0] == '\n' {
        drop_leading_newlines(s.drop_first())
    } else {
        s
    }
}

/// The text without trailing newlines.
pub open spec fn drop_trailing_newlines(s: Seq<char>) -> Seq<char>
    decreases s.len(),
{
    if s.len() > 0 && s.last() == '\n' {
        drop_trailing_newlines(s.drop_last())
    } else {
        s
    }
}

/// `str::trim_matches('\n')`.
pub open spec fn spec_trim_newlines(s: Seq<char>) -> Seq<char> {
    drop_trailing_newlines(drop_leading_newlines(s))
}

proof fn lemma_leading_newlines(s: Seq<char>, i: int)
    requires
        0 <= i <= s.len(),
        forall|j: int| 0 <= j < i ==> #[trigger] s[j] == '\n',
    ensures
        drop_leading_newlines(s) == drop_leading_newlines(s.skip(i)),
    decreases i,
{
    if i > 0 {
        assert forall|j: int| 0 <= j < i - 1 implies #[trigger] s.drop_first()[j] == '\n' by {
            assert(s.drop_first()[j] == s[j + 1]);
        }
        lemma_leading_newlines(s.drop_first(), i - 1);
        assert(s.drop_first().skip(i - 1) =~= s.skip(i));
    } else {
        assert(s.skip(0) =~= s);
    }
}

proof fn lemma_trailing_newlines(s: Seq<char>, i: int)
    requires
        0 <= i <= s.len(),
        forall|j: int| i <= j < s.len() ==> #[trigger] s[j] == '\n',
    ensures
        drop_trailing_newlines(s) == drop_trailing_newlines(s.take(i)),
    decreases s.len() - i,
{
    if i < s.len() {
        assert(s.drop_last().take(i) =~= s.take(i));
        lemma_trailing_newlines(s.drop_last(), i);
    } else {
        assert(s.take(i) =~= s);
    }
}

/// Bounds `(a, b)` such that `v[a..b]` is `v` without leading and trailing newlines.
fn trim_newline_bounds(v: &Vec<char>) -> (r: (usize, usize))
    ensures
        r.0 <= r.1 <= v@.len(),
        v@.subrange(r.0 as int, r.1 as int) == spec_trim_newlines(v@),
{
    let mut a: usize = 0;
    while a < v.len() && v[a] == '\n'
        invariant
            a <= v@.len(),
            forall|j: int| 0 <= j < a ==> #[trigger] v@[j] == '\n',
        decreases v@.len() - a,
    {
        a += 1;
    }
    proof {
        lemma_leading_newlines(v@, a as int);
    }
    let mut b: usize = v.len();
    while b > a && v[b - 1] == '\n'
        invariant
            a <= b <= v@.len(),
            forall|j: int| b <= j < v@.len() ==> #[trigger] v@[j] == '\n',
        decreases b,
    {
        b -= 1;
    }
    proof {
        let t = v@.skip(a as int);
        lemma_trailing_newlines(t, (b - a) as int);
        assert(t.take((b - a) as int) =~= v@.subrange(a as int, b as int));
    }
    (a, b)
}

/// The line without a leading run of `n` spaces, if it starts with one.
pub open spec fn strip_indent(line: Seq<char>, n: nat) -> Seq<char> {
    if line.len() >= n && line.take(n as int) == spaces(n) {
        line.skip(n as int)
    } else {
        line
    }
}

/// Whether the line holds a character other than whitespace.
pub open spec fn nonblank(line: Seq<char>) -> bool {
    spec_trim_start(line).len() > 0
}

/// Bytes of leading whitespace.
pub open spec fn indent_of(line: Seq<char>) -> nat {
    spec_utf8_len(line.take(line.len() - spec_trim_start(line).len()))
}

/// The least indentation of the non-blank lines, if there is one.
pub open spec fn least_indent(ls: Seq<Seq<char>>) -> Option<nat>
    decreases ls.len(),
{
    if ls.len() == 0 {
        None
    } else {
        let rest = least_indent(ls.drop_last());
        let l = ls.last();
        if !nonblank(l) {
            rest
        } else {
            match rest {
                Some(m) => Some(if indent_of(l) < m { indent_of(l) } else { m }),
                None => Some(indent_of(l)),
            }
        }
    }
}

/// The least positive indentation of the non-blank lines, if there is one.
pub open spec fn least_positive_indent(ls: Seq<Seq<char>>) -> Option<nat>
    decreases ls.len(),
{
    if ls.len() == 0 {
        None
    } else {
        let rest = least_positive_indent(ls.drop_last());
        let l = ls.last();
        if !nonblank(l) || indent_of(l) == 0 {
            rest
        } else {
            match rest {
                Some(m) => Some(if indent_of(l) < m { indent_of(l) } else { m }),
                None => Some(indent_of(l)),
            }
        }
    }
}

/// The line from byte `n` on (`str::get(n..)`): `None` unless `n` falls on
/// a character boundary within the line.
pub open spec fn from_byte(line: Seq<char>, n: nat) -> Option<Seq<char>> {
    if exists|k: int| 0 <= k <= line.len() && spec_utf8_len(#[trigger] line.take(k)) == n {
        let k = choose|k: int| 0 <= k <= line.len() && spec_utf8_len(#[trigger] line.take(k)) == n;
        Some(line.skip(k))
    } else {
        None
    }
}

/// The lines joined with newlines.
pub open spec fn spec_join(ls: Seq<Seq<char>>) -> Seq<char>
    decreases ls.len(),
{
    if ls.len() == 0 {
        seq![]
    } else if ls.len() == 1 {
        ls[0]
    } else {
        spec_join(ls.drop_last()) + seq!['\n'] + ls.last()
    }
}

pub open spec fn typable(c: char) -> bool {
    (c as u32) < 0x80 && c != '\0' && c != '\r'
}

/// The lines after the first lose a leading run of `n` spaces.
pub open spec fn without_source_indent(ls: Seq<Seq<char>>, n: nat) -> Seq<Seq<char>> {
    Seq::new(ls.len(), |i: int| if i == 0 { ls[i] } else { strip_indent(ls[i], n) })
}

/// The least indentation of the non-blank lines, 0 when all are blank.
pub open spec fn common_indent(ps: Seq<Seq<char>>) -> nat {
    match least_indent(ps) {
        Some(n) => n,
        None => 0,
    }
}

/// The lines from byte `indentation` on (whole where that is no character
/// boundary), without trailing whitespace.
pub open spec fn relative_lines(ps: Seq<Seq<char>>, indentation: nat) -> Seq<Seq<char>> {
    Seq::new(
        ps.len(),
        |i: int|
            spec_trim_end(
                match from_byte(ps[i], indentation) {
                    Some(rest) => rest,
                    None => ps[i],
                },
            ),
    )
}

/// A block of code as a practice snippet: tabs expanded, surrounding
/// newlines removed, the source indentation of the lines after the first
/// removed, the common indentation removed, trailing whitespace removed.
/// Refused unless it has 3 to 20 lines and 100 to 600 characters, uses an
/// indentation step of at least two columns, keeps every line within 88
/// characters and holds only ASCII without NUL or carriage return.
pub open spec fn spec_normalize(raw: Seq<char>, source_indent: nat) -> Option<Seq<char>> {
    let t = spec_trim_newlines(spec_expand_tabs(raw));
    let ls = spec_lines(t);
    let ps = without_source_indent(ls, source_indent);
    let ms = relative_lines(ps, common_indent(ps));
    if !(3 <= ls.len() <= 20) || !(100 <= t.len() <= 600) {
        None
    } else if !(least_positive_indent(ms) matches Some(n) && n >= 2) {
        None
    } else if exists|i: int| 0 <= i < ms.len() && (#[trigger] ms[i]).len() > 88 {
        None
    } else if exists|i: int, j: int| 0 <= i < ms.len() && 0 <= j < ms[i].len() && !typable(#[trigger] ms[i][j]) {
        None
    } else {
        Some(spec_join(ms))
    }
}


proof fn lemma_split_bounded(s: Seq<char>)
    ensures
        forall|i: int| 0 <= i < spec_split(s).len() ==> (#[trigger] spec_split(s)[i]).len() <= s.len(),
    decreases s.len(),
{
    if s.len() > 0 {
        lemma_split_bounded(s.drop_last());
        lemma_split_len(s.drop_last());
    }
}

proof fn lemma_lines_bounded(s: Seq<char>)
    ensures
        forall|i: int| 0 <= i < spec_lines(s).len() ==> (#[trigger] spec_lines(s)[i]).len() <= s.len(),
{
    lemma_split_bounded(s);
    lemma_split_len(s);
}

/// Number of leading whitespace characters.
pub(crate) fn leading_whitespace(line: &Vec<char>) -> (a: usize)
    ensures
        a <= line@.len(),
        a == line@.len() - spec_trim_start(line@).len(),
        line@.skip(a as int) == spec_trim_start(line@),
{
    let mut a: usize = 0;
    while a < line.len() && is_whitespace(line[a])
        invariant
            a <= line@.len(),
            forall|j: int| 0 <= j < a ==> spec_is_whitespace(#[trigger] line@[j]),
        decreases line@.len() - a,
    {
        a += 1;
    }
    proof {
        lemma_trim_start_skip(line@, a as int);
        if a < line@.len() {
            assert(!spec_is_whitespace(line@.skip(a as int)[0]));
        }
        assert(spec_trim_start(line@.skip(a as int)) == line@.skip(a as int));
    }
    a
}

pub(crate) proof fn lemma_utf8_len_grows(s: Seq<char>, k: int)
    requires
        0 <= k < s.len(),
    ensures
        spec_utf8_len(s.take(k)) < spec_utf8_len(s.take(k + 1)),
        spec_utf8_len(s.take(k + 1)) <= spec_utf8_len(s.take(k)) + 4,
{
    assert(s.take(k + 1) =~= s.take(k).push(s[k]));
    lemma_utf8_len_push(s.take(k), s[k]);
}

pub(crate) proof fn lemma_utf8_len_strict(s: Seq<char>, a: int, b: int)
    requires
        0 <= a < b <= s.len(),
    ensures
        spec_utf8_len(s.take(a)) < spec_utf8_len(s.take(b)),
    decreases b - a,
{
    lemma_utf8_len_grows(s, b - 1);
    if a < b - 1 {
        lemma_utf8_len_strict(s, a, b - 1);
    }
}

/// Bytes of the first `k` characters.
fn prefix_bytes(line: &Vec<char>, k: usize) -> (n: usize)
    requires
        k <= line@.len() <= usize::MAX / 4,
    ensures
        n == spec_utf8_len(line@.take(k as int)),
        n <= 4 * k,
{
    let mut n: usize = 0;
    let mut i: usize = 0;
    while i < k
        invariant
            k <= line@.len() <= usize::MAX / 4,
            i <= k,
            n == spec_utf8_len(line@.take(i as int)),
            n <= 4 * i,
        decreases k - i,
    {
        proof {
            lemma_utf8_len_grows(line@, i as int);
        }
        n = n + utf8_width(line[i]);
        proof {
            assert(line@.take(i + 1) =~= line@.take(i as int).push(line@[i as int]));
            lemma_utf8_len_push(line@.take(i as int), line@[i as int]);
        }
        i += 1;
    }
    n
}

/// The character position where byte `n` begins, if `n` falls on a
/// character boundary within the line.
fn boundary_at(line: &Vec<char>, n: usize) -> (r: Option<usize>)
    requires
        line@.len() <= 1000,
    ensures
        match r {
            Some(k) => k <= line@.len() && from_byte(line@, n as nat) == Some(line@.skip(k as int)),
            None => from_byte(line@, n as nat) is None,
        },
{
    let mut acc: usize = 0;
    let mut k: usize = 0;
    while k < line.len() && acc < n
        invariant
            line@.len() <= 1000,
            k <= line@.len(),
            acc == spec_utf8_len(line@.take(k as int)),
            acc <= 4 * k,
            k > 0 ==> spec_utf8_len(line@.take(k - 1)) < n,
        decreases line@.len() - k,
    {
        proof {
            lemma_utf8_len_grows(line@, k as int);
            assert(line@.take(k + 1) =~= line@.take(k as int).push(line@[k as int]));
            lemma_utf8_len_push(line@.take(k as int), line@[k as int]);
        }
        acc = acc + utf8_width(line[k]);
        k += 1;
    }
    if acc == n {
        proof {
            assert(spec_utf8_len(line@.take(k as int)) == n);
            let c = choose|c: int| 0 <= c <= line@.len() && spec_utf8_len(#[trigger] line@.take(c)) == n;
            if c < k {
                lemma_utf8_len_strict(line@, c, k as int);
            } else if c > k {
                lemma_utf8_len_strict(line@, k as int, c);
            }
        }
        Some(k)
    } else {
        proof {
            assert forall|c: int| 0 <= c <= line@.len() implies spec_utf8_len(#[trigger] line@.take(c)) != n by {
                if acc > n {
                    assert(k > 0);
                    lemma_utf8_len_grows(line@, k - 1);
                    if c < k {
                        if c < k - 1 {
                            lemma_utf8_len_strict(line@, c, k - 1);
                        }
                    } else if c > k {
                        lemma_utf8_len_strict(line@, k as int, c);
                    }
                } else {
                    assert(k == line@.len());
                    if c < k {
                        lemma_utf8_len_strict(line@, c, k as int);
                    }
                }
            }
        }
        None
    }
}

fn skip_chars(line: &Vec<char>, k: usize) -> (r: Vec<char>)
    requires
        k <= line@.len(),
    ensures
        r@ == line@.skip(k as int),
{
    let mut r: Vec<char> = Vec::new();
    let mut i = k;
    while i < line.len()
        invariant
            k <= i <= line@.len(),
            r@ == line@.subrange(k as int, i as int),
        decreases line@.len() - i,
    {
        r.push(line[i]);
        assert(line@.subrange(k as int, i + 1) =~= line@.subrange(k as int, i as int).push(line@[i as int]));
        i += 1;
    }
    assert(line@.subrange(k as int, i as int) =~= line@.skip(k as int));
    r
}

fn strip_indent_exec(line: Vec<char>, n: usize) -> (r: Vec<char>)
    ensures
        r@ == strip_indent(line@, n as nat),
{
    if line.len() < n {
        return line;
    }
    let mut j: usize = 0;
    while j < n
        invariant
            n <= line@.len(),
            j <= n,
            forall|q: int| 0 <= q < j ==> #[trigger] line@[q] == ' ',
        decreases n - j,
    {
        if line[j] != ' ' {
            proof {
                assert(line@.take(n as int)[j as int] != spaces(n as nat)[j as int]);
            }
            return line;
        }
        j += 1;
    }
    assert(line@.take(n as int) =~= spaces(n as nat));
    skip_chars(&line, n)
}

pub(crate) fn trim_end_exec(line: Vec<char>) -> (r: Vec<char>)
    ensures
        r@ == spec_trim_end(line@),
        r@.len() <= line@.len(),
{
    let mut line = line;
    let ghost initial = line@;
    let mut b = line.len();
    while b > 0 && is_whitespace(line[b - 1])
        invariant
            b <= line@.len(),
            line@ == initial,
            forall|j: int| b <= j < line@.len() ==> spec_is_whitespace(#[trigger] line@[j]),
        decreases b,
    {
        b -= 1;
    }
    proof {
        lemma_trim_end_take(initial, b as int);
        if b > 0 {
            assert(initial.take(b as int).last() == initial[b - 1]);
        }
        assert(spec_trim_end(initial.take(b as int)) == initial.take(b as int));
    }
    line.truncate(b);
    line
}


pub open spec fn lines_within(ls: Seq<Vec<char>>, n: nat) -> bool {
    forall|i: int| 0 <= i < ls.len() ==> (#[trigger] ls[i])@.len() <= n
}

fn least_indent_exec(ls: &Vec<Vec<char>>, positive: bool) -> (r: Option<usize>)
    requires
        lines_within(ls@, 1000),
    ensures
        r matches Some(n) ==> n <= 4000,
        (if positive { least_positive_indent(views(ls@)) } else { least_indent(views(ls@)) }) == match r {
            Some(n) => Some(n as nat),
            None => None::<nat>,
        },
{
    let mut best: Option<usize> = None;
    let mut i: usize = 0;
    while i < ls.len()
        invariant
            i <= ls@.len(),
            lines_within(ls@, 1000),
            best matches Some(n) ==> n <= 4000,
            (if positive { least_positive_indent(views(ls@).take(i as int)) } else { least_indent(views(ls@).take(i as int)) }) == match best {
                Some(n) => Some(n as nat),
                None => None::<nat>,
            },
        decreases ls@.len() - i,
    {
        let line = &ls[i];
        let a = leading_whitespace(line);
        proof {
            assert(views(ls@).take(i + 1).drop_last() =~= views(ls@).take(i as int));
            assert(views(ls@).take(i + 1).last() == line@);
            assert(line@.len() <= 1000);
        }
        if a < line.len() {
            let b = prefix_bytes(line, a);
            if !positive || b > 0 {
                best = match best {
                    Some(m) => Some(if b < m { b } else { m }),
                    None => Some(b),
                };
            }
        }
        i += 1;
    }
    assert(views(ls@).take(i as int) =~= views(ls@));
    best
}

pub(crate) fn join_lines(ls: &Vec<Vec<char>>) -> (r: String)
    ensures
        r@ == spec_join(views(ls@)),
{
    let mut r = String::new();
    let mut i: usize = 0;
    while i < ls.len()
        invariant
            i <= ls@.len(),
            r@ == spec_join(views(ls@).take(i as int)),
        decreases ls@.len() - i,
    {
        let ghost before = r@;
        if i > 0 {
            push_char(&mut r, '\n');
        }
        let line = &ls[i];
        let mut j: usize = 0;
        while j < line.len()
            invariant
                j <= line@.len(),
                r@ == (if i > 0 { before + seq!['\n'] } else { before }) + line@.take(j as int),
            decreases line@.len() - j,
        {
            push_char(&mut r, line[j]);
            assert(line@.take(j + 1) =~= line@.take(j as int).push(line@[j as int]));
            j += 1;
        }
        proof {
            assert(line@.take(j as int) =~= line@);
            let t = views(ls@).take(i + 1);
            assert(t.drop_last() =~= views(ls@).take(i as int));
            assert(t.last() == line@);
            if i == 0 {
                assert(t.len() == 1);
                assert(before =~= seq![]);
            }
        }
        i += 1;
    }
    assert(views(ls@).take(i as int) =~= views(ls@));
    r
}

/// The lines with the source indentation removed from all but the first.
fn strip_source_indent(ls: Vec<Vec<char>>, source_indent: usize) -> (ps: Vec<Vec<char>>)
    requires
        lines_within(ls@, 1000),
    ensures
        ps@.len() == ls@.len(),
        lines_within(ps@, 1000),
        views(ps@) == Seq::new(
            ls@.len(),
            |i: int|
                if i == 0 {
                    views(ls@)[i]
                } else {
                    strip_indent(views(ls@)[i], source_indent as nat)
                },
        ),
{
    let ghost initial = views(ls@);
    let count = ls.len();
    let ghost n = ls@.len();
    assert(n == count);
    let mut rest = ls;
    let mut ps: Vec<Vec<char>> = Vec::new();
    let mut i: usize = 0;
    while rest.len() > 0
        invariant
            i <= n,
            n <= usize::MAX,
            n == initial.len(),
            views(rest@) == initial.skip(i as int),
            lines_within(rest@, 1000),
            lines_within(ps@, 1000),
            views(ps@) == Seq::new(
                i as nat,
                |q: int|
                    if q == 0 {
                        initial[q]
                    } else {
                        strip_indent(initial[q], source_indent as nat)
                    },
            ),
        decreases rest@.len(),
    {
        proof {
            assert(views(rest@).len() == rest@.len());
        }
        let ghost rest_before = rest@;
        let line = rest.remove(0);
        proof {
            assert(views(rest_before).len() == initial.len() - i);
            assert(line@ == views(rest_before)[0]);
            assert(views(rest_before)[0] == initial[i as int]);
            assert forall|q: int| 0 <= q < views(rest@).len() implies #[trigger] views(rest@)[q] == initial.skip(i + 1)[q] by {
                assert(rest@[q] == rest_before[q + 1]);
                assert(views(rest_before)[q + 1] == initial.skip(i as int)[q + 1]);
            }
            assert(views(rest@) =~= initial.skip(i + 1));
        }
        let stripped = if i == 0 {
            line
        } else {
            strip_indent_exec(line, source_indent)
        };
        proof {
            if i > 0 {
                assert(strip_indent(initial[i as int], source_indent as nat).len() <= initial[i as int].len());
            }
        }
        let ghost ps_before = ps@;
        ps.push(stripped);
        proof {
            assert(views(ps@) =~= views(ps_before).push(stripped@));
        }
        i += 1;
    }
    proof {
        assert(initial.skip(i as int).len() == 0);
    }
    ps
}

/// Turns a block of code into a practice snippet, or refuses it.
/// `source_indent` is the column the block started at in its file.
pub fn normalize_snippet(raw: &str, source_indent: usize) -> (r: Option<String>)
    ensures
        match r {
            Some(text) => spec_normalize(raw@, source_indent as nat) == Some(text@),
            None => spec_normalize(raw@, source_indent as nat) is None,
        },
{
    let expanded = expand_tabs(raw);
    let v = chars_of(expanded.as_str());
    let (a, b) = trim_newline_bounds(&v);
    let ghost t = v@.subrange(a as int, b as int);
    let ls = split_lines(&v, a, b);
    let ghost lsv = spec_lines(t);
    proof {
        lemma_lines_bounded(t);
        assert(views(ls@) == lsv);
    }
    if ls.len() < 3 || ls.len() > 20 || b - a < 100 || b - a > 600 {
        return None;
    }
    proof {
        assert forall|i: int| 0 <= i < ls@.len() implies (#[trigger] ls@[i])@.len() <= 1000 by {
            assert(ls@[i]@ == views(ls@)[i]);
        }
    }
    let ps = strip_source_indent(ls, source_indent);
    let ghost psv = views(ps@);
    let indentation = match least_indent_exec(&ps, false) {
        Some(n) => n,
        None => 0,
    };
    let mut ms: Vec<Vec<char>> = Vec::new();
    let mut i: usize = 0;
    while i < ps.len()
        invariant
            i <= ps@.len(),
            psv == views(ps@),
            lines_within(ps@, 1000),
            lines_within(ms@, 1000),
            views(ms@) == Seq::new(
                i as nat,
                |q: int|
                    spec_trim_end(
                        match from_byte(psv[q], indentation as nat) {
                            Some(rest) => rest,
                            None => psv[q],
                        },
                    ),
            ),
        decreases ps@.len() - i,
    {
        let line = &ps[i];
        proof {
            assert(line@ == psv[i as int]);
        }
        let rest = match boundary_at(line, indentation) {
            Some(k) => skip_chars(line, k),
            None => {
                let whole = skip_chars(line, 0);
                assert(line@.skip(0) =~= line@);
                whole
            },
        };
        let trimmed = trim_end_exec(rest);
        let ghost ms_before = ms@;
        ms.push(trimmed);
        proof {
            assert(views(ms@) =~= views(ms_before).push(trimmed@));
        }
        i += 1;
    }
    let ghost msv = views(ms@);
    proof {
        let ps_spec = without_source_indent(lsv, source_indent as nat);
        assert(psv =~= ps_spec);
        assert(common_indent(ps_spec) == indentation as nat);
        assert(msv =~= relative_lines(ps_spec, indentation as nat));
    }
    match least_indent_exec(&ms, true) {
        Some(n) => {
            if n < 2 {
                return None;
            }
        },
        None => {
            return None;
        },
    }
    let ghost rest_of_checks = if exists|k: int| 0 <= k < msv.len() && (#[trigger] msv[k]).len() > 88 {
        None
    } else if exists|k: int, j: int| 0 <= k < msv.len() && 0 <= j < msv[k].len() && !typable(#[trigger] msv[k][j]) {
        None
    } else {
        Some(spec_join(msv))
    };
    assert(spec_normalize(raw@, source_indent as nat) == rest_of_checks);
    let mut q: usize = 0;
    while q < ms.len()
        invariant
            q <= ms@.len(),
            msv == views(ms@),
            spec_normalize(raw@, source_indent as nat) == rest_of_checks,
            rest_of_checks == if exists|k: int| 0 <= k < msv.len() && (#[trigger] msv[k]).len() > 88 {
                None
            } else if exists|k: int, j: int| 0 <= k < msv.len() && 0 <= j < msv[k].len() && !typable(#[trigger] msv[k][j]) {
                None
            } else {
                Some(spec_join(msv))
            },
            forall|k: int| 0 <= k < q ==> (#[trigger] msv[k]).len() <= 88,
            forall|k: int, j: int| 0 <= k < q && 0 <= j < msv[k].len() ==> typable(#[trigger] msv[k][j]),
        decreases ms@.len() - q,
    {
        let line = &ms[q];
        proof {
            assert(line@ == msv[q as int]);
        }
        if line.len() > 88 {
            assert(msv[q as int].len() > 88);
            return None;
        }
        let mut j: usize = 0;
        while j < line.len()
            invariant
                q < msv.len(),
                spec_normalize(raw@, source_indent as nat) == rest_of_checks,
                rest_of_checks == if exists|k: int| 0 <= k < msv.len() && (#[trigger] msv[k]).len() > 88 {
                    None
                } else if exists|k: int, j: int| 0 <= k < msv.len() && 0 <= j < msv[k].len() && !typable(#[trigger] msv[k][j]) {
                    None
                } else {
                    Some(spec_join(msv))
                },
                j <= line@.len(),
                line@ == msv[q as int],
                forall|p: int| 0 <= p < j ==> typable(#[trigger] line@[p]),
            decreases line@.len() - j,
        {
            let c = line[j];
            if !((c as u32) < 0x80 && c != '\0' && c != '\r') {
                assert(!typable(msv[q as int][j as int]));
                return None;
            }
            j += 1;
        }
        q += 1;
    }
    Some(join_lines(&ms))
}


/// Column at which the byte offset `start_byte` lies on its line, with tab
/// stops every four columns. `start_byte` must fall on a character boundary.
pub fn visual_column(source: &str, start_byte: usize) -> (r: usize)
    requires
        exists|k: int| 0 <= k <= source@.len() && spec_utf8_len(#[trigger] source@.take(k)) == start_byte,
        source@.len() <= usize::MAX / 4,
    ensures
        forall|k: int|
            0 <= k <= source@.len() && spec_utf8_len(#[trigger] source@.take(k)) == start_byte
                ==> r == column_after(source@.take(k)),
{
    let v = chars_of(source);
    let mut acc: usize = 0;
    let mut column: usize = 0;
    let mut k: usize = 0;
    while k < v.len() && acc < start_byte
        invariant
            v@ == source@,
            v@.len() <= usize::MAX / 4,
            k <= v@.len(),
            acc == spec_utf8_len(v@.take(k as int)),
            acc <= 4 * k,
            column == column_after(v@.take(k as int)),
            column <= 4 * k,
            k > 0 ==> spec_utf8_len(v@.take(k - 1)) < start_byte,
        decreases v@.len() - k,
    {
        let c = v[k];
        proof {
            assert(v@.take(k + 1) =~= v@.take(k as int).push(c));
            assert(v@.take(k + 1).drop_last() =~= v@.take(k as int));
            lemma_utf8_len_push(v@.take(k as int), c);
            lemma_utf8_len_grows(v@, k as int);
        }
        acc = acc + utf8_width(c);
        if c == '\n' {
            column = 0;
        } else if c == '\t' {
            column = column + (4 - column % 4);
        } else {
            column = column + 1;
        }
        k += 1;
    }
    proof {
        let w = choose|w: int| 0 <= w <= source@.len() && spec_utf8_len(#[trigger] source@.take(w)) == start_byte;
        if w < k {
            lemma_utf8_len_strict(v@, w, k as int);
            if acc > start_byte {
                if w < k - 1 {
                    lemma_utf8_len_strict(v@, w, k - 1);
                }
            }
        } else if w > k {
            lemma_utf8_len_strict(v@, k as int, w);
        }
        assert(w == k);
        assert forall|j: int|
            0 <= j <= source@.len() && spec_utf8_len(#[trigger] source@.take(j)) == start_byte implies j == k by {
            if j < k {
                lemma_utf8_len_strict(v@, j, k as int);
            } else if j > k {
                lemma_utf8_len_strict(v@, k as int, j);
            }
        }
    }
    column
}

/// The lines after the first.
pub open spec fn after_first(ls: Seq<Seq<char>>) -> Seq<Seq<char>> {
    if ls.len() > 0 {
        ls.skip(1)
    } else {
        ls
    }
}

/// Position of the last non-blank line, or -1.
pub open spec fn last_nonblank(ls: Seq<Seq<char>>) -> int
    decreases ls.len(),
{
    if ls.len() == 0 {
        -1
    } else if nonblank(ls.last()) {
        ls.len() - 1
    } else {
        last_nonblank(ls.drop_last())
    }
}

pub open spec fn is_closing_line(line: Seq<char>) -> bool {
    spec_trim(line) == "}"@ || spec_trim(line) == "};"@ || spec_trim(line) == "},"@
}

/// The indentation a snippet stored before normalisation had in its file:
/// for Python the indentation of the body (least indentation of the non-blank
/// lines after the first) less four, for other languages the indentation of
/// a closing-brace last line.
pub open spec fn spec_legacy_indent(text: Seq<char>, language: CodeLanguage) -> nat {
    let ls = spec_lines(text);
    match language {
        CodeLanguage::Python => {
            let least = match least_indent(after_first(ls)) {
                Some(n) => n,
                None => 4,
            };
            if least >= 4 {
                (least - 4) as nat
            } else {
                0
            }
        },
        _ => {
            let k = last_nonblank(ls);
            if k >= 0 && is_closing_line(ls[k]) {
                indent_of(ls[k])
            } else {
                0
            }
        },
    }
}

fn indent_bytes(line: &Vec<char>) -> (r: Option<usize>)
    requires
        line@.len() <= usize::MAX / 4,
    ensures
        match r {
            Some(n) => nonblank(line@) && n == indent_of(line@),
            None => !nonblank(line@),
        },
{
    let a = leading_whitespace(line);
    if a < line.len() {
        Some(prefix_bytes(line, a))
    } else {
        None
    }
}

fn is_closing_exec(line: &Vec<char>) -> (r: bool)
    ensures
        r == is_closing_line(line@),
{
    let (a, b) = trim_bounds(line);
    let ghost t = line@.subrange(a as int, b as int);
    proof {
        reveal_strlit("}");
        reveal_strlit("};");
        reveal_strlit("},");
    }
    proof {
        assert("}"@.len() == 1);
        assert("};"@.len() == 2);
        assert("},"@.len() == 2);
    }
    if b - a == 1 {
        let r = line[a] == '}';
        proof {
            assert(t[0] == line@[a as int]);
            if r {
                assert(t =~= "}"@);
            } else {
                assert(t[0] != "}"@[0]);
            }
        }
        r
    } else if b - a == 2 {
        let r = line[a] == '}' && (line[a + 1] == ';' || line[a + 1] == ',');
        proof {
            assert(t[0] == line@[a as int]);
            assert(t[1] == line@[a + 1]);
            if r {
                if line@[a + 1] == ';' {
                    assert(t =~= "};"@);
                } else {
                    assert(t =~= "},"@);
                }
            } else {
                assert(t[0] != "};"@[0] || t[1] != "};"@[1]);
                assert(t[0] != "},"@[0] || t[1] != "},"@[1]);
            }
        }
        r
    } else {
        false
    }
}

/// The indentation an old stored snippet had in its file (see `spec_legacy_indent`).
pub fn legacy_indent(text: &str, language: CodeLanguage) -> (r: usize)
    requires
        text@.len() <= usize::MAX / 4,
    ensures
        r == spec_legacy_indent(text@, language),
{
    let v = chars_of(text);
    let ls = split_lines(&v, 0, v.len());
    proof {
        assert(v@.subrange(0, v@.len() as int) =~= text@);
        lemma_lines_bounded(text@);
    }
    let ghost lsv = spec_lines(text@);
    match language {
        CodeLanguage::Python => {
            if ls.len() == 0 {
                return 0;
            }
            let mut best: Option<usize> = None;
            let mut i: usize = 1;
            while i < ls.len()
                invariant
                    1 <= i <= ls@.len(),
                    views(ls@) == lsv,
                    forall|q: int| 0 <= q < lsv.len() ==> (#[trigger] lsv[q]).len() <= text@.len(),
                    text@.len() <= usize::MAX / 4,
                    least_indent(lsv.skip(1).take(i - 1)) == match best {
                        Some(n) => Some(n as nat),
                        None => None::<nat>,
                    },
                decreases ls@.len() - i,
            {
                let line = &ls[i];
                proof {
                    assert(line@ == lsv[i as int]);
                    assert(lsv.skip(1).take(i as int).drop_last() =~= lsv.skip(1).take(i - 1));
                    assert(lsv.skip(1).take(i as int).last() == lsv[i as int]);
                }
                match indent_bytes(line) {
                    Some(b) => {
                        best = match best {
                            Some(m) => Some(if b < m { b } else { m }),
                            None => Some(b),
                        };
                    },
                    None => {},
                }
                i += 1;
            }
            proof {
                assert(lsv.skip(1).take(i - 1) =~= after_first(lsv));
            }
            let least = match best {
                Some(n) => n,
                None => 4,
            };
            if least >= 4 {
                least - 4
            } else {
                0
            }
        },
        _ => {
            let mut k = ls.len();
            proof {
                assert(lsv.take(lsv.len() as int) =~= lsv);
            }
            while k > 0
                invariant
                    k <= ls@.len(),
                    lsv == spec_lines(text@),
                    !(language is Python),
                    views(ls@) == lsv,
                    forall|q: int| 0 <= q < lsv.len() ==> (#[trigger] lsv[q]).len() <= text@.len(),
                    text@.len() <= usize::MAX / 4,
                    last_nonblank(lsv) == last_nonblank(lsv.take(k as int)),
                decreases k,
            {
                let line = &ls[k - 1];
                proof {
                    assert(line@ == lsv[k - 1]);
                    assert(lsv.take(k as int).last() == lsv[k - 1]);
                    assert(lsv.take(k as int).drop_last() =~= lsv.take(k - 1));
                }
                if leading_whitespace(line) < line.len() {
                    proof {
                        assert(nonblank(lsv.take(k as int).last()));
                        assert(last_nonblank(lsv.take(k as int)) == k - 1);
                    }
                    if is_closing_exec(line) {
                        proof {
                            assert(line@.len() <= text@.len());
                        }
                        return match indent_bytes(line) {
                            Some(n) => n,
                            None => 0,
                        };
                    }
                    return 0;
                }
                k -= 1;
            }
            0
        },
    }
}

pub open spec fn spec_candidate_kinds(language: CodeLanguage) -> Seq<Seq<char>> {
    match language {
        CodeLanguage::Python => seq!["function_definition"@, "class_definition"@],
        CodeLanguage::JavaScript | CodeLanguage::TypeScript => seq![
            "function_declaration"@,
            "class_declaration"@,
            "method_definition"@,
            "interface_declaration"@,
        ],
        CodeLanguage::Rust => seq!["function_item"@, "impl_item"@, "struct_item"@, "enum_item"@, "trait_item"@],
        CodeLanguage::Go => seq!["function_declaration"@, "method_declaration"@, "type_declaration"@],
        CodeLanguage::Swift => seq![
            "function_declaration"@,
            "class_declaration"@,
            "struct_declaration"@,
            "protocol_declaration"@,
        ],
        CodeLanguage::Kotlin => seq!["function_declaration"@, "class_declaration"@, "object_declaration"@],
        CodeLanguage::Cpp => seq!["function_definition"@, "class_specifier"@, "struct_specifier"@],
        CodeLanguage::CSharp => seq![
            "method_declaration"@,
            "class_declaration"@,
            "struct_declaration"@,
            "interface_declaration"@,
        ],
        CodeLanguage::Java => seq![
            "method_declaration"@,
            "class_declaration"@,
            "interface_declaration"@,
            "record_declaration"@,
        ],
    }
}

/// Syntax-tree node kinds that make a complete snippet in each language.
pub fn candidate_kinds(language: CodeLanguage) -> (r: &'static [&'static str])
    ensures
        r@.len() == spec_candidate_kinds(language).len(),
        forall|i: int| 0 <= i < r@.len() ==> #[trigger] r@[i]@ == spec_candidate_kinds(language)[i],
{
    match language {
        CodeLanguage::Python => &["function_definition", "class_definition"],
        CodeLanguage::JavaScript | CodeLanguage::TypeScript => &[
            "function_declaration",
            "class_declaration",
            "method_definition",
            "interface_declaration",
        ],
        CodeLanguage::Rust => &["function_item", "impl_item", "struct_item", "enum_item", "trait_item"],
        CodeLanguage::Go => &["function_declaration", "method_declaration", "type_declaration"],
        CodeLanguage::Swift => &[
            "function_declaration",
            "class_declaration",
            "struct_declaration",
            "protocol_declaration",
        ],
        CodeLanguage::Kotlin => &["function_declaration", "class_declaration", "object_declaration"],
        CodeLanguage::Cpp => &["function_definition", "class_specifier", "struct_specifier"],
        CodeLanguage::CSharp => &[
            "method_declaration",
            "class_declaration",
            "struct_declaration",
            "interface_declaration",
        ],
        CodeLanguage::Java => &[
            "method_declaration",
            "class_declaration",
            "interface_declaration",
            "record_declaration",
        ],
    }
}


proof fn lemma_column_after_spaces(s: Seq<char>, n: nat)
    ensures
        column_after(s + spaces(n)) == column_after(s) + n,
    decreases n,
{
    if n > 0 {
        assert((s + spaces(n)).drop_last() =~= s + spaces((n - 1) as nat));
        assert((s + spaces(n)).last() == ' ');
        lemma_column_after_spaces(s, (n - 1) as nat);
    } else {
        assert(s + spaces(0) =~= s);
    }
}

/// Expanding tabs leaves no tab and keeps every character in its column:
/// the text ends at the same visual column as before.
pub proof fn law_expand_tabs_keeps_columns(s: Seq<char>)
    ensures
        !spec_expand_tabs(s).contains('\t'),
        column_after(spec_expand_tabs(s)) == column_after(s),
    decreases s.len(),
{
    if s.len() > 0 {
        let t = s.drop_last();
        law_expand_tabs_keeps_columns(t);
        let before = spec_expand_tabs(t);
        if s.last() == '\t' {
            let col = column_after(t);
            let w = (4 - col % 4) as nat;
            lemma_column_after_spaces(before, w);
            assert forall|i: int| 0 <= i < (before + spaces(w)).len() implies (before + spaces(w))[i] != '\t' by {
                if i < before.len() {
                    assert((before + spaces(w))[i] == before[i]);
                    assert(!before.contains('\t'));
                }
            }
        } else {
            assert(before.push(s.last()).drop_last() =~= before);
            assert forall|i: int| 0 <= i < before.push(s.last()).len() implies before.push(s.last())[i] != '\t' by {
                if i < before.len() {
                    assert(!before.contains('\t'));
                }
            }
        }
    }
}

proof fn lemma_join_chars(ls: Seq<Seq<char>>, i: int)
    requires
        0 <= i < spec_join(ls).len(),
    ensures
        spec_join(ls)[i] == '\n' || exists|k: int, j: int| 0 <= k < ls.len() && 0 <= j < ls[k].len() && #[trigger] ls[k][j] == spec_join(ls)[i],
    decreases ls.len(),
{
    if ls.len() == 1 {
        assert(ls[0][i] == spec_join(ls)[i]);
    } else if ls.len() > 1 {
        let rest = ls.drop_last();
        let head = spec_join(rest);
        if i < head.len() {
            lemma_join_chars(rest, i);
            if spec_join(ls)[i] != '\n' {
                let (k, j) = choose|k: int, j: int| 0 <= k < rest.len() && 0 <= j < rest[k].len() && #[trigger] rest[k][j] == spec_join(rest)[i];
                assert(ls[k][j] == rest[k][j]);
            }
        } else if i > head.len() {
            let j = i - head.len() - 1;
            assert(ls[ls.len() - 1][j] == spec_join(ls)[i]);
        }
    }
}

/// A snippet is typable: every character is a line break or printable
/// ASCII, with no NUL and no carriage return.
pub proof fn law_snippet_is_typable(raw: Seq<char>, source_indent: nat)
    requires
        spec_normalize(raw, source_indent) is Some,
    ensures
        ({
            let text = spec_normalize(raw, source_indent)->0;
            forall|i: int| 0 <= i < text.len() ==> #[trigger] text[i] == '\n' || typable(text[i])
        }),
{
    let text = spec_normalize(raw, source_indent)->0;
    let t = spec_trim_newlines(spec_expand_tabs(raw));
    let ls = spec_lines(t);
    let ps = without_source_indent(ls, source_indent);
    let ms = relative_lines(ps, common_indent(ps));
    assert(text == spec_join(ms));
    assert forall|i: int| 0 <= i < text.len() implies #[trigger] text[i] == '\n' || typable(text[i]) by {
        lemma_join_chars(ms, i);
        if text[i] != '\n' {
            let (k, j) = choose|k: int, j: int| 0 <= k < ms.len() && 0 <= j < ms[k].len() && #[trigger] ms[k][j] == spec_join(ms)[i];
            assert(typable(ms[k][j]));
        }
    }
}

proof fn lemma_trim_end_clean(s: Seq<char>)
    ensures
        spec_trim_end(s).len() > 0 ==> !spec_is_whitespace(spec_trim_end(s).last()),
    decreases s.len(),
{
    if s.len() > 0 && spec_is_whitespace(s.last()) {
        lemma_trim_end_clean(s.drop_last());
    }
}

/// The least positive indentation is that of some non-blank line, and no
/// indented non-blank line has less.
proof fn lemma_least_positive_indent(ls: Seq<Seq<char>>)
    ensures
        least_positive_indent(ls) matches Some(n) ==> {
            &&& exists|i: int| 0 <= i < ls.len() && nonblank(ls[i]) && #[trigger] indent_of(ls[i]) == n
            &&& forall|i: int|
                0 <= i < ls.len() && nonblank(ls[i]) && #[trigger] indent_of(ls[i]) > 0 ==> indent_of(ls[i]) >= n
        },
        least_positive_indent(ls) is None ==> forall|i: int|
            0 <= i < ls.len() && nonblank(ls[i]) ==> #[trigger] indent_of(ls[i]) == 0,
    decreases ls.len(),
{
    if ls.len() > 0 {
        let rest = ls.drop_last();
        lemma_least_positive_indent(rest);
        let last = ls.len() - 1;
        assert forall|i: int| 0 <= i < rest.len() implies #[trigger] rest[i] == ls[i] by {}
        if let Some(n) = least_positive_indent(ls) {
            assert forall|i: int|
                0 <= i < ls.len() && nonblank(ls[i]) && #[trigger] indent_of(ls[i]) > 0 implies indent_of(ls[i]) >= n by {
                if i < last {
                    assert(rest[i] == ls[i]);
                    assert(least_positive_indent(rest) is Some);
                }
            }
            if least_positive_indent(rest) == Some(n) {
                let i = choose|i: int| 0 <= i < rest.len() && nonblank(rest[i]) && #[trigger] indent_of(rest[i]) == n;
                assert(rest[i] == ls[i]);
            } else {
                assert(indent_of(ls[last]) == n);
            }
        } else {
            assert forall|i: int| 0 <= i < ls.len() && nonblank(ls[i]) implies #[trigger] indent_of(ls[i]) == 0 by {
                if i < last {
                    assert(rest[i] == ls[i]);
                }
            }
        }
    }
}

/// A line as typed: no tab and no line break in it.
pub open spec fn tab_free_line(l: Seq<char>) -> bool {
    forall|j: int| 0 <= j < l.len() ==> #[trigger] l[j] != '\n' && l[j] != '\t'
}

pub open spec fn tab_free(s: Seq<char>) -> bool {
    forall|j: int| 0 <= j < s.len() ==> #[trigger] s[j] != '\t'
}

proof fn lemma_expand_tabs_tab_free(s: Seq<char>)
    ensures
        tab_free(spec_expand_tabs(s)),
    decreases s.len(),
{
    if s.len() > 0 {
        lemma_expand_tabs_tab_free(s.drop_last());
        let before = spec_expand_tabs(s.drop_last());
        if s.last() == '\t' {
            let col = column_after(s.drop_last());
            let r = before + spaces((4 - col % 4) as nat);
            assert forall|j: int| 0 <= j < r.len() implies #[trigger] r[j] != '\t' by {
                if j >= before.len() {
                    assert(r[j] == spaces((4 - col % 4) as nat)[j - before.len()]);
                }
            }
        } else {
            let r = before.push(s.last());
            assert forall|j: int| 0 <= j < r.len() implies #[trigger] r[j] != '\t' by {
                if j < before.len() {
                    assert(r[j] == before[j]);
                }
            }
        }
    }
}

proof fn lemma_trim_newlines_tab_free(s: Seq<char>)
    requires
        tab_free(s),
    ensures
        tab_free(drop_leading_newlines(s)),
        tab_free(drop_trailing_newlines(s)),
    decreases s.len(),
{
    if s.len() > 0 {
        let f = s.drop_first();
        let l = s.drop_last();
        assert(tab_free(f)) by {
            assert forall|j: int| 0 <= j < f.len() implies #[trigger] f[j] != '\t' by {
                assert(f[j] == s[j + 1]);
            }
        }
        assert(tab_free(l)) by {
            assert forall|j: int| 0 <= j < l.len() implies #[trigger] l[j] != '\t' by {
                assert(l[j] == s[j]);
            }
        }
        lemma_trim_newlines_tab_free(f);
        lemma_trim_newlines_tab_free(l);
    }
}

/// The pieces of a split hold no line break, and no tab where the text
/// holds none.
proof fn lemma_split_pieces(s: Seq<char>)
    requires
        tab_free(s),
    ensures
        forall|i: int| 0 <= i < spec_split(s).len() ==> tab_free_line(#[trigger] spec_split(s)[i]),
        spec_split(s).len() >= 1,
    decreases s.len(),
{
    if s.len() > 0 {
        let l = s.drop_last();
        assert(tab_free(l)) by {
            assert forall|j: int| 0 <= j < l.len() implies #[trigger] l[j] != '\t' by {
                assert(l[j] == s[j]);
            }
        }
        lemma_split_pieces(l);
        let r = spec_split(l);
        if s.last() != '\n' {
            let piece = r.last().push(s.last());
            assert(tab_free_line(r.last()));
            assert forall|j: int| 0 <= j < piece.len() implies #[trigger] piece[j] != '\n' && piece[j] != '\t' by {
                if j < r.last().len() {
                    assert(piece[j] == r.last()[j]);
                }
            }
            assert forall|i: int| 0 <= i < spec_split(s).len() implies tab_free_line(#[trigger] spec_split(s)[i]) by {
                if i < r.len() - 1 {
                    assert(spec_split(s)[i] == r[i]);
                } else {
                    assert(spec_split(s)[i] == piece);
                }
            }
        } else {
            assert forall|i: int| 0 <= i < spec_split(s).len() implies tab_free_line(#[trigger] spec_split(s)[i]) by {
                if i < r.len() {
                    assert(spec_split(s)[i] == r[i]);
                } else {
                    assert(spec_split(s)[i] =~= seq![]);
                }
            }
        }
    }
}

proof fn lemma_trim_end_prefix(s: Seq<char>)
    ensures
        spec_trim_end(s).len() <= s.len(),
        forall|j: int| 0 <= j < spec_trim_end(s).len() ==> #[trigger] spec_trim_end(s)[j] == s[j],
    decreases s.len(),
{
    if s.len() > 0 && spec_is_whitespace(s.last()) {
        lemma_trim_end_prefix(s.drop_last());
    }
}

/// The lines of a snippet hold no tab and no line break.
proof fn lemma_snippet_lines_tab_free(raw: Seq<char>, source_indent: nat)
    ensures
        ({
            let t = spec_trim_newlines(spec_expand_tabs(raw));
            let ps = without_source_indent(spec_lines(t), source_indent);
            let ms = relative_lines(ps, common_indent(ps));
            forall|i: int| 0 <= i < ms.len() ==> tab_free_line(#[trigger] ms[i])
        }),
{
    let e = spec_expand_tabs(raw);
    lemma_expand_tabs_tab_free(raw);
    lemma_trim_newlines_tab_free(e);
    let d = drop_leading_newlines(e);
    lemma_trim_newlines_tab_free(d);
    let t = spec_trim_newlines(e);
    lemma_split_pieces(t);
    let p = spec_split(t);
    let lines = spec_lines(t);
    assert forall|i: int| 0 <= i < lines.len() implies tab_free_line(#[trigger] lines[i]) by {
        assert(tab_free_line(p[i]));
        if t.last() == '\n' || i < p.len() - 1 {
            assert(lines[i] == strip_cr(p[i]));
            assert forall|j: int| 0 <= j < lines[i].len() implies #[trigger] lines[i][j] != '\n' && lines[i][j] != '\t' by {
                assert(lines[i][j] == p[i][j]);
            }
        } else {
            assert(lines[i] == p[i]);
        }
    }
    let ps = without_source_indent(lines, source_indent);
    assert forall|i: int| 0 <= i < ps.len() implies tab_free_line(#[trigger] ps[i]) by {
        assert(tab_free_line(lines[i]));
        if i > 0 && lines[i].len() >= source_indent && lines[i].take(source_indent as int) == spaces(source_indent) {
            assert forall|j: int| 0 <= j < ps[i].len() implies #[trigger] ps[i][j] != '\n' && ps[i][j] != '\t' by {
                assert(ps[i][j] == lines[i][j + source_indent]);
            }
        }
    }
    let c = common_indent(ps);
    let ms = relative_lines(ps, c);
    assert forall|i: int| 0 <= i < ms.len() implies tab_free_line(#[trigger] ms[i]) by {
        assert(tab_free_line(ps[i]));
        let base = match from_byte(ps[i], c) {
            Some(rest) => rest,
            None => ps[i],
        };
        assert(tab_free_line(base)) by {
            if let Some(rest) = from_byte(ps[i], c) {
                let k = choose|k: int| 0 <= k <= ps[i].len() && spec_utf8_len(#[trigger] ps[i].take(k)) == c;
                assert(rest == ps[i].skip(k));
                assert forall|j: int| 0 <= j < rest.len() implies #[trigger] rest[j] != '\n' && rest[j] != '\t' by {
                    assert(rest[j] == ps[i][j + k]);
                }
            }
        }
        lemma_trim_end_prefix(base);
        assert(ms[i] == spec_trim_end(base));
        assert forall|j: int| 0 <= j < ms[i].len() implies #[trigger] ms[i][j] != '\n' && ms[i][j] != '\t' by {
            assert(ms[i][j] == base[j]);
        }
    }
}

/// The number of characters of all the lines together.
pub open spec fn total_len(ls: Seq<Seq<char>>) -> int
    decreases ls.len(),
{
    if ls.len() == 0 {
        0
    } else {
        total_len(ls.drop_last()) + ls.last().len()
    }
}

proof fn lemma_join_len(ls: Seq<Seq<char>>)
    requires
        ls.len() >= 1,
    ensures
        spec_join(ls).len() == total_len(ls) + ls.len() - 1,
    decreases ls.len(),
{
    if ls.len() > 1 {
        lemma_join_len(ls.drop_last());
        assert(spec_join(ls) == spec_join(ls.drop_last()) + seq!['\n'] + ls.last());
    } else {
        assert(ls.drop_last().len() == 0);
        assert(total_len(ls.drop_last()) == 0);
        assert(ls.last() == ls[0]);
    }
}

proof fn lemma_split_total(s: Seq<char>)
    ensures
        total_len(spec_split(s)) + spec_split(s).len() - 1 == s.len(),
        spec_split(s).len() >= 1,
    decreases s.len(),
{
    if s.len() == 0 {
        let r = spec_split(s);
        assert(r.drop_last().len() == 0);
        assert(total_len(r.drop_last()) == 0);
        assert(r.last().len() == 0);
    } else {
        lemma_split_total(s.drop_last());
        let r = spec_split(s.drop_last());
        if s.last() == '\n' {
            let u = r.push(seq![]);
            assert(u.drop_last() =~= r);
            assert(u.last().len() == 0);
            assert(spec_split(s) == u);
        } else {
            let u = r.update(r.len() - 1, r.last().push(s.last()));
            assert(u.drop_last() =~= r.drop_last());
            assert(u.last() == r.last().push(s.last()));
            assert(total_len(r) == total_len(r.drop_last()) + r.last().len());
            assert(total_len(u) == total_len(u.drop_last()) + u.last().len());
            assert(spec_split(s) == u);
        }
    }
}

proof fn lemma_total_le(a: Seq<Seq<char>>, b: Seq<Seq<char>>)
    requires
        a.len() == b.len(),
        forall|i: int| 0 <= i < a.len() ==> (#[trigger] a[i]).len() <= b[i].len(),
    ensures
        total_len(a) <= total_len(b),
    decreases a.len(),
{
    if a.len() > 0 {
        assert forall|i: int| 0 <= i < a.drop_last().len() implies (#[trigger] a.drop_last()[i]).len() <= b.drop_last()[i].len() by {
            assert(a.drop_last()[i] == a[i]);
            assert(b.drop_last()[i] == b[i]);
        }
        lemma_total_le(a.drop_last(), b.drop_last());
    }
}

proof fn lemma_total_take(ls: Seq<Seq<char>>, n: int)
    requires
        0 <= n <= ls.len(),
    ensures
        total_len(ls.take(n)) <= total_len(ls),
    decreases ls.len() - n,
{
    if n < ls.len() {
        lemma_total_take(ls, n + 1);
        assert(ls.take(n + 1).drop_last() =~= ls.take(n));
    } else {
        assert(ls.take(n) =~= ls);
    }
}

/// A snippet is no longer than the text it was cut from once tabs are
/// expanded and surrounding newlines dropped.
proof fn lemma_snippet_len(raw: Seq<char>, source_indent: nat)
    ensures
        ({
            let t = spec_trim_newlines(spec_expand_tabs(raw));
            let ps = without_source_indent(spec_lines(t), source_indent);
            let ms = relative_lines(ps, common_indent(ps));
            ms.len() >= 1 ==> spec_join(ms).len() <= t.len()
        }),
{
    let t = spec_trim_newlines(spec_expand_tabs(raw));
    let p = spec_split(t);
    let lines = spec_lines(t);
    let ps = without_source_indent(lines, source_indent);
    let c = common_indent(ps);
    let ms = relative_lines(ps, c);
    if ms.len() >= 1 {
        lemma_split_total(t);
        assert(t.len() > 0);
        assert(lines.len() <= p.len());
        assert forall|i: int| 0 <= i < ms.len() implies (#[trigger] ms[i]).len() <= p.take(ms.len() as int)[i].len() by {
            assert(p.take(ms.len() as int)[i] == p[i]);
            assert(lines[i].len() <= p[i].len());
            assert(ps[i].len() <= lines[i].len());
            let base = match from_byte(ps[i], c) {
                Some(rest) => rest,
                None => ps[i],
            };
            if let Some(rest) = from_byte(ps[i], c) {
                let k = choose|k: int| 0 <= k <= ps[i].len() && spec_utf8_len(#[trigger] ps[i].take(k)) == c;
                assert(rest == ps[i].skip(k));
            }
            assert(base.len() <= ps[i].len());
            lemma_trim_end_prefix(base);
        }
        lemma_total_le(ms, p.take(ms.len() as int));
        lemma_total_take(p, ms.len() as int);
        lemma_join_len(ms);
    }
}

proof fn lemma_trim_start_facts(s: Seq<char>)
    ensures
        spec_trim_start(s) == s.skip(s.len() - spec_trim_start(s).len()),
        spec_trim_start(s).len() <= s.len(),
        spec_trim_start(s).len() > 0 ==> !spec_is_whitespace(spec_trim_start(s)[0]),
        nonblank(s) <==> exists|j: int| 0 <= j < s.len() && !spec_is_whitespace(#[trigger] s[j]),
    decreases s.len(),
{
    if s.len() > 0 && spec_is_whitespace(s[0]) {
        let f = s.drop_first();
        lemma_trim_start_facts(f);
        assert(f.skip(f.len() - spec_trim_start(f).len()) =~= s.skip(s.len() - spec_trim_start(s).len()));
        if nonblank(s) {
            let j = choose|j: int| 0 <= j < f.len() && !spec_is_whitespace(#[trigger] f[j]);
            assert(s[j + 1] == f[j]);
        }
        if exists|j: int| 0 <= j < s.len() && !spec_is_whitespace(#[trigger] s[j]) {
            let j = choose|j: int| 0 <= j < s.len() && !spec_is_whitespace(#[trigger] s[j]);
            assert(j > 0);
            assert(f[j - 1] == s[j]);
        }
    } else {
        assert(s.skip(0) =~= s);
        if s.len() > 0 {
            assert(!spec_is_whitespace(s[0]));
        }
    }
}

proof fn lemma_least_indent(ls: Seq<Seq<char>>)
    ensures
        least_indent(ls) matches Some(n) ==> exists|i: int|
            0 <= i < ls.len() && nonblank(ls[i]) && #[trigger] indent_of(ls[i]) == n,
        (exists|i: int| 0 <= i < ls.len() && #[trigger] nonblank(ls[i])) ==> least_indent(ls) is Some,
    decreases ls.len(),
{
    if ls.len() > 0 {
        let rest = ls.drop_last();
        lemma_least_indent(rest);
        let last = ls.len() - 1;
        if let Some(n) = least_indent(ls) {
            if least_indent(rest) == Some(n) && !(nonblank(ls[last]) && indent_of(ls[last]) == n) {
                let i = choose|i: int| 0 <= i < rest.len() && nonblank(rest[i]) && #[trigger] indent_of(rest[i]) == n;
                assert(rest[i] == ls[i]);
            }
        }
        if exists|i: int| 0 <= i < ls.len() && #[trigger] nonblank(ls[i]) {
            let i = choose|i: int| 0 <= i < ls.len() && #[trigger] nonblank(ls[i]);
            if i < last {
                assert(rest[i] == ls[i]);
            }
        }
    }
}

proof fn lemma_trim_end_keeps_first(x: Seq<char>)
    requires
        x.len() > 0,
        !spec_is_whitespace(x[0]),
    ensures
        spec_trim_end(x).len() >= 1,
    decreases x.len(),
{
    if spec_is_whitespace(x.last()) {
        assert(x.len() > 1);
        assert(x.drop_last()[0] == x[0]);
        lemma_trim_end_keeps_first(x.drop_last());
    }
}

/// Some non-blank line of a snippet starts at the margin.
proof fn lemma_snippet_has_margin_line(raw: Seq<char>, source_indent: nat)
    requires
        spec_normalize(raw, source_indent) is Some,
    ensures
        ({
            let t = spec_trim_newlines(spec_expand_tabs(raw));
            let ps = without_source_indent(spec_lines(t), source_indent);
            let ms = relative_lines(ps, common_indent(ps));
            exists|i: int| 0 <= i < ms.len() && nonblank(ms[i]) && #[trigger] indent_of(ms[i]) == 0
        }),
{
    let t = spec_trim_newlines(spec_expand_tabs(raw));
    let ps = without_source_indent(spec_lines(t), source_indent);
    let c = common_indent(ps);
    let ms = relative_lines(ps, c);
    lemma_least_positive_indent(ms);
    let n = least_positive_indent(ms)->0;
    let i1 = choose|i: int| 0 <= i < ms.len() && nonblank(ms[i]) && #[trigger] indent_of(ms[i]) == n;
    lemma_trim_start_facts(ms[i1]);
    let j = choose|j: int| 0 <= j < ms[i1].len() && !spec_is_whitespace(#[trigger] ms[i1][j]);
    let base1 = match from_byte(ps[i1], c) {
        Some(rest) => rest,
        None => ps[i1],
    };
    lemma_trim_end_prefix(base1);
    assert(ms[i1][j] == base1[j]);
    let k1: int = if let Some(rest) = from_byte(ps[i1], c) {
        choose|k: int| 0 <= k <= ps[i1].len() && spec_utf8_len(#[trigger] ps[i1].take(k)) == c
    } else {
        0
    };
    assert(base1 == ps[i1].skip(k1));
    assert(ps[i1][j + k1] == base1[j]);
    lemma_trim_start_facts(ps[i1]);
    assert(nonblank(ps[i1]));
    lemma_least_indent(ps);
    assert(least_indent(ps) == Some(c));
    let i0 = choose|i: int| 0 <= i < ps.len() && nonblank(ps[i]) && #[trigger] indent_of(ps[i]) == c;
    let l = ps[i0];
    lemma_trim_start_facts(l);
    let w = l.len() - spec_trim_start(l).len();
    assert(spec_utf8_len(l.take(w)) == c);
    assert(from_byte(l, c) is Some);
    let k = choose|k: int| 0 <= k <= l.len() && spec_utf8_len(#[trigger] l.take(k)) == c;
    if k < w {
        lemma_utf8_len_strict(l, k, w);
    } else if k > w {
        lemma_utf8_len_strict(l, w, k);
    }
    let rest = l.skip(w);
    assert(rest == spec_trim_start(l));
    assert(ms[i0] == spec_trim_end(rest));
    lemma_trim_end_keeps_first(rest);
    lemma_trim_end_prefix(rest);
    let line = ms[i0];
    assert(line[0] == rest[0]);
    assert(spec_trim_start(line) == line);
    assert(line.take(0) =~= seq![]);
    assert(indent_of(line) == 0);
}

/// A snippet is a run of lines joined by line breaks: between 3 and 20 of
/// them, at most 600 characters in all, none longer than 88 characters or ending in whitespace, none
/// holding a tab or a line break of its own, every character typable; some
/// non-blank line starts at the margin, some is indented, and every
/// indented non-blank line by at least two columns.
pub proof fn law_snippet_shape(raw: Seq<char>, source_indent: nat)
    requires
        spec_normalize(raw, source_indent) is Some,
    ensures
        exists|ls: Seq<Seq<char>>| {
            &&& spec_normalize(raw, source_indent) == Some(spec_join(ls))
            &&& 3 <= ls.len() <= 20
            &&& spec_join(ls).len() <= 600
            &&& forall|i: int| 0 <= i < ls.len() ==> (#[trigger] ls[i]).len() <= 88
            &&& forall|i: int| 0 <= i < ls.len() && ls[i].len() > 0 ==> !spec_is_whitespace((#[trigger] ls[i]).last())
            &&& forall|i: int, j: int| 0 <= i < ls.len() && 0 <= j < ls[i].len() ==> typable(#[trigger] ls[i][j])
            &&& forall|i: int| 0 <= i < ls.len() ==> tab_free_line(#[trigger] ls[i])
            &&& exists|i: int| 0 <= i < ls.len() && nonblank(ls[i]) && #[trigger] indent_of(ls[i]) == 0
            &&& exists|i: int| 0 <= i < ls.len() && nonblank(ls[i]) && #[trigger] indent_of(ls[i]) >= 2
            &&& forall|i: int| 0 <= i < ls.len() && nonblank(ls[i]) && #[trigger] indent_of(ls[i]) > 0 ==> indent_of(ls[i]) >= 2
        },
{
    let t = spec_trim_newlines(spec_expand_tabs(raw));
    let lines = spec_lines(t);
    let ps = without_source_indent(lines, source_indent);
    let ms = relative_lines(ps, common_indent(ps));
    assert(ms.len() == lines.len());
    lemma_least_positive_indent(ms);
    lemma_snippet_lines_tab_free(raw, source_indent);
    lemma_snippet_len(raw, source_indent);
    lemma_snippet_has_margin_line(raw, source_indent);
    assert forall|i: int| 0 <= i < ms.len() && ms[i].len() > 0 implies !spec_is_whitespace((#[trigger] ms[i]).last()) by {
        lemma_trim_end_clean(
            match from_byte(ps[i], common_indent(ps)) {
                Some(rest) => rest,
                None => ps[i],
            },
        );
    }
    let n = least_positive_indent(ms)->0;
    let i = choose|i: int| 0 <= i < ms.len() && nonblank(ms[i]) && #[trigger] indent_of(ms[i]) == n;
    assert(indent_of(ms[i]) >= 2);
}

/// The text with `k` spaces put after every line break: the same block
/// of code nested `k` columns deeper in a file.
pub open spec fn nested_by(c: Seq<char>, k: nat) -> Seq<char>
    decreases c.len(),
{
    if c.len() == 0 {
        seq![]
    } else if c.last() == '\n' {
        nested_by(c.drop_last(), k).push('\n') + spaces(k)
    } else {
        nested_by(c.drop_last(), k).push(c.last())
    }
}

/// The lines of `p` are those of `q`, all but the first moved right by `k`
/// spaces.
pub open spec fn moved_right(p: Seq<Seq<char>>, q: Seq<Seq<char>>, k: nat) -> bool {
    &&& p.len() == q.len()
    &&& p.len() >= 1 ==> p[0] == q[0]
    &&& forall|i: int| 1 <= i < p.len() ==> #[trigger] p[i] == spaces(k) + q[i]
}

proof fn lemma_split_push(x: Seq<char>, ch: char)
    ensures
        spec_split(x.push(ch)) == (if ch == '\n' {
            spec_split(x).push(seq![])
        } else {
            spec_split(x).update(spec_split(x).len() - 1, spec_split(x).last().push(ch))
        }),
{
    assert(x.push(ch).drop_last() =~= x);
}

proof fn lemma_split_spaces(x: Seq<char>, k: nat)
    ensures
        spec_split(x + spaces(k)).len() == spec_split(x).len(),
        spec_split(x + spaces(k)) == spec_split(x).update(spec_split(x).len() - 1, spec_split(x).last() + spaces(k)),
    decreases k,
{
    lemma_split_len(x);
    if k == 0 {
        assert(x + spaces(0) =~= x);
        assert(spec_split(x).last() + spaces(0) =~= spec_split(x).last());
        assert(spec_split(x).update(spec_split(x).len() - 1, spec_split(x).last()) =~= spec_split(x));
    } else {
        let k1 = (k - 1) as nat;
        lemma_split_spaces(x, k1);
        assert(x + spaces(k) =~= (x + spaces(k1)).push(' '));
        lemma_split_push(x + spaces(k1), ' ');
        let p = spec_split(x);
        assert(p.last() + spaces(k) =~= (p.last() + spaces(k1)).push(' '));
        assert(spec_split(x + spaces(k)) =~= p.update(p.len() - 1, p.last() + spaces(k)));
    }
}

proof fn lemma_split_nested(c: Seq<char>, k: nat)
    ensures
        moved_right(spec_split(nested_by(c, k)), spec_split(c), k),
    decreases c.len(),
{
    lemma_split_len(c);
    if c.len() > 0 {
        let c1 = c.drop_last();
        lemma_split_nested(c1, k);
        lemma_split_len(c1);
        assert(c =~= c1.push(c.last()));
        lemma_split_push(c1, c.last());
        let n1 = nested_by(c1, k);
        lemma_split_len(n1);
        let p1 = spec_split(n1);
        let q1 = spec_split(c1);
        let p = spec_split(nested_by(c, k));
        let q = spec_split(c);
        if c.last() == '\n' {
            lemma_split_push(n1, '\n');
            lemma_split_spaces(n1.push('\n'), k);
            assert(p == p1.push(seq![]).update(p1.len() as int, seq![] + spaces(k)));
            assert(q == q1.push(seq![]));
            assert forall|i: int| 1 <= i < p.len() implies #[trigger] p[i] == spaces(k) + q[i] by {
                if i < p1.len() {
                    assert(p[i] == p1[i]);
                    assert(q[i] == q1[i]);
                } else {
                    assert(spaces(k) + seq![] =~= seq![] + spaces(k));
                }
            }
        } else {
            lemma_split_push(n1, c.last());
            let last = p1.len() - 1;
            assert forall|i: int| 1 <= i < p.len() implies #[trigger] p[i] == spaces(k) + q[i] by {
                if i < last {
                    assert(p[i] == p1[i]);
                    assert(q[i] == q1[i]);
                } else {
                    assert(p1[i] == spaces(k) + q1[i]);
                    assert(spaces(k) + q1[i].push(c.last()) =~= (spaces(k) + q1[i]).push(c.last()));
                }
            }
        }
    }
}

proof fn lemma_nested_shape(c: Seq<char>, k: nat)
    ensures
        nested_by(c, k).len() >= c.len(),
        c.len() > 0 ==> nested_by(c, k).len() > 0 && nested_by(c, k)[0] == c[0],
        c.len() > 0 && c.last() != '\n' ==> nested_by(c, k).last() == c.last(),
        tab_free(c) ==> tab_free(nested_by(c, k)),
    decreases c.len(),
{
    if c.len() > 0 {
        let c1 = c.drop_last();
        lemma_nested_shape(c1, k);
        if tab_free(c) {
            assert(tab_free(c1)) by {
                assert forall|j: int| 0 <= j < c1.len() implies #[trigger] c1[j] != '\t' by {
                    assert(c1[j] == c[j]);
                }
            }
        }
        let n1 = nested_by(c1, k);
        if c.last() == '\n' {
            let n = n1.push('\n') + spaces(k);
            if c1.len() > 0 {
                assert(n[0] == n1[0]);
            }
            if tab_free(c) {
                assert forall|j: int| 0 <= j < n.len() implies #[trigger] n[j] != '\t' by {
                    if j < n1.len() {
                        assert(n[j] == n1[j]);
                    } else if j > n1.len() {
                        assert(n[j] == spaces(k)[j - n1.len() - 1]);
                    }
                }
            }
        } else {
            let n = n1.push(c.last());
            if c1.len() > 0 {
                assert(n[0] == n1[0]);
            }
            if tab_free(c) {
                assert forall|j: int| 0 <= j < n.len() implies #[trigger] n[j] != '\t' by {
                    if j < n1.len() {
                        assert(n[j] == n1[j]);
                    }
                }
            }
        }
    }
}

proof fn lemma_expand_tab_free(s: Seq<char>)
    requires
        tab_free(s),
    ensures
        spec_expand_tabs(s) == s,
    decreases s.len(),
{
    if s.len() > 0 {
        let s1 = s.drop_last();
        assert(tab_free(s1)) by {
            assert forall|j: int| 0 <= j < s1.len() implies #[trigger] s1[j] != '\t' by {
                assert(s1[j] == s[j]);
            }
        }
        lemma_expand_tab_free(s1);
        assert(s1.push(s.last()) =~= s);
    }
}

proof fn lemma_trim_newlines_id(s: Seq<char>)
    requires
        s.len() > 0,
        s[0] != '\n',
        s.last() != '\n',
    ensures
        spec_trim_newlines(s) == s,
{
}

/// The lines of a text and of the same text nested deeper.
proof fn lemma_lines_nested(c: Seq<char>, k: nat)
    requires
        c.len() > 0,
        c.last() != '\n',
    ensures
        moved_right(spec_lines(nested_by(c, k)), spec_lines(c), k),
{
    let n = nested_by(c, k);
    lemma_nested_shape(c, k);
    lemma_split_nested(c, k);
    lemma_split_len(c);
    let p = spec_split(n);
    let q = spec_split(c);
    let lp = spec_lines(n);
    let lq = spec_lines(c);
    assert forall|i: int| 1 <= i < lp.len() implies #[trigger] lp[i] == spaces(k) + lq[i] by {
        assert(p[i] == spaces(k) + q[i]);
        if i < p.len() - 1 {
            if q[i].len() > 0 {
                assert((spaces(k) + q[i]).last() == q[i].last());
                if q[i].last() == '\r' {
                    assert((spaces(k) + q[i]).drop_last() =~= spaces(k) + q[i].drop_last());
                }
            } else if k > 0 {
                assert((spaces(k) + q[i]).last() == ' ');
            }
        }
    }
}

/// A block of code gives the same snippet wherever it is nested: the code
/// moved `k` columns right after every line break and normalised from
/// column `k` gives what the code itself gives from the margin. (Tab-free
/// code, neither starting nor ending with a line break, whose size passes
/// the size limit both ways.)
pub proof fn law_nesting_does_not_change_the_snippet(c: Seq<char>, k: nat)
    requires
        tab_free(c),
        c.len() > 0,
        c[0] != '\n',
        c.last() != '\n',
        100 <= c.len(),
        nested_by(c, k).len() <= 600,
    ensures
        spec_normalize(nested_by(c, k), k) == spec_normalize(c, 0),
{
    let n = nested_by(c, k);
    lemma_nested_shape(c, k);
    lemma_expand_tab_free(c);
    lemma_expand_tab_free(n);
    lemma_trim_newlines_id(c);
    lemma_trim_newlines_id(n);
    lemma_lines_nested(c, k);
    let ln = spec_lines(n);
    let lc = spec_lines(c);
    let pn = without_source_indent(ln, k);
    let pc = without_source_indent(lc, 0);
    assert forall|i: int| 0 <= i < pn.len() implies #[trigger] pn[i] == pc[i] by {
        if i == 0 {
        } else {
            assert(ln[i] == spaces(k) + lc[i]);
            assert(ln[i].take(k as int) =~= spaces(k));
            assert(ln[i].skip(k as int) =~= lc[i]);
            assert(lc[i].take(0) =~= spaces(0));
            assert(lc[i].skip(0) =~= lc[i]);
        }
    }
    assert(pn =~= pc);
}

} // verus!
