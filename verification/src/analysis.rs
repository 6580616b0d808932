//! Per-line figures of a finished session for the analysis screen: where
//! each line of the text starts, how long it took, how many of its
//! characters ended correct, and which keys were wrong.
use vstd::prelude::*;

use crate::layout::{spec_visible_mistake, visible_mistake};
use crate::session::{KeystrokeEvent, ProgressEvent};
use crate::snippet::{lemma_split_len, spec_split};
use crate::text::chars_of;

verus! {

broadcast use vstd::string::group_string_axioms;

/// One line of the analysed text.
#[derive(Debug, Clone)]
pub struct LineSummary {
    /// 1-based line number.
    pub number: usize,
    /// Position of the line's first character in the text.
    pub start_position: usize,
    /// Characters of the line, without its line break.
    pub length: usize,
    pub start_ms: u64,
    pub end_ms: u64,
    /// Positions of the line (its line break included) that ended correct.
    pub correct: usize,
    /// Indices (into the keystroke log) of the line's wrong keys.
    pub mistakes: Vec<usize>,
}

/// Position where line `i` starts: each earlier line and its line break.
pub open spec fn line_start(pieces: Seq<Seq<char>>, i: int) -> nat
    decreases i,
{
    if i <= 0 {
        0
    } else {
        line_start(pieces, i - 1) + pieces[i - 1].len() + 1
    }
}

/// Position just past line `i`, its line break included.
pub open spec fn line_stop(pieces: Seq<Seq<char>>, i: int) -> nat {
    line_start(pieces, i) + pieces[i].len() + if i + 1 < pieces.len() { 1nat } else { 0nat }
}

/// The latest time of a key press at a position in `[lo, hi)`, over the first `n` presses.
pub open spec fn latest_in(events: Seq<KeystrokeEvent>, lo: nat, hi: nat, n: int) -> Option<u64>
    decreases n,
{
    if n <= 0 {
        None
    } else {
        let rest = latest_in(events, lo, hi, n - 1);
        let e = events[n - 1];
        if lo <= e.position < hi {
            match rest {
                Some(t) => Some(if e.elapsed_ms > t { e.elapsed_ms } else { t }),
                None => Some(e.elapsed_ms),
            }
        } else {
            rest
        }
    }
}

/// Where the caret stood at the end: at the final position, at most the last character.
pub open spec fn active_position(text_len: nat, final_cursor: usize) -> int {
    let last = if text_len > 0 { text_len - 1 } else { 0 };
    if final_cursor <= last { final_cursor as int } else { last }
}

/// When line `i` ended: its latest key press (never before the end of the
/// line above it), or the end of the session for the line the caret ended on.
pub open spec fn line_end_ms(
    pieces: Seq<Seq<char>>,
    events: Seq<KeystrokeEvent>,
    active: int,
    duration_ms: u64,
    i: int,
) -> u64
    decreases i,
{
    if i < 0 {
        0
    } else {
        let previous = if i == 0 { 0 } else { line_end_ms(pieces, events, active, duration_ms, i - 1) };
        let lo = line_start(pieces, i);
        let hi = line_stop(pieces, i);
        let latest = match latest_in(events, lo, hi, events.len() as int) {
            Some(t) => if t > previous { t } else { previous },
            None => previous,
        };
        if lo <= active < hi && duration_ms > latest {
            duration_ms
        } else {
            latest
        }
    }
}

/// Number of `true` among the first `n` flags.
pub open spec fn count_true(flags: Seq<bool>, n: int) -> nat
    decreases n,
{
    if n <= 0 {
        0
    } else {
        count_true(flags, n - 1) + if flags[n - 1] { 1nat } else { 0nat }
    }
}

/// Correct positions of a line: none when the line reaches past the recorded flags.
pub open spec fn correct_in(flags: Seq<bool>, lo: nat, hi: nat) -> nat {
    if hi <= flags.len() && lo <= hi {
        (count_true(flags, hi as int) - count_true(flags, lo as int)) as nat
    } else {
        0
    }
}

/// Whether a logged key press is a wrong key on a line.
pub open spec fn wrong_key_in(e: KeystrokeEvent, lo: nat, hi: nat) -> bool {
    lo <= e.position < hi && e.typed != e.expected
}

pub open spec fn summarises(
    s: LineSummary,
    pieces: Seq<Seq<char>>,
    events: Seq<KeystrokeEvent>,
    flags: Seq<bool>,
    active: int,
    duration_ms: u64,
    i: int,
) -> bool {
    let lo = line_start(pieces, i);
    let hi = line_stop(pieces, i);
    &&& s.number == i + 1
    &&& s.start_position == lo
    &&& s.length == pieces[i].len()
    &&& s.start_ms == (if i == 0 { 0 } else { line_end_ms(pieces, events, active, duration_ms, i - 1) })
    &&& s.end_ms == line_end_ms(pieces, events, active, duration_ms, i)
    &&& s.correct == correct_in(flags, lo, hi)
    &&& s.mistakes@ == Seq::new(events.len(), |k: int| k as usize).filter(|k: usize| wrong_key_in(events[k as int], lo, hi))
}


proof fn lemma_line_start_prefix(p: Seq<Seq<char>>, r: Seq<Seq<char>>, i: int)
    requires
        0 <= i <= p.len(),
        i <= r.len(),
        forall|j: int| 0 <= j < i ==> p[j] == r[j],
    ensures
        line_start(p, i) == line_start(r, i),
    decreases i,
{
    if i > 0 {
        lemma_line_start_prefix(p, r, i - 1);
    }
}

/// The lines and the line breaks between them make up the whole text.
proof fn lemma_split_total(s: Seq<char>)
    ensures
        spec_split(s).len() >= 1,
        line_start(spec_split(s), spec_split(s).len() - 1) + spec_split(s).last().len() == s.len(),
    decreases s.len(),
{
    lemma_split_len(s);
    if s.len() > 0 {
        let t = s.drop_last();
        let r = spec_split(t);
        lemma_split_total(t);
        let m = r.len() as int;
        let p = spec_split(s);
        if s.last() == '\n' {
            lemma_line_start_prefix(p, r, m - 1);
        } else {
            lemma_line_start_prefix(p, r, m - 1);
        }
    }
}

proof fn lemma_line_start_grows(p: Seq<Seq<char>>, i: int, j: int)
    requires
        0 <= i <= j <= p.len(),
    ensures
        line_start(p, i) <= line_start(p, j),
    decreases j - i,
{
    if i < j {
        lemma_line_start_grows(p, i, j - 1);
    }
}

/// Lengths of the pieces between newlines.
fn piece_lengths(v: &Vec<char>) -> (r: Vec<usize>)
    ensures
        r@.len() == spec_split(v@).len(),
        forall|i: int| 0 <= i < r@.len() ==> r@[i] == (#[trigger] spec_split(v@)[i]).len(),
{
    let mut r: Vec<usize> = Vec::new();
    r.push(0);
    let mut i: usize = 0;
    assert(v@.take(0) =~= Seq::<char>::empty());
    while i < v.len()
        invariant
            i <= v@.len(),
            r@.len() == spec_split(v@.take(i as int)).len(),
            forall|q: int| 0 <= q < r@.len() ==> r@[q] == (#[trigger] spec_split(v@.take(i as int))[q]).len(),
            r@.len() >= 1,
            forall|q: int| 0 <= q < r@.len() ==> r@[q] <= i,
        decreases v@.len() - i,
    {
        proof {
            assert(v@.take(i + 1).drop_last() =~= v@.take(i as int));
            assert(v@.take(i + 1).last() == v@[i as int]);
            lemma_split_len(v@.take(i as int));
        }
        if v[i] == '\n' {
            r.push(0);
        } else {
            let last = r.len() - 1;
            let value = r[last] + 1;
            r.set(last, value);
        }
        i += 1;
    }
    assert(v@.take(i as int) =~= v@);
    r
}

/// When the last progress event at or before `end_ms` was recorded, how
/// many characters were correct then; 0 before the first event.
pub open spec fn correct_at(events: Seq<ProgressEvent>, end_ms: u64) -> u32
    decreases events.len(),
{
    if events.len() == 0 {
        0
    } else if events.last().elapsed_ms <= end_ms {
        events.last().correct_chars
    } else {
        correct_at(events.drop_last(), end_ms)
    }
}

/// Correct characters at a moment of the session, from the progress timeline.
pub fn correct_chars_at(events: &Vec<ProgressEvent>, end_ms: u64) -> (r: u32)
    ensures
        r == correct_at(events@, end_ms),
{
    let mut k = events.len();
    assert(events@.take(k as int) =~= events@);
    while k > 0
        invariant
            k <= events@.len(),
            correct_at(events@, end_ms) == correct_at(events@.take(k as int), end_ms),
        decreases k,
    {
        proof {
            assert(events@.take(k as int).drop_last() =~= events@.take(k - 1));
            assert(events@.take(k as int).last() == events@[k - 1]);
        }
        if events[k - 1].elapsed_ms <= end_ms {
            return events[k - 1].correct_chars;
        }
        k -= 1;
    }
    0
}

/// The lines of a finished session's text with their timing, correct
/// positions and wrong keys. `duration_ms` is the session's length.
pub fn line_analyses(
    text: &str,
    events: &Vec<KeystrokeEvent>,
    correct_positions: &Vec<bool>,
    final_cursor: usize,
    duration_ms: u64,
) -> (r: Vec<LineSummary>)
    ensures
        r@.len() == spec_split(text@).len(),
        forall|i: int|
            0 <= i < r@.len() ==> summarises(
                #[trigger] r@[i],
                spec_split(text@),
                events@,
                correct_positions@,
                active_position(text@.len(), final_cursor),
                duration_ms,
                i,
            ),
{
    let v = chars_of(text);
    let lens = piece_lengths(&v);
    let ghost pieces = spec_split(text@);
    let ghost active_spec = active_position(text@.len(), final_cursor);
    proof {
        lemma_split_total(text@);
    }
    let total = v.len();
    assert(total == v@.len());
    let last = if total > 0 { total - 1 } else { 0 };
    let active = if final_cursor <= last { final_cursor } else { last };
    let n = lens.len();
    let mut out: Vec<LineSummary> = Vec::new();
    let mut offset: usize = 0;
    let mut previous_end: u64 = 0;
    let mut i: usize = 0;
    while i < n
        invariant
            v@ == text@,
            pieces == spec_split(text@),
            n == pieces.len(),
            n >= 1,
            lens@.len() == n,
            forall|q: int| 0 <= q < n ==> lens@[q] == (#[trigger] pieces[q]).len(),
            line_start(pieces, n - 1) + pieces[n - 1].len() == v@.len(),
            active as int == active_spec,
            i <= n,
            v@.len() <= usize::MAX,
            i < n ==> offset == line_start(pieces, i as int),
            i > 0 ==> previous_end == line_end_ms(pieces, events@, active_spec, duration_ms, i - 1),
            i == 0 ==> previous_end == 0,
            out@.len() == i,
            forall|q: int|
                0 <= q < i ==> summarises(#[trigger] out@[q], pieces, events@, correct_positions@, active_spec, duration_ms, q),
        decreases n - i,
    {
        proof {
            if i + 1 < n {
                lemma_line_start_grows(pieces, i + 1, n - 1);
                assert(line_start(pieces, i + 1) == line_start(pieces, i as int) + pieces[i as int].len() + 1);
            }
        }
        let end = offset + lens[i] + if i + 1 < n { 1 } else { 0 };
        let ghost lo = line_start(pieces, i as int);
        let ghost hi = line_stop(pieces, i as int);
        assert(end == hi);
        let mut latest: Option<u64> = None;
        let mut mistakes: Vec<usize> = Vec::new();
        let ghost wrong = |k: usize| wrong_key_in(events@[k as int], lo, hi);
        let mut k: usize = 0;
        while k < events.len()
            invariant
                k <= events@.len(),
                offset == lo,
                end == hi,
                wrong == (|k: usize| wrong_key_in(events@[k as int], lo, hi)),
                latest == latest_in(events@, lo, hi, k as int),
                mistakes@ == Seq::new(k as nat, |q: int| q as usize).filter(wrong),
            decreases events@.len() - k,
        {
            let e = events[k];
            proof {
                reveal(Seq::filter);
                assert(Seq::new((k + 1) as nat, |q: int| q as usize).drop_last() =~= Seq::new(k as nat, |q: int| q as usize));
                assert(Seq::new((k + 1) as nat, |q: int| q as usize).last() == k);
            }
            if offset <= e.position && e.position < end {
                latest = match latest {
                    Some(t) => Some(if e.elapsed_ms > t { e.elapsed_ms } else { t }),
                    None => Some(e.elapsed_ms),
                };
                if e.typed != e.expected {
                    mistakes.push(k);
                }
            }
            k += 1;
        }
        let mut end_ms = match latest {
            Some(t) => if t > previous_end { t } else { previous_end },
            None => previous_end,
        };
        if offset <= active && active < end && duration_ms > end_ms {
            end_ms = duration_ms;
        }
        let mut correct: usize = 0;
        if end <= correct_positions.len() {
            let mut j = offset;
            while j < end
                invariant
                    offset <= j <= end <= correct_positions@.len(),
                    correct == count_true(correct_positions@, j as int) - count_true(correct_positions@, offset as int),
                    correct <= j - offset,
                decreases end - j,
            {
                if correct_positions[j] {
                    correct += 1;
                }
                j += 1;
            }
        }
        proof {
            assert(Seq::new(events@.len(), |q: int| q as usize) =~= Seq::new(k as nat, |q: int| q as usize));
        }
        out.push(LineSummary {
            number: i + 1,
            start_position: offset,
            length: lens[i],
            start_ms: previous_end,
            end_ms,
            correct,
            mistakes,
        });
        offset = end;
        previous_end = end_ms;
        i += 1;
    }
    out
}

/// The keys, shown visibly and separated by slashes.
pub open spec fn spec_join_visible(typed: Seq<char>) -> Seq<char>
    decreases typed.len(),
{
    if typed.len() == 0 {
        seq![]
    } else if typed.len() == 1 {
        spec_visible_mistake(typed[0])
    } else {
        spec_join_visible(typed.drop_last()) + "/"@ + spec_visible_mistake(typed.last())
    }
}

/// A mistake as the analysis lists it: the expected key, an arrow, and the
/// keys typed in its place, such as `c→x/y`.
pub fn format_error(expected: char, typed: &Vec<char>) -> (r: String)
    ensures
        r@ == spec_visible_mistake(expected) + "→"@ + spec_join_visible(typed@),
{
    let mut r = visible_mistake(expected);
    r.append("→");
    let ghost head = r@;
    let mut i: usize = 0;
    while i < typed.len()
        invariant
            i <= typed@.len(),
            r@ == head + spec_join_visible(typed@.take(i as int)),
        decreases typed@.len() - i,
    {
        let ghost before = r@;
        if i > 0 {
            r.append("/");
        }
        let shown = visible_mistake(typed[i]);
        r.append(shown.as_str());
        proof {
            let t = typed@.take(i + 1);
            assert(t.drop_last() =~= typed@.take(i as int));
            assert(t.last() == typed@[i as int]);
            if i == 0 {
                assert(t.len() == 1);
                assert(typed@.take(0) =~= Seq::<char>::empty());
                assert(r@ =~= head + spec_join_visible(t));
            } else {
                assert(r@ =~= head + spec_join_visible(t));
            }
        }
        i += 1;
    }
    assert(typed@.take(i as int) =~= typed@);
    r
}

/// A line's listed wrong keys are exactly the logged key presses on that
/// line (its line break included) whose typed key differs from the
/// character expected there, each listed once, in the order they were
/// pressed. Whether a key was accepted plays no part: a right key pressed
/// while a strict-mode mistake holds the caret is not listed.
pub proof fn law_line_mistakes_are_wrong_keys(
    s: LineSummary,
    pieces: Seq<Seq<char>>,
    events: Seq<KeystrokeEvent>,
    flags: Seq<bool>,
    active: int,
    duration_ms: u64,
    i: int,
)
    requires
        summarises(s, pieces, events, flags, active, duration_ms, i),
        events.len() <= usize::MAX,
    ensures
        forall|q: int| 0 <= q < s.mistakes@.len() ==> {
            let k = #[trigger] s.mistakes@[q] as int;
            &&& 0 <= k < events.len()
            &&& line_start(pieces, i) <= events[k].position < line_stop(pieces, i)
            &&& events[k].typed != events[k].expected
        },
        forall|k: int|
            0 <= k < events.len() && line_start(pieces, i) <= (#[trigger] events[k]).position < line_stop(pieces, i)
                && events[k].typed != events[k].expected ==> s.mistakes@.contains(k as usize),
        forall|p: int, q: int| 0 <= p < q < s.mistakes@.len() ==> s.mistakes@[p] < s.mistakes@[q],
{
    let lo = line_start(pieces, i);
    let hi = line_stop(pieces, i);
    let all = Seq::new(events.len(), |k: int| k as usize);
    let pred = |k: usize| wrong_key_in(events[k as int], lo, hi);
    assert(s.mistakes@ == all.filter(pred));
    assert forall|q: int| 0 <= q < s.mistakes@.len() implies {
        let k = #[trigger] s.mistakes@[q] as int;
        &&& 0 <= k < events.len()
        &&& lo <= events[k].position < hi
        &&& events[k].typed != events[k].expected
    } by {
        all.lemma_filter_pred(pred, q);
        all.lemma_filter_contains_rev(pred, s.mistakes@[q]);
        let j = choose|j: int| 0 <= j < all.len() && all[j] == s.mistakes@[q];
        assert(all[j] == j as usize);
    }
    assert forall|k: int|
        0 <= k < events.len() && lo <= (#[trigger] events[k]).position < hi && events[k].typed != events[k].expected
            implies s.mistakes@.contains(k as usize) by {
        assert(all[k] == k as usize);
        all.lemma_filter_contains(pred, k);
    }
    assert forall|p: int, q: int| 0 <= p < q < all.len() implies all[p] < all[q] by {}
    lemma_filter_increasing(all, pred);
}

/// Filtering an increasing list keeps it increasing.
proof fn lemma_filter_increasing(xs: Seq<usize>, pred: spec_fn(usize) -> bool)
    requires
        forall|p: int, q: int| 0 <= p < q < xs.len() ==> xs[p] < xs[q],
    ensures
        forall|p: int, q: int| 0 <= p < q < xs.filter(pred).len() ==> xs.filter(pred)[p] < xs.filter(pred)[q],
    decreases xs.len(),
{
    reveal(Seq::filter);
    if xs.len() > 0 {
        let rest = xs.drop_last();
        lemma_filter_increasing(rest, pred);
        let f = rest.filter(pred);
        assert forall|q: int| 0 <= q < f.len() implies #[trigger] f[q] < xs.last() by {
            rest.lemma_filter_contains_rev(pred, f[q]);
            let j = choose|j: int| 0 <= j < rest.len() && rest[j] == f[q];
            assert(rest[j] == xs[j]);
        }
        if pred(xs.last()) {
            assert(xs.filter(pred) == f.push(xs.last()));
        } else {
            assert(xs.filter(pred) == f);
        }
    }
}

} // verus!
