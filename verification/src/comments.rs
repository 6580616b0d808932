//! Removing comments from a block of code, given where the parser found them.
use vstd::prelude::*;

use crate::snippet::{
    join_lines, leading_whitespace, nonblank, spec_join, spec_lines, split_lines, trim_end_exec,
    views,
};
use crate::text::{chars_of, lemma_utf8_len_push, spec_trim_end, spec_utf8_len, utf8_width};

verus! {

broadcast use vstd::string::group_string_axioms;

/// Byte offset `b` falls between two characters of `text` (or at its ends).
pub open spec fn char_boundary(text: Seq<char>, b: usize) -> bool {
    exists|k: int| 0 <= k <= text.len() && spec_utf8_len(#[trigger] text.take(k)) == b
}

/// Comment byte ranges as a parser reports them: in order, not overlapping,
/// each between two characters of the text.
pub open spec fn comment_ranges_valid(text: Seq<char>, ranges: Seq<(usize, usize)>) -> bool {
    &&& forall|q: int| 0 <= q < ranges.len() ==> (#[trigger] ranges[q]).0 <= ranges[q].1
    &&& forall|q: int| 0 <= q < ranges.len() ==> char_boundary(text, (#[trigger] ranges[q]).0)
    &&& forall|q: int| 0 <= q < ranges.len() ==> char_boundary(text, (#[trigger] ranges[q]).1)
    &&& forall|q: int| 0 <= q < ranges.len() - 1 ==> (#[trigger] ranges[q]).1 <= ranges[q + 1].0
}

/// The byte `offset` lies in one of the ranges.
pub open spec fn in_ranges(ranges: Seq<(usize, usize)>, offset: int) -> bool {
    exists|q: int| 0 <= q < ranges.len() && (#[trigger] ranges[q]).0 <= offset < ranges[q].1
}

/// The text with its comments taken out: each character that starts inside
/// a range is dropped, except line breaks, so lines keep their numbers.
pub open spec fn uncommented(text: Seq<char>, ranges: Seq<(usize, usize)>) -> Seq<char>
    decreases text.len(),
{
    if text.len() == 0 {
        seq![]
    } else {
        let before = uncommented(text.drop_last(), ranges);
        let c = text.last();
        if c == '\n' || !in_ranges(ranges, spec_utf8_len(text.drop_last()) as int) {
            before.push(c)
        } else {
            before
        }
    }
}

pub open spec fn keep_line() -> spec_fn(Seq<char>) -> bool {
    |l: Seq<char>| nonblank(l)
}

pub open spec fn tidy_line() -> spec_fn(Seq<char>) -> Seq<char> {
    |l: Seq<char>| spec_trim_end(l)
}

/// Code without comments: the uncommented text's non-blank lines (as
/// `str::lines` gives them), without trailing whitespace, joined by `\n`.
pub open spec fn spec_strip_comments(text: Seq<char>, ranges: Seq<(usize, usize)>) -> Seq<char> {
    spec_join(spec_lines(uncommented(text, ranges)).filter(keep_line()).map_values(tidy_line()))
}

fn in_any(ranges: &Vec<(usize, usize)>, offset: u128) -> (r: bool)
    ensures
        r == in_ranges(ranges@, offset as int),
{
    let mut q: usize = 0;
    while q < ranges.len()
        invariant
            q <= ranges@.len(),
            forall|j: int| 0 <= j < q ==> !((#[trigger] ranges@[j]).0 <= offset < ranges@[j].1),
        decreases ranges@.len() - q,
    {
        let (start, end) = ranges[q];
        if start as u128 <= offset && offset < end as u128 {
            assert(ranges@[q as int].0 <= offset < ranges@[q as int].1);
            return true;
        }
        q += 1;
    }
    false
}

/// Removes the comments at the given byte ranges (see `spec_strip_comments`).
pub fn strip_comments(text: &str, ranges: &Vec<(usize, usize)>) -> (r: String)
    requires
        comment_ranges_valid(text@, ranges@),
    ensures
        r@ == spec_strip_comments(text@, ranges@),
{
    let v = chars_of(text);
    let mut kept: Vec<char> = Vec::new();
    let mut offset: u128 = 0;
    let mut i: usize = 0;
    while i < v.len()
        invariant
            v@ == text@,
            i <= v@.len(),
            offset == spec_utf8_len(v@.take(i as int)),
            offset <= 4 * i,
            kept@ == uncommented(v@.take(i as int), ranges@),
        decreases v@.len() - i,
    {
        let c = v[i];
        let inside = in_any(ranges, offset);
        proof {
            assert(v@.take(i + 1).drop_last() =~= v@.take(i as int));
            assert(v@.take(i + 1).last() == c);
            lemma_utf8_len_push(v@.take(i as int), c);
            assert(v@.take(i as int).push(c) =~= v@.take(i + 1));
        }
        if c == '\n' || !inside {
            kept.push(c);
        }
        offset = offset + utf8_width(c) as u128;
        i += 1;
    }
    assert(v@.take(v@.len() as int) =~= v@);
    let lines = split_lines(&kept, 0, kept.len());
    assert(kept@.subrange(0, kept@.len() as int) =~= kept@);
    let ghost all = views(lines@);
    let mut out: Vec<Vec<char>> = Vec::new();
    let mut j: usize = 0;
    while j < lines.len()
        invariant
            all == views(lines@),
            j <= lines@.len(),
            views(out@) == all.take(j as int).filter(keep_line()).map_values(tidy_line()),
        decreases lines@.len() - j,
    {
        let line = lines[j].clone();
        assert(line@ == all[j as int]);
        let lead = leading_whitespace(&line);
        proof {
            reveal(Seq::filter);
            assert(all.take(j + 1).drop_last() =~= all.take(j as int));
            assert(all.take(j + 1).last() == all[j as int]);
        }
        if lead < line.len() {
            let ghost before = out@;
            out.push(trim_end_exec(line));
            proof {
                assert(views(out@) =~= views(before).push(spec_trim_end(all[j as int])));
                assert(all.take(j + 1).filter(keep_line()) == all.take(j as int).filter(keep_line()).push(all[j as int]));
                assert(views(out@) =~= all.take(j + 1).filter(keep_line()).map_values(tidy_line()));
            }
        } else {
            proof {
                assert(all.take(j + 1).filter(keep_line()) == all.take(j as int).filter(keep_line()));
            }
        }
        j += 1;
    }
    assert(all.take(lines@.len() as int) =~= all);
    join_lines(&out)
}

} // verus!
