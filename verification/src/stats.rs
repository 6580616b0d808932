//! The stats that need no arithmetic on fractions: per-character and
//! confusion counts, and which recorded sessions are kept and listed.
use vstd::prelude::*;

use crate::text::text_eq;

verus! {

/// What the stats remember of one expected character over all sessions.
#[derive(Debug, Clone, Copy, PartialEq, Eq, Structural)]
pub struct CharacterStats {
    pub correct: u32,
    pub attempts: u32,
    pub total_time_ms: u64,
}

pub open spec fn sat_add_u32(a: u32, b: u32) -> u32 {
    if a + b > u32::MAX { u32::MAX } else { (a + b) as u32 }
}

pub open spec fn sat_add_u64(a: u64, b: u64) -> u64 {
    if a + b > u64::MAX { u64::MAX } else { (a + b) as u64 }
}

impl Default for CharacterStats {
    fn default() -> (r: CharacterStats)
        ensures
            r == (CharacterStats { correct: 0, attempts: 0, total_time_ms: 0 }),
    {
        CharacterStats { correct: 0, attempts: 0, total_time_ms: 0 }
    }
}

impl CharacterStats {
    /// Adds one session's figures for the character; the counts stop at
    /// their largest value.
    pub fn add(&mut self, total_ms: u64, attempts: u32, correct: u32)
        ensures
            *final(self) == (CharacterStats {
                correct: sat_add_u32(old(self).correct, correct),
                attempts: sat_add_u32(old(self).attempts, attempts),
                total_time_ms: sat_add_u64(old(self).total_time_ms, total_ms),
            }),
    {
        self.total_time_ms = self.total_time_ms.saturating_add(total_ms);
        self.attempts = self.attempts.saturating_add(attempts);
        self.correct = self.correct.saturating_add(correct);
    }
}

/// How many confusions the stats screen lists.
pub const TOP_CONFUSIONS: usize = 8;

/// Confusion `i` is listed before confusion `j`: it happened more often, or
/// as often and it comes first.
pub open spec fn counted_before(counts: Seq<(String, u32)>, i: int, j: int) -> bool {
    counts[i].1 > counts[j].1 || (counts[i].1 == counts[j].1 && i < j)
}

/// Confusion `i` comes after every listed one.
pub open spec fn after_listed(counts: Seq<(String, u32)>, listed: Seq<usize>, i: int) -> bool {
    forall|q: int| 0 <= q < listed.len() ==> counted_before(counts, #[trigger] listed[q] as int, i)
}

/// The most frequent confusions, most frequent first (ties in the given
/// order), at most `TOP_CONFUSIONS` of them, as positions in `counts`.
pub fn top_confusions(counts: &Vec<(String, u32)>) -> (r: Vec<usize>)
    ensures
        r@.len() == if counts@.len() < TOP_CONFUSIONS { counts@.len() } else { TOP_CONFUSIONS as nat },
        forall|q: int| 0 <= q < r@.len() ==> (#[trigger] r@[q]) < counts@.len(),
        forall|p: int, q: int| 0 <= p < q < r@.len() ==> counted_before(counts@, #[trigger] r@[p] as int, #[trigger] r@[q] as int),
        forall|i: int| 0 <= i < counts@.len() && !r@.contains(i as usize) ==> #[trigger] after_listed(counts@, r@, i),
{
    let n = counts.len();
    let mut order: Vec<usize> = Vec::new();
    let mut k: usize = 0;
    while k < n
        invariant
            n == counts@.len(),
            k <= n,
            order@.len() == k,
            forall|q: int| 0 <= q < order@.len() ==> (#[trigger] order@[q]) < k,
            forall|j: int| 0 <= j < k ==> #[trigger] order@.contains(j as usize),
            forall|p: int, q: int|
                0 <= p < q < order@.len() ==> counted_before(counts@, #[trigger] order@[p] as int, #[trigger] order@[q] as int),
        decreases n - k,
    {
        let mut at: usize = 0;
        while at < order.len() && (counts[order[at]].1 > counts[k].1 || (counts[order[at]].1 == counts[k].1 && order[at] < k))
            invariant
                n == counts@.len(),
                k < n,
                at <= order@.len(),
                order@.len() == k,
                forall|q: int| 0 <= q < order@.len() ==> (#[trigger] order@[q]) < k,
                forall|q: int| 0 <= q < at ==> counted_before(counts@, #[trigger] order@[q] as int, k as int),
            decreases order@.len() - at,
        {
            at += 1;
        }
        proof {
            if at < order@.len() {
                assert(!counted_before(counts@, order@[at as int] as int, k as int));
                assert forall|q: int| at <= q < order@.len() implies counted_before(counts@, k as int, #[trigger] order@[q] as int) by {
                    if q > at {
                        assert(counted_before(counts@, order@[at as int] as int, order@[q] as int));
                    }
                }
            }
        }
        let ghost before = order@;
        order.insert(at, k);
        proof {
            assert forall|p: int, q: int|
                0 <= p < q < order@.len() implies counted_before(counts@, #[trigger] order@[p] as int, #[trigger] order@[q] as int) by {
                if q < at {
                    assert(order@[p] == before[p] && order@[q] == before[q]);
                } else if q == at {
                    assert(order@[p] == before[p]);
                } else if p < at {
                    assert(order@[q] == before[q - 1]);
                    assert(counted_before(counts@, before[p] as int, k as int));
                } else if p == at {
                    assert(order@[q] == before[q - 1]);
                } else {
                    assert(order@[p] == before[p - 1] && order@[q] == before[q - 1]);
                }
            }
            assert forall|j: int| 0 <= j < k + 1 implies #[trigger] order@.contains(j as usize) by {
                if j < k {
                    assert(before.contains(j as usize));
                    let q = choose|q: int| 0 <= q < before.len() && before[q] == j as usize;
                    if q < at {
                        assert(order@[q] == j as usize);
                    } else {
                        assert(order@[q + 1] == j as usize);
                    }
                } else {
                    assert(order@[at as int] == k);
                }
            }
        }
        k += 1;
    }
    let ghost full = order@;
    let keep = if n < TOP_CONFUSIONS { n } else { TOP_CONFUSIONS };
    order.truncate(keep);
    proof {
        assert(order@ == full.take(keep as int));
        assert forall|i: int| 0 <= i < counts@.len() && !order@.contains(i as usize) implies #[trigger] after_listed(counts@, order@, i) by {
            assert(full.contains(i as usize));
            let p = choose|p: int| 0 <= p < full.len() && full[p] == i as usize;
            if p < keep {
                assert(order@[p] == full[p]);
                assert(order@.contains(i as usize));
            }
            assert forall|q: int| 0 <= q < order@.len() implies counted_before(counts@, #[trigger] order@[q] as int, i) by {
                assert(full[q] == order@[q]);
                assert(q < p);
                assert(counted_before(counts@, full[q] as int, full[p] as int));
            }
        }
    }
    order
}

/// How many finished sessions the stats keep.
pub const MAX_SESSIONS: usize = 1000;

/// The id of the next recorded session: one more than the last one's, 1
/// for the first.
pub fn next_session_id(last: Option<u64>) -> (r: u64)
    requires
        last matches Some(id) ==> id < u64::MAX,
    ensures
        r == match last {
            Some(id) => id + 1,
            None => 1,
        },
{
    match last {
        Some(id) => id + 1,
        None => 1,
    }
}

/// How many of the oldest sessions to drop so that at most `MAX_SESSIONS`
/// remain of `count`.
pub fn sessions_to_drop(count: usize) -> (r: usize)
    ensures
        r == if count > MAX_SESSIONS { count - MAX_SESSIONS } else { 0 },
{
    if count > MAX_SESSIONS {
        count - MAX_SESSIONS
    } else {
        0
    }
}

/// The positions of the sessions of one test among the last `n` sessions,
/// newest first.
pub open spec fn newest_of_test(tests: Seq<Seq<char>>, test: Seq<char>, n: int) -> Seq<usize>
    decreases n,
{
    if n <= 0 {
        seq![]
    } else if tests[n - 1] == test {
        seq![(n - 1) as usize] + newest_of_test(tests, test, n - 1)
    } else {
        newest_of_test(tests, test, n - 1)
    }
}

pub open spec fn test_ids(tests: Seq<String>) -> Seq<Seq<char>> {
    tests.map_values(|t: String| t@)
}

/// The latest `limit` sessions of a test, newest first, as positions in
/// the list of the sessions' test ids (oldest first).
pub fn recent_of_test(tests: &Vec<String>, test: &str, limit: usize) -> (r: Vec<usize>)
    ensures
        r@ == newest_of_test(test_ids(tests@), test@, tests@.len() as int).take(
            if newest_of_test(test_ids(tests@), test@, tests@.len() as int).len() < limit {
                newest_of_test(test_ids(tests@), test@, tests@.len() as int).len() as int
            } else {
                limit as int
            },
        ),
{
    let ghost ids = test_ids(tests@);
    let ghost all = newest_of_test(ids, test@, tests@.len() as int);
    let mut found: Vec<usize> = Vec::new();
    let mut n: usize = tests.len();
    proof {
        lemma_newest_split(ids, test@, tests@.len() as int, tests@.len() as int);
    }
    while n > 0 && found.len() < limit
        invariant
            ids == test_ids(tests@),
            all == newest_of_test(ids, test@, tests@.len() as int),
            n <= tests@.len(),
            found@.len() <= limit,
            all == found@ + newest_of_test(ids, test@, n as int),
        decreases n,
    {
        let i = n - 1;
        assert(ids[i as int] == tests@[i as int]@);
        if text_eq(tests[i].as_str(), test) {
            found.push(i);
            assert(all =~= found@ + newest_of_test(ids, test@, i as int));
        }
        n = i;
    }
    proof {
        lemma_newest_len(ids, test@, n as int);
        if found@.len() < limit {
            assert(newest_of_test(ids, test@, n as int) =~= seq![]);
        }
        assert(all.take(found@.len() as int) =~= found@);
    }
    found
}

proof fn lemma_newest_split(tests: Seq<Seq<char>>, test: Seq<char>, n: int, m: int)
    ensures
        n == m ==> newest_of_test(tests, test, n) == seq![] + newest_of_test(tests, test, m),
{
    assert(seq![] + newest_of_test(tests, test, m) =~= newest_of_test(tests, test, m));
}

proof fn lemma_newest_len(tests: Seq<Seq<char>>, test: Seq<char>, n: int)
    ensures
        n <= 0 ==> newest_of_test(tests, test, n).len() == 0,
{
}

/// The count recorded for a confusion label: the counts of all entries
/// with that label added up.
pub open spec fn count_of(entries: Seq<(String, u32)>, label: Seq<char>) -> int
    decreases entries.len(),
{
    if entries.len() == 0 {
        0
    } else {
        count_of(entries.drop_last(), label) + if entries.last().0@ == label {
            entries.last().1 as int
        } else {
            0
        }
    }
}

/// No label occurs twice.
pub open spec fn distinct_labels(entries: Seq<(String, u32)>) -> bool {
    forall|i: int, j: int| 0 <= i < j < entries.len() ==> (#[trigger] entries[i]).0@ != (#[trigger] entries[j]).0@
}

proof fn lemma_count_update(s: Seq<(String, u32)>, j: int, x: (String, u32), label: Seq<char>)
    requires
        0 <= j < s.len(),
        x.0@ == s[j].0@,
    ensures
        count_of(s.update(j, x), label) == count_of(s, label) + if s[j].0@ == label {
            x.1 - s[j].1
        } else {
            0
        },
    decreases s.len(),
{
    let u = s.update(j, x);
    if j < s.len() - 1 {
        assert(u.drop_last() =~= s.drop_last().update(j, x));
        lemma_count_update(s.drop_last(), j, x, label);
    } else {
        assert(u.drop_last() =~= s.drop_last());
    }
}

proof fn lemma_entry_within_count(s: Seq<(String, u32)>, j: int)
    requires
        0 <= j < s.len(),
    ensures
        s[j].1 <= count_of(s, s[j].0@),
    decreases s.len(),
{
    lemma_count_nonnegative(s.drop_last(), s[j].0@);
    if j < s.len() - 1 {
        assert(s.drop_last()[j] == s[j]);
        lemma_entry_within_count(s.drop_last(), j);
    }
}

proof fn lemma_count_nonnegative(s: Seq<(String, u32)>, label: Seq<char>)
    ensures
        count_of(s, label) >= 0,
    decreases s.len(),
{
    if s.len() > 0 {
        lemma_count_nonnegative(s.drop_last(), label);
    }
}

proof fn lemma_count_prefix(s: Seq<(String, u32)>, n: int, label: Seq<char>)
    requires
        0 <= n <= s.len(),
    ensures
        count_of(s.take(n), label) <= count_of(s, label),
    decreases s.len() - n,
{
    if n < s.len() {
        lemma_count_prefix(s, n + 1, label);
        assert(s.take(n + 1).drop_last() =~= s.take(n));
    } else {
        assert(s.take(n) =~= s);
    }
}

fn label_position(entries: &Vec<(String, u32)>, label: &str) -> (r: Option<usize>)
    ensures
        match r {
            Some(j) => j < entries@.len() && entries@[j as int].0@ == label@,
            None => forall|q: int| 0 <= q < entries@.len() ==> (#[trigger] entries@[q]).0@ != label@,
        },
{
    let mut j: usize = 0;
    while j < entries.len()
        invariant
            j <= entries@.len(),
            forall|q: int| 0 <= q < j ==> (#[trigger] entries@[q]).0@ != label@,
        decreases entries@.len() - j,
    {
        if crate::text::text_eq(entries[j].0.as_str(), label) {
            return Some(j);
        }
        j += 1;
    }
    None
}

/// Adds one session's confusion counts to the stored totals: each label's
/// total grows by the session's count for it, a label seen for the first
/// time is added at the end, and no label comes to occur twice.
pub fn add_confusions(totals: &mut Vec<(String, u32)>, additions: &Vec<(String, u32)>)
    requires
        forall|label: Seq<char>| count_of(old(totals)@, label) + count_of(additions@, label) <= u32::MAX,
    ensures
        forall|label: Seq<char>| #[trigger] count_of(final(totals)@, label) == count_of(old(totals)@, label) + count_of(additions@, label),
        distinct_labels(old(totals)@) ==> distinct_labels(final(totals)@),
{
    let ghost start = totals@;
    let mut i: usize = 0;
    while i < additions.len()
        invariant
            i <= additions@.len(),
            forall|label: Seq<char>| count_of(start, label) + count_of(additions@, label) <= u32::MAX,
            forall|label: Seq<char>| #[trigger] count_of(totals@, label) == count_of(start, label) + count_of(additions@.take(i as int), label),
            distinct_labels(start) ==> distinct_labels(totals@),
        decreases additions@.len() - i,
    {
        let (label, count) = (&additions[i].0, additions[i].1);
        let ghost l = label@;
        proof {
            assert(additions@.take(i as int + 1).drop_last() =~= additions@.take(i as int));
            assert(additions@.take(i as int + 1).last() == additions@[i as int]);
            lemma_count_prefix(additions@, i as int + 1, l);
        }
        let ghost before = totals@;
        if let Some(j) = label_position(totals, label.as_str()) {
            proof {
                lemma_entry_within_count(before, j as int);
                lemma_count_nonnegative(start, l);
            }
            let total = totals[j].1 + count;
            let name = totals[j].0.clone();
            totals.set(j, (name, total));
            proof {
                assert forall|m: Seq<char>| #[trigger] count_of(totals@, m) == count_of(start, m) + count_of(additions@.take(i as int + 1), m) by {
                    lemma_count_update(before, j as int, (name, total), m);
                }
                if distinct_labels(start) {
                    assert forall|a: int, b: int| 0 <= a < b < totals@.len() implies (#[trigger] totals@[a]).0@ != (#[trigger] totals@[b]).0@ by {
                        assert(before[a].0@ != before[b].0@);
                    }
                }
            }
        } else {
            totals.push((label.clone(), count));
            proof {
                assert(totals@.drop_last() =~= before);
                assert(totals@.last().0@ == l);
                assert forall|m: Seq<char>| #[trigger] count_of(totals@, m) == count_of(start, m) + count_of(additions@.take(i as int + 1), m) by {
                    assert(count_of(totals@, m) == count_of(before, m) + if l == m { count as int } else { 0 });
                }
                if distinct_labels(start) {
                    assert forall|a: int, b: int| 0 <= a < b < totals@.len() implies (#[trigger] totals@[a]).0@ != (#[trigger] totals@[b]).0@ by {
                        if b < before.len() {
                            assert(before[a].0@ != before[b].0@);
                        } else {
                            assert(totals@[a] == before[a]);
                        }
                    }
                }
            }
        }
        i += 1;
    }
    proof {
        assert(additions@.take(additions@.len() as int) =~= additions@);
    }
}

} // verus!
