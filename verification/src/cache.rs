//! Which cached files to delete when the cache grows past its limit.
use vstd::prelude::*;

use crate::text::chars_of;

verus! {

/// Bytes the download cache may hold.
pub const CACHE_LIMIT: u64 = 500 * 1024 * 1024;

pub open spec fn total_size(sizes: Seq<u64>) -> int
    decreases sizes.len(),
{
    if sizes.len() == 0 {
        0
    } else {
        total_size(sizes.drop_last()) + sizes.last()
    }
}

/// Going through the first `n` files in order: the files deleted so far and
/// the bytes still held. A file is deleted while more than `limit` bytes are
/// held and the file may be deleted.
pub open spec fn eviction(sizes: Seq<u64>, removable: Seq<bool>, limit: u64, n: int) -> (Seq<usize>, int)
    decreases n,
{
    if n <= 0 {
        (seq![], total_size(sizes))
    } else {
        let (removed, held) = eviction(sizes, removable, limit, n - 1);
        if held > limit && removable[n - 1] {
            (removed.push((n - 1) as usize), held - sizes[n - 1])
        } else {
            (removed, held)
        }
    }
}

proof fn lemma_total_bound(sizes: Seq<u64>)
    ensures
        0 <= total_size(sizes) <= sizes.len() * (u64::MAX as int),
    decreases sizes.len(),
{
    if sizes.len() > 0 {
        lemma_total_bound(sizes.drop_last());
    }
}

proof fn lemma_total_first(s: Seq<u64>)
    requires
        s.len() > 0,
    ensures
        total_size(s) == s[0] + total_size(s.drop_first()),
    decreases s.len(),
{
    if s.len() > 1 {
        let d = s.drop_last();
        let f = s.drop_first();
        lemma_total_first(d);
        assert(f.drop_last() =~= d.drop_first());
        assert(total_size(f) == total_size(f.drop_last()) + f.last());
        assert(total_size(s) == total_size(d) + s.last());
    } else {
        assert(total_size(s.drop_last()) == 0);
        assert(total_size(s.drop_first()) == 0);
        assert(total_size(s) == s[0]);
    }
}

/// The files to delete, oldest first: `sizes` and `removable` describe the
/// cached files from the oldest to the newest; only removable ones are
/// deleted, and only while the cache holds more than `limit` bytes.
pub fn files_to_remove(sizes: &Vec<u64>, removable: &Vec<bool>, limit: u64) -> (r: Vec<usize>)
    requires
        removable@.len() == sizes@.len(),
    ensures
        r@ == eviction(sizes@, removable@, limit, sizes@.len() as int).0,
{
    let n = sizes.len();
    let mut total: u128 = 0;
    let mut i: usize = 0;
    while i < n
        invariant
            n == sizes@.len(),
            i <= n,
            total == total_size(sizes@.take(i as int)),
            total <= i * (u64::MAX as int),
        decreases n - i,
    {
        proof {
            assert(sizes@.take(i + 1).drop_last() =~= sizes@.take(i as int));
        }
        total = total + sizes[i] as u128;
        i += 1;
    }
    proof {
        assert(sizes@.take(n as int) =~= sizes@);
    }
    let mut removed: Vec<usize> = Vec::new();
    let mut held: u128 = total;
    assert(sizes@.skip(0) =~= sizes@);
    let mut k: usize = 0;
    while k < n
        invariant
            n == sizes@.len(),
            n == removable@.len(),
            k <= n,
            removed@ == eviction(sizes@, removable@, limit, k as int).0,
            held == eviction(sizes@, removable@, limit, k as int).1,
            held >= total_size(sizes@.skip(k as int)),
        decreases n - k,
    {
        proof {
            lemma_total_first(sizes@.skip(k as int));
            assert(sizes@.skip(k as int).drop_first() =~= sizes@.skip(k + 1));
            lemma_total_bound(sizes@.skip(k + 1));
        }
        if held > limit as u128 && removable[k] {
            removed.push(k);
            held = held - sizes[k] as u128;
        }
        k += 1;
    }
    removed
}

proof fn lemma_eviction_prefix(sizes: Seq<u64>, removable: Seq<bool>, limit: u64, n: int)
    requires
        removable.len() == sizes.len(),
        sizes.len() <= usize::MAX,
        0 <= n <= sizes.len(),
    ensures
        ({
            let (removed, held) = eviction(sizes, removable, limit, n);
            &&& forall|q: int| 0 <= q < removed.len() ==> (#[trigger] removed[q]) < n && removable[removed[q] as int]
            &&& held <= limit || forall|i: int| 0 <= i < n && removable[i] ==> removed.contains(i as usize)
        }),
    decreases n,
{
    if n > 0 {
        lemma_eviction_prefix(sizes, removable, limit, n - 1);
        let (removed, held) = eviction(sizes, removable, limit, n - 1);
        if held > limit && removable[n - 1] {
            let now = removed.push((n - 1) as usize);
            assert(eviction(sizes, removable, limit, n) == (now, held - sizes[n - 1]));
            assert forall|q: int| 0 <= q < now.len() implies (#[trigger] now[q]) < n && removable[now[q] as int] by {
                if q < removed.len() {
                    assert(now[q] == removed[q]);
                }
            }
            assert forall|i: int| 0 <= i < n && removable[i] && held - sizes[n - 1] > limit implies now.contains(i as usize) by {
                if i < n - 1 {
                    assert(removed.contains(i as usize));
                    let q = choose|q: int| 0 <= q < removed.len() && removed[q] == i as usize;
                    assert(now[q] == i as usize);
                } else {
                    assert(now[now.len() - 1] == i as usize);
                }
            }
        } else {
            assert(eviction(sizes, removable, limit, n) == (removed, held));
            assert forall|i: int| 0 <= i < n && removable[i] && held > limit implies removed.contains(i as usize) by {
                if i == n - 1 {
                    assert(!removable[n - 1]);
                }
            }
        }
    }
}

/// Eviction deletes only files that may be deleted, and afterwards the
/// cache holds at most `limit` bytes unless every such file was deleted.
pub proof fn law_eviction_fits(sizes: Seq<u64>, removable: Seq<bool>, limit: u64)
    requires
        removable.len() == sizes.len(),
        sizes.len() <= usize::MAX,
    ensures
        ({
            let (removed, held) = eviction(sizes, removable, limit, sizes.len() as int);
            &&& forall|q: int| 0 <= q < removed.len() ==> removable[#[trigger] removed[q] as int]
            &&& held <= limit || forall|i: int| 0 <= i < sizes.len() && removable[i] ==> removed.contains(i as usize)
        }),
{
    lemma_eviction_prefix(sizes, removable, limit, sizes.len() as int);
}

/// The first component of a path relative to the cache directory: the text
/// before the first `/`, or the whole path.
pub open spec fn first_component(path: Seq<char>) -> Seq<char>
    decreases path.len(),
{
    if path.len() == 0 {
        seq![]
    } else if path[0] == '/' {
        seq![]
    } else {
        seq![path[0]] + first_component(path.drop_first())
    }
}

/// Downloaded snippets and GitHub responses may be deleted to keep the
/// cache under its limit; word lists stay.
pub open spec fn spec_removable(path: Seq<char>) -> bool {
    first_component(path) == "snippets"@ || first_component(path) == "github"@
}

/// Whether a cached file, given by its path relative to the cache
/// directory with `/` between components, may be deleted (see
/// `spec_removable`).
pub fn removable_from_cache(path: &str) -> (r: bool)
    ensures
        r == spec_removable(path@),
{
    let v = chars_of(path);
    let mut head: Vec<char> = Vec::new();
    let mut i: usize = 0;
    proof {
        assert(v@.skip(0) =~= v@);
        assert(head@ + first_component(v@) =~= first_component(v@));
    }
    while i < v.len() && v[i] != '/'
        invariant
            i <= v@.len(),
            first_component(v@) == head@ + first_component(v@.skip(i as int)),
            forall|j: int| 0 <= j < i ==> v@[j] != '/',
        decreases v@.len() - i,
    {
        let ghost before = head@;
        proof {
            assert(v@.skip(i as int).drop_first() =~= v@.skip(i as int + 1));
            assert(v@.skip(i as int)[0] == v@[i as int]);
            assert(first_component(v@.skip(i as int)) == seq![v@[i as int]] + first_component(v@.skip(i as int + 1)));
        }
        head.push(v[i]);
        proof {
            assert(head@ + first_component(v@.skip(i as int + 1)) =~= before + (seq![v@[i as int]] + first_component(v@.skip(i as int + 1))));
        }
        i += 1;
    }
    proof {
        assert(first_component(v@.skip(i as int)) =~= seq![]);
        assert(head@ + seq![] =~= head@);
    }
    text_is(&head, "snippets") || text_is(&head, "github")
}

fn text_is(v: &Vec<char>, word: &str) -> (r: bool)
    ensures
        r == (v@ == word@),
{
    let w = chars_of(word);
    if v.len() != w.len() {
        return false;
    }
    let mut i: usize = 0;
    while i < v.len()
        invariant
            i <= v@.len(),
            v@.len() == w@.len(),
            w@ == word@,
            forall|j: int| 0 <= j < i ==> v@[j] == w@[j],
        decreases v@.len() - i,
    {
        if v[i] != w[i] {
            return false;
        }
        i += 1;
    }
    assert(v@ =~= w@);
    true
}

} // verus!
