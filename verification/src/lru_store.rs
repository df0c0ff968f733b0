//! Trusted interface to the `lru` crate's bounded least-recently-used
//! cache, instantiated at `usize` keys and values. The cache's
//! contents are modelled as a sequence of key-value pairs ordered from
//! most to least recently used.

use vstd::prelude::*;

verus! {

/// The cache type used throughout: `usize` keys and values, hashed
/// with std's default hasher.
pub type LruUsize = lru::LruCache<usize, usize, std::collections::hash_map::RandomState>;

#[verifier::external_type_specification]
#[verifier::external_body]
#[verifier::reject_recursive_types(K)]
#[verifier::reject_recursive_types(V)]
#[verifier::reject_recursive_types(S)]
pub struct ExLruCache<K, V, S>(lru::LruCache<K, V, S>);

/// What the cache holds, as key-value pairs from most to least
/// recently used.
pub uninterp spec fn lru_entries(c: LruUsize) -> Seq<(usize, usize)>;

/// The bound the cache was created with.
pub uninterp spec fn lru_capacity(c: LruUsize) -> nat;

/// Whether some entry has key `k`.
pub open spec fn lru_has_key(s: Seq<(usize, usize)>, k: usize) -> bool {
    exists|i: int| 0 <= i < s.len() && (#[trigger] s[i]).0 == k
}

/// The position of the entry with key `k` (meaningful under
/// `lru_distinct_keys`).
pub open spec fn lru_index_of(s: Seq<(usize, usize)>, k: usize) -> int {
    choose|i: int| 0 <= i < s.len() && (#[trigger] s[i]).0 == k
}

/// The value stored under key `k`.
pub open spec fn lru_value_of(s: Seq<(usize, usize)>, k: usize) -> usize {
    s[lru_index_of(s, k)].1
}

/// Every key occurs at most once.
pub open spec fn lru_distinct_keys(s: Seq<(usize, usize)>) -> bool {
    forall|i: int, j: int| 0 <= i < j < s.len()
        ==> (#[trigger] s[i]).0 != (#[trigger] s[j]).0
}

/// The sequence with the entry keyed `k` removed.
pub open spec fn lru_remove_key(s: Seq<(usize, usize)>, k: usize) -> Seq<(usize, usize)> {
    s.filter(|p: (usize, usize)| p.0 != k)
}

/// The contents after inserting `k -> v`: an existing entry for `k`
/// is updated and moved to the front; otherwise the pair is added at
/// the front, evicting the least recently used entry when the cache
/// is full.
pub open spec fn lru_after_insert(
    s: Seq<(usize, usize)>,
    cap: nat,
    k: usize,
    v: usize,
) -> Seq<(usize, usize)> {
    if lru_has_key(s, k) {
        seq![(k, v)] + lru_remove_key(s, k)
    } else if s.len() >= cap {
        seq![(k, v)] + s.drop_last()
    } else {
        seq![(k, v)] + s
    }
}

/// What inserting `k -> v` displaces: the old entry for `k`, or the
/// least recently used entry when the cache is full, or nothing.
pub open spec fn lru_insert_displaced(
    s: Seq<(usize, usize)>,
    cap: nat,
    k: usize,
    v: usize,
) -> Option<(usize, usize)> {
    if lru_has_key(s, k) {
        Some((k, lru_value_of(s, k)))
    } else if s.len() >= cap {
        Some(s.last())
    } else {
        None
    }
}

/// The contents after a successful lookup of `k`, which moves the
/// entry to the front.
pub open spec fn lru_after_get(s: Seq<(usize, usize)>, k: usize) -> Seq<(usize, usize)> {
    if lru_has_key(s, k) {
        seq![(k, lru_value_of(s, k))] + lru_remove_key(s, k)
    } else {
        s
    }
}

/// Relies on `lru::LruCache::with_hasher`: creates an empty cache
/// bounded by `cap` (nonzero, so the `NonZeroUsize` conversion cannot
/// panic).
#[verifier::external_body]
pub(crate) fn lru_new(cap: usize) -> (c: LruUsize)
    requires
        cap >= 1,
    ensures
        lru_entries(c) == Seq::<(usize, usize)>::empty(),
        lru_capacity(c) == cap as nat,
{
    lru::LruCache::with_hasher(
        std::num::NonZeroUsize::new(cap).unwrap(),
        std::collections::hash_map::RandomState::new(),
    )
}

/// Relies on `lru::LruCache::len`: the number of stored entries.
#[verifier::external_body]
pub(crate) fn lru_len(c: &LruUsize) -> (r: usize)
    ensures
        r == lru_entries(*c).len(),
{
    c.len()
}

/// Relies on `lru::LruCache::push`: inserts `k -> v`, updating and
/// promoting an existing entry for `k`, or evicting the least
/// recently used entry when the cache is full, and returns the
/// displaced pair.
#[verifier::external_body]
pub(crate) fn lru_push(c: &mut LruUsize, k: usize, v: usize) -> (r: Option<
    (usize, usize),
>)
    ensures
        lru_capacity(*final(c)) == lru_capacity(*old(c)),
        lru_distinct_keys(lru_entries(*final(c))),
        lru_distinct_keys(lru_entries(*old(c))) ==> {
            &&& lru_entries(*final(c)) == lru_after_insert(
                lru_entries(*old(c)),
                lru_capacity(*old(c)),
                k,
                v,
            )
            &&& r == lru_insert_displaced(lru_entries(*old(c)), lru_capacity(*old(c)), k, v)
        },
{
    c.push(k, v)
}

/// Relies on `lru::LruCache::peek`: the value stored under `k`,
/// without touching the recency order.
#[verifier::external_body]
pub(crate) fn lru_peek(c: &LruUsize, k: usize) -> (r: Option<usize>)
    ensures
        r is Some <==> lru_has_key(lru_entries(*c), k),
        lru_distinct_keys(lru_entries(*c)) && lru_has_key(lru_entries(*c), k)
            ==> r == Some(lru_value_of(lru_entries(*c), k)),
{
    c.peek(&k).copied()
}

/// Relies on `lru::LruCache::get`: like `peek`, but moves the found
/// entry to the front of the recency order.
#[verifier::external_body]
pub(crate) fn lru_get(c: &mut LruUsize, k: usize) -> (r: Option<usize>)
    ensures
        lru_capacity(*final(c)) == lru_capacity(*old(c)),
        lru_distinct_keys(lru_entries(*final(c))),
        r is Some <==> lru_has_key(lru_entries(*old(c)), k),
        lru_distinct_keys(lru_entries(*old(c))) ==> {
            &&& lru_entries(*final(c)) == lru_after_get(lru_entries(*old(c)), k)
            &&& (lru_has_key(lru_entries(*old(c)), k)
                ==> r == Some(lru_value_of(lru_entries(*old(c)), k)))
        },
{
    c.get(&k).copied()
}

/// Relies on `lru::LruCache::pop_lru`: removes and returns the least
/// recently used entry.
#[verifier::external_body]
pub(crate) fn lru_pop_lru(c: &mut LruUsize) -> (r: Option<(usize, usize)>)
    ensures
        lru_capacity(*final(c)) == lru_capacity(*old(c)),
        lru_distinct_keys(lru_entries(*final(c))),
        lru_entries(*old(c)).len() == 0 ==> r is None && lru_entries(*final(c))
            == lru_entries(*old(c)),
        lru_entries(*old(c)).len() > 0 ==> r == Some(lru_entries(*old(c)).last())
            && lru_entries(*final(c)) == lru_entries(*old(c)).drop_last(),
{
    c.pop_lru()
}

/// Every entry that `lru_remove_key` keeps is an entry of the
/// original sequence whose key is not `k`.
pub proof fn lemma_remove_key_membership(s: Seq<(usize, usize)>, k: usize)
    ensures
        forall|i: int| 0 <= i < lru_remove_key(s, k).len()
            ==> (#[trigger] lru_remove_key(s, k)[i]).0 != k
                && (exists|j: int| 0 <= j < s.len() && s[j] == lru_remove_key(s, k)[i]),
    decreases s.len(),
{
    reveal(Seq::filter);
    if s.len() > 0 {
        let pre = s.drop_last();
        lemma_remove_key_membership(pre, k);
        let rm = lru_remove_key(s, k);
        let rmp = lru_remove_key(pre, k);
        assert forall|i: int| 0 <= i < rm.len() implies (#[trigger] rm[i]).0 != k
            && (exists|j: int| 0 <= j < s.len() && s[j] == rm[i]) by {
            if i < rmp.len() {
                assert(rm[i] == rmp[i]);
                let j = choose|j: int| 0 <= j < pre.len() && pre[j] == rmp[i];
                assert(s[j] == rm[i]);
            } else {
                assert(rm[i] == s.last());
                assert(s[s.len() - 1] == rm[i]);
            }
        };
    }
}

/// Whether no two entries store the same value.
pub open spec fn lru_distinct_values(s: Seq<(usize, usize)>) -> bool {
    forall|i: int, j: int| 0 <= i < j < s.len()
        ==> (#[trigger] s[i]).1 != (#[trigger] s[j]).1
}

/// `lru_remove_key` keeps values pairwise distinct.
pub proof fn lemma_remove_key_distinct_values(s: Seq<(usize, usize)>, k: usize)
    requires
        lru_distinct_values(s),
    ensures
        lru_distinct_values(lru_remove_key(s, k)),
    decreases s.len(),
{
    reveal(Seq::filter);
    if s.len() > 0 {
        let pre = s.drop_last();
        assert(lru_distinct_values(pre)) by {
            assert(forall|i: int| 0 <= i < pre.len() ==> pre[i] == s[i]);
        }
        lemma_remove_key_distinct_values(pre, k);
        let rm = lru_remove_key(s, k);
        let rmp = lru_remove_key(pre, k);
        if s.last().0 != k {
            assert(rm == rmp.push(s.last()));
            lemma_remove_key_membership(pre, k);
            assert forall|i: int, j: int| 0 <= i < j < rm.len() implies
                (#[trigger] rm[i]).1 != (#[trigger] rm[j]).1 by {
                if j == rm.len() - 1 {
                    assert(rm[i] == rmp[i]);
                    assert(rm[j] == s.last());
                    let w = choose|w: int| 0 <= w < pre.len() && pre[w] == rmp[i];
                    assert(s[w] == rmp[i]);
                    assert(s[w].1 != s[s.len() - 1].1);
                } else {
                    assert(rm[i] == rmp[i] && rm[j] == rmp[j]);
                }
            };
        }
    }
}

} // verus!
