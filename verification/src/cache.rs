//! Slide content cache: a bounded least-recently-used map from slide
//! index to fetch status (`Loading`, `Ready`, or `Error`). Requests
//! are idempotent, an `Error` entry is eligible for a new fetch, and
//! each fetch carries a generation so that a stale completion is
//! ignored: the cache is last-write-wins per key.

use vstd::prelude::*;
use crate::lru_store::{
    LruUsize, lru_entries, lru_capacity, lru_has_key, lru_index_of, lru_value_of,
    lru_distinct_keys, lru_distinct_values, lru_remove_key, lru_new, lru_peek, lru_get, lru_push,
    lru_pop_lru, lemma_remove_key_membership, lemma_remove_key_distinct_values,
};
use crate::slide::Slide;

verus! {

/// The reference sizing of the slide content cache.
pub const DEFAULT_SLIDE_CACHE_CAPACITY: usize = 10;

/// Why a slide's content could not be shown: a short description,
/// the underlying cause when one is known, and the raw content for
/// diagnostics when it was received but could not be parsed.
pub struct LoadFailure {
    pub description: String,
    pub cause: Option<String>,
    pub contents: Option<String>,
}

/// A cache entry's state. A `Loading` entry remembers the generation
/// of the fetch it is waiting for.
pub enum SlideStatus {
    Loading(u64),
    Ready(Slide),
    Error(LoadFailure),
}

/// The statuses keyed by slide index, from most to least recently
/// used: the pairing of the recency list with the status arena.
pub open spec fn map_statuses(ls: Seq<(usize, usize)>, es: Seq<SlideStatus>) -> Seq<
    (usize, SlideStatus),
>
    decreases ls.len(),
{
    if ls.len() == 0 {
        Seq::empty()
    } else {
        map_statuses(ls.drop_last(), es).push((ls.last().0, es[ls.last().1 as int]))
    }
}

proof fn lemma_map_statuses_index(ls: Seq<(usize, usize)>, es: Seq<SlideStatus>)
    ensures
        map_statuses(ls, es).len() == ls.len(),
        forall|i: int| 0 <= i < ls.len()
            ==> #[trigger] map_statuses(ls, es)[i] == ((#[trigger] ls[i]).0, es[ls[i].1 as int]),
    decreases ls.len(),
{
    if ls.len() > 0 {
        lemma_map_statuses_index(ls.drop_last(), es);
        assert(forall|i: int| 0 <= i < ls.len() - 1 ==> ls.drop_last()[i] == ls[i]);
    }
}

proof fn lemma_map_statuses_cons(x: (usize, usize), ls: Seq<(usize, usize)>, es: Seq<SlideStatus>)
    ensures
        map_statuses(seq![x] + ls, es) == seq![(x.0, es[x.1 as int])] + map_statuses(ls, es),
    decreases ls.len(),
{
    if ls.len() == 0 {
        assert(seq![x] + ls =~= seq![x]);
        assert(seq![x].drop_last() =~= Seq::<(usize, usize)>::empty());
        assert(seq![x].last() == x);
        assert(map_statuses(seq![x], es) == map_statuses(seq![x].drop_last(), es).push(
            (x.0, es[x.1 as int]),
        ));
        assert(map_statuses(seq![x], es) =~= seq![(x.0, es[x.1 as int])]
            + map_statuses(ls, es));
    } else {
        lemma_map_statuses_cons(x, ls.drop_last(), es);
        assert((seq![x] + ls).drop_last() =~= seq![x] + ls.drop_last());
        assert((seq![x] + ls).last() == ls.last());
        assert(map_statuses(seq![x] + ls, es) == map_statuses(seq![x] + ls.drop_last(), es).push(
            (ls.last().0, es[ls.last().1 as int]),
        ));
        assert(seq![(x.0, es[x.1 as int])] + map_statuses(ls, es)
            =~= (seq![(x.0, es[x.1 as int])] + map_statuses(ls.drop_last(), es)).push(
            (ls.last().0, es[ls.last().1 as int]),
        ));
    }
}

/// The model sequence with the entry keyed `k` removed.
pub open spec fn cache_remove_key(m: Seq<(usize, SlideStatus)>, k: usize) -> Seq<
    (usize, SlideStatus),
> {
    m.filter(|p: (usize, SlideStatus)| p.0 != k)
}

proof fn lemma_map_statuses_filter(ls: Seq<(usize, usize)>, es: Seq<SlideStatus>, k: usize)
    ensures
        map_statuses(lru_remove_key(ls, k), es) == cache_remove_key(map_statuses(ls, es), k),
    decreases ls.len(),
{
    reveal(Seq::filter);
    if ls.len() == 0 {
        assert(lru_remove_key(ls, k) =~= ls);
        assert(map_statuses(ls, es) =~= Seq::<(usize, SlideStatus)>::empty());
        assert(cache_remove_key(map_statuses(ls, es), k)
            =~= Seq::<(usize, SlideStatus)>::empty());
    } else {
        lemma_map_statuses_filter(ls.drop_last(), es, k);
        let m = map_statuses(ls, es);
        assert(m.drop_last() == map_statuses(ls.drop_last(), es)) by {
            assert(m == map_statuses(ls.drop_last(), es).push(
                (ls.last().0, es[ls.last().1 as int]),
            ));
            assert(m.drop_last() =~= map_statuses(ls.drop_last(), es));
        }
        assert(m.len() == ls.len()) by {
            lemma_map_statuses_index(ls, es);
        }
        assert(m.last() == (ls.last().0, es[ls.last().1 as int]));
        if ls.last().0 != k {
            assert(lru_remove_key(ls, k) == lru_remove_key(ls.drop_last(), k).push(ls.last()));
            assert(cache_remove_key(m, k) == cache_remove_key(m.drop_last(), k).push(m.last()));
            let lr = lru_remove_key(ls, k);
            assert(lr.len() > 0 && lr.last() == ls.last());
            assert(lr.drop_last() =~= lru_remove_key(ls.drop_last(), k));
            assert(map_statuses(lr, es) == map_statuses(lr.drop_last(), es).push(
                (lr.last().0, es[lr.last().1 as int]),
            ));
        } else {
            assert(lru_remove_key(ls, k) == lru_remove_key(ls.drop_last(), k));
            assert(cache_remove_key(m, k) == cache_remove_key(m.drop_last(), k));
        }
    }
}

proof fn lemma_map_statuses_update_untouched(
    ls: Seq<(usize, usize)>,
    es: Seq<SlideStatus>,
    slot: int,
    v: SlideStatus,
)
    requires
        0 <= slot < es.len(),
        forall|i: int| 0 <= i < ls.len()
            ==> (#[trigger] ls[i]).1 != slot && ls[i].1 < es.len(),
    ensures
        map_statuses(ls, es.update(slot, v)) == map_statuses(ls, es),
    decreases ls.len(),
{
    if ls.len() > 0 {
        assert(forall|i: int| 0 <= i < ls.len() - 1 ==> ls.drop_last()[i] == ls[i]);
        lemma_map_statuses_update_untouched(ls.drop_last(), es, slot, v);
        assert(ls[ls.len() - 1].1 != slot);
        assert(es.update(slot, v)[ls.last().1 as int] == es[ls.last().1 as int]);
    }
}

proof fn lemma_map_statuses_push_untouched(
    ls: Seq<(usize, usize)>,
    es: Seq<SlideStatus>,
    v: SlideStatus,
)
    requires
        forall|i: int| 0 <= i < ls.len() ==> (#[trigger] ls[i]).1 < es.len(),
    ensures
        map_statuses(ls, es.push(v)) == map_statuses(ls, es),
    decreases ls.len(),
{
    if ls.len() > 0 {
        assert(forall|i: int| 0 <= i < ls.len() - 1 ==> ls.drop_last()[i] == ls[i]);
        lemma_map_statuses_push_untouched(ls.drop_last(), es, v);
        assert(es.push(v)[ls.last().1 as int] == es[ls.last().1 as int]);
    }
}

/// Whether some model entry has key `k`.
pub open spec fn cache_has_key(m: Seq<(usize, SlideStatus)>, k: usize) -> bool {
    exists|i: int| 0 <= i < m.len() && (#[trigger] m[i]).0 == k
}

/// The position of the entry keyed `k` (meaningful when keys are
/// distinct).
pub open spec fn cache_index_of(m: Seq<(usize, SlideStatus)>, k: usize) -> int {
    choose|i: int| 0 <= i < m.len() && (#[trigger] m[i]).0 == k
}

/// The status stored under key `k`.
pub open spec fn cache_status_of(m: Seq<(usize, SlideStatus)>, k: usize) -> SlideStatus {
    m[cache_index_of(m, k)].1
}

/// Every key occurs at most once.
pub open spec fn cache_distinct_keys(m: Seq<(usize, SlideStatus)>) -> bool {
    forall|i: int, j: int| 0 <= i < j < m.len()
        ==> (#[trigger] m[i]).0 != (#[trigger] m[j]).0
}

/// Whether a request for `index` issues a fetch: yes when the index
/// is absent or its last fetch failed; a `Loading` or `Ready` entry
/// issues nothing (requests are idempotent).
pub open spec fn spec_needs_fetch(m: Seq<(usize, SlideStatus)>, index: usize) -> bool {
    !cache_has_key(m, index) || (cache_status_of(m, index) is Error)
}

/// The generation counter after a fetch was issued.
pub open spec fn spec_next_gen(g: u64) -> u64 {
    if g == u64::MAX {
        0u64
    } else {
        (g + 1) as u64
    }
}

/// The model after a request for `index` with the fetch generation
/// `g`: unchanged when no fetch is needed; a re-fetch promotes the
/// existing entry and marks it `Loading`; a fresh index enters at
/// the front, evicting the least recently used entry when the cache
/// is full.
pub open spec fn spec_request_model(
    m: Seq<(usize, SlideStatus)>,
    cap: nat,
    g: u64,
    index: usize,
) -> Seq<(usize, SlideStatus)> {
    if !spec_needs_fetch(m, index) {
        m
    } else if cache_has_key(m, index) {
        seq![(index, SlideStatus::Loading(g))] + cache_remove_key(m, index)
    } else if m.len() >= cap {
        seq![(index, SlideStatus::Loading(g))] + m.drop_last()
    } else {
        seq![(index, SlideStatus::Loading(g))] + m
    }
}

proof fn lemma_remove_key_len(s: Seq<(usize, usize)>, k: usize)
    ensures
        lru_remove_key(s, k).len() <= s.len(),
    decreases s.len(),
{
    reveal(Seq::filter);
    if s.len() > 0 {
        lemma_remove_key_len(s.drop_last(), k);
    }
}

proof fn lemma_remove_key_len_strict(s: Seq<(usize, usize)>, k: usize)
    requires
        lru_has_key(s, k),
    ensures
        lru_remove_key(s, k).len() < s.len(),
    decreases s.len(),
{
    reveal(Seq::filter);
    let pre = s.drop_last();
    if s.last().0 == k {
        lemma_remove_key_len(pre, k);
    } else {
        let i = choose|i: int| 0 <= i < s.len() && (#[trigger] s[i]).0 == k;
        assert(pre[i] == s[i]);
        assert(lru_has_key(pre, k));
        lemma_remove_key_len_strict(pre, k);
    }
}

/// Looking a key up in the model agrees with looking it up in the
/// recency list and the arena.
proof fn lemma_model_lookup(ls: Seq<(usize, usize)>, es: Seq<SlideStatus>, k: usize)
    requires
        lru_distinct_keys(ls),
    ensures
        cache_has_key(map_statuses(ls, es), k) <==> lru_has_key(ls, k),
        lru_has_key(ls, k) ==> cache_index_of(map_statuses(ls, es), k) == lru_index_of(ls, k)
            && cache_status_of(map_statuses(ls, es), k) == es[lru_value_of(ls, k) as int],
{
    lemma_map_statuses_index(ls, es);
    let m = map_statuses(ls, es);
    if lru_has_key(ls, k) {
        let i = lru_index_of(ls, k);
        assert(0 <= i < ls.len() && ls[i].0 == k);
        assert(m[i].0 == k);
        assert(cache_has_key(m, k));
        let j = cache_index_of(m, k);
        assert(0 <= j < m.len() && m[j].0 == k);
        assert(ls[j].0 == k);
        assert(j == i);
    }
    if cache_has_key(m, k) {
        let j = cache_index_of(m, k);
        assert(0 <= j < m.len() && m[j].0 == k);
        assert(ls[j].0 == k);
        assert(lru_has_key(ls, k));
    }
}

/// The prefetch window around the current slide: one slide back and
/// two ahead, kept within valid slide indices. A heuristic to hide
/// latency, not a correctness requirement.
pub open spec fn spec_window(current: usize) -> Seq<usize> {
    let w0 = if current >= 2 {
        seq![(current - 1) as usize]
    } else {
        Seq::<usize>::empty()
    };
    let w1 = w0.push(current);
    let w2 = if current <= usize::MAX - 1 {
        w1.push((current + 1) as usize)
    } else {
        w1
    };
    if current <= usize::MAX - 2 {
        w2.push((current + 2) as usize)
    } else {
        w2
    }
}

/// The model and generation after requesting each index in turn.
pub open spec fn spec_request_all(
    m: Seq<(usize, SlideStatus)>,
    cap: nat,
    g: u64,
    idxs: Seq<usize>,
) -> (Seq<(usize, SlideStatus)>, u64)
    decreases idxs.len(),
{
    if idxs.len() == 0 {
        (m, g)
    } else {
        let first = idxs[0];
        let m2 = spec_request_model(m, cap, g, first);
        let g2 = if spec_needs_fetch(m, first) {
            spec_next_gen(g)
        } else {
            g
        };
        spec_request_all(m2, cap, g2, idxs.subrange(1, idxs.len() as int))
    }
}

/// The fetches issued while requesting each index in turn, as
/// `(index, generation)` pairs.
pub open spec fn spec_request_all_fetches(
    m: Seq<(usize, SlideStatus)>,
    cap: nat,
    g: u64,
    idxs: Seq<usize>,
) -> Seq<(usize, u64)>
    decreases idxs.len(),
{
    if idxs.len() == 0 {
        Seq::empty()
    } else {
        let first = idxs[0];
        let m2 = spec_request_model(m, cap, g, first);
        let g2 = if spec_needs_fetch(m, first) {
            spec_next_gen(g)
        } else {
            g
        };
        let rest = spec_request_all_fetches(m2, cap, g2, idxs.subrange(1, idxs.len() as int));
        if spec_needs_fetch(m, first) {
            seq![(first, g)] + rest
        } else {
            rest
        }
    }
}

/// Promoting the entry for `index` (stored at `slot`) to the front
/// and overwriting its arena slot with `v` rewrites the model into
/// `v` at the front followed by the other entries, and keeps the
/// arena consistent.
proof fn lemma_model_promote_update(
    ls: Seq<(usize, usize)>,
    es: Seq<SlideStatus>,
    index: usize,
    slot: usize,
    v: SlideStatus,
)
    requires
        lru_distinct_keys(ls),
        lru_distinct_values(ls),
        forall|i: int| 0 <= i < ls.len() ==> (#[trigger] ls[i]).1 < es.len(),
        lru_has_key(ls, index),
        lru_value_of(ls, index) == slot,
    ensures
        ({
            let l2 = seq![(index, slot)] + lru_remove_key(ls, index);
            let es2 = es.update(slot as int, v);
            &&& map_statuses(l2, es2) == seq![(index, v)] + cache_remove_key(
                map_statuses(ls, es),
                index,
            )
            &&& lru_distinct_values(l2)
            &&& forall|i: int| 0 <= i < l2.len() ==> (#[trigger] l2[i]).1 < es2.len()
            &&& l2.len() <= ls.len()
        }),
{
    let lr = lru_remove_key(ls, index);
    let l2 = seq![(index, slot)] + lr;
    let es2 = es.update(slot as int, v);
    lemma_remove_key_membership(ls, index);
    let i = lru_index_of(ls, index);
    assert(0 <= i < ls.len() && ls[i].0 == index);
    assert forall|w: int| 0 <= w < lr.len() implies (#[trigger] lr[w]).1 != slot
        && lr[w].1 < es.len() by {
        let j = choose|j: int| 0 <= j < ls.len() && ls[j] == lr[w];
        assert(j != i);
        assert(ls[j].1 != ls[i].1);
    };
    lemma_map_statuses_cons((index, slot), lr, es2);
    lemma_map_statuses_update_untouched(lr, es, slot as int, v);
    lemma_map_statuses_filter(ls, es, index);
    assert(es2[slot as int] == v);
    lemma_remove_key_distinct_values(ls, index);
    lemma_remove_key_len_strict(ls, index);
    assert forall|w: int| 0 <= w < l2.len() implies (#[trigger] l2[w]).1 < es2.len() by {
        if w > 0 {
            assert(l2[w] == lr[w - 1]);
        }
    };
    assert(lru_distinct_values(l2)) by {
        assert(forall|w: int| 1 <= w < l2.len() ==> #[trigger] l2[w] == lr[w - 1]);
    }
}

/// A bounded cache of slide content keyed by slide index, with the
/// statuses held in an arena of slots and the recency order in the
/// LRU list.
pub struct SlideCache {
    lru: LruUsize,
    entries: Vec<SlideStatus>,
    capacity: usize,
    next_generation: u64,
}

impl SlideCache {
    pub closed spec fn lru_seq(&self) -> Seq<(usize, usize)> {
        lru_entries(self.lru)
    }

    pub closed spec fn spec_lru_capacity(&self) -> nat {
        lru_capacity(self.lru)
    }

    pub closed spec fn arena(&self) -> Seq<SlideStatus> {
        self.entries@
    }

    pub closed spec fn spec_capacity(&self) -> usize {
        self.capacity
    }

    /// The generation the next fetch will carry.
    pub closed spec fn spec_generation(&self) -> u64 {
        self.next_generation
    }

    /// The cache's contents: statuses keyed by slide index, from
    /// most to least recently used.
    pub open spec fn model(&self) -> Seq<(usize, SlideStatus)> {
        map_statuses(self.lru_seq(), self.arena())
    }

    /// The recency list and the arena are consistent: distinct keys,
    /// distinct in-bounds slots, and no more entries than the bound.
    pub open spec fn wf(&self) -> bool {
        &&& self.spec_capacity() >= 1
        &&& self.spec_lru_capacity() == self.spec_capacity() as nat
        &&& lru_distinct_keys(self.lru_seq())
        &&& lru_distinct_values(self.lru_seq())
        &&& forall|i: int| 0 <= i < self.lru_seq().len()
            ==> (#[trigger] self.lru_seq()[i]).1 < self.arena().len()
        &&& self.lru_seq().len() <= self.spec_capacity()
    }

    /// An empty cache bounded by `capacity`.
    pub fn new(capacity: usize) -> (r: SlideCache)
        requires
            capacity >= 1,
        ensures
            r.wf(),
            r.model() == Seq::<(usize, SlideStatus)>::empty(),
            r.spec_capacity() == capacity,
            r.spec_generation() == 0,
    {
        let r = SlideCache {
            lru: lru_new(capacity),
            entries: Vec::new(),
            capacity,
            next_generation: 0,
        };
        proof {
            assert(r.model() =~= Seq::<(usize, SlideStatus)>::empty());
        }
        r
    }

    pub fn capacity(&self) -> (r: usize)
        ensures
            r == self.spec_capacity(),
    {
        self.capacity
    }

    /// How many slides the cache currently tracks.
    pub fn len(&self) -> (r: usize)
        ensures
            r == self.model().len(),
    {
        proof {
            lemma_map_statuses_index(self.lru_seq(), self.arena());
        }
        crate::lru_store::lru_len(&self.lru)
    }

    /// Notes that slide `index` is wanted. When the index is absent,
    /// or present as an `Error`, a fetch is issued: the entry becomes
    /// `Loading` with a fresh generation (returned, for the caller to
    /// hand to `on_load_complete`), the least recently used entry
    /// being evicted when a fresh index finds the cache full. A
    /// `Loading` or `Ready` entry issues nothing: requests are
    /// idempotent.
    pub fn request(&mut self, index: usize) -> (fetch: Option<u64>)
        requires
            old(self).wf(),
        ensures
            final(self).wf(),
            final(self).spec_capacity() == old(self).spec_capacity(),
            final(self).model() == spec_request_model(
                old(self).model(),
                old(self).spec_capacity() as nat,
                old(self).spec_generation(),
                index,
            ),
            fetch == if spec_needs_fetch(old(self).model(), index) {
                Some(old(self).spec_generation())
            } else {
                None::<u64>
            },
            final(self).spec_generation() == if spec_needs_fetch(old(self).model(), index) {
                spec_next_gen(old(self).spec_generation())
            } else {
                old(self).spec_generation()
            },
    {
        proof {
            lemma_model_lookup(self.lru_seq(), self.arena(), index);
            lemma_map_statuses_index(self.lru_seq(), self.arena());
        }
        let g = self.next_generation;
        match lru_peek(&self.lru, index) {
            Some(slot) => {
                proof {
                    let ls = self.lru_seq();
                    let i = lru_index_of(ls, index);
                    assert(0 <= i < ls.len() && ls[i].0 == index);
                    assert(ls[i].1 < self.arena().len());
                }
                let refetch = matches!(self.entries[slot], SlideStatus::Error(_));
                if !refetch {
                    proof {
                        assert(!spec_needs_fetch(old(self).model(), index));
                    }
                    return None;
                }
                // Re-fetch a failed slide: reuse its slot, promote it,
                // and mark it Loading under a fresh generation.
                self.next_generation = if g == u64::MAX { 0 } else { g + 1 };
                self.entries.set(slot, SlideStatus::Loading(g));
                let _displaced = lru_push(&mut self.lru, index, slot);
                proof {
                    lemma_model_promote_update(
                        old(self).lru_seq(),
                        old(self).arena(),
                        index,
                        slot,
                        SlideStatus::Loading(g),
                    );
                    assert(self.lru_seq() == seq![(index, slot)]
                        + lru_remove_key(old(self).lru_seq(), index));
                }
                Some(g)
            }
            None => {
                self.next_generation = if g == u64::MAX { 0 } else { g + 1 };
                let used = crate::lru_store::lru_len(&self.lru);
                if used == self.capacity {
                    // Full: reuse the evicted entry's slot.
                    let popped = lru_pop_lru(&mut self.lru);
                    let (_evicted_key, slot) = match popped {
                        Some(p) => p,
                        None => vstd::pervasive::unreached(),
                    };
                    proof {
                        let ls = old(self).lru_seq();
                        assert(ls.last().1 < old(self).arena().len());
                        assert(forall|w: int| 0 <= w < ls.len() - 1
                            ==> (#[trigger] ls.drop_last()[w]) == ls[w]);
                    }
                    self.entries.set(slot, SlideStatus::Loading(g));
                    let _displaced = lru_push(&mut self.lru, index, slot);
                    proof {
                        let ls = old(self).lru_seq();
                        let l1 = ls.drop_last();
                        let es = old(self).arena();
                        let es2 = es.update(slot as int, SlideStatus::Loading(g));
                        assert(!lru_has_key(l1, index)) by {
                            assert(forall|w: int| 0 <= w < l1.len()
                                ==> (#[trigger] l1[w]) == ls[w]);
                        }
                        assert(self.lru_seq() == seq![(index, slot)] + l1);
                        assert forall|w: int| 0 <= w < l1.len() implies
                            (#[trigger] l1[w]).1 != slot && l1[w].1 < es.len() by {
                            assert(l1[w] == ls[w]);
                            assert(ls[w].1 != ls[ls.len() - 1].1);
                        };
                        lemma_map_statuses_cons((index, slot), l1, es2);
                        lemma_map_statuses_update_untouched(
                            l1,
                            es,
                            slot as int,
                            SlideStatus::Loading(g),
                        );
                        assert(map_statuses(l1, es) == old(self).model().drop_last()) by {
                            assert(old(self).model() == map_statuses(l1, es).push(
                                (ls.last().0, es[ls.last().1 as int]),
                            ));
                            assert(old(self).model().drop_last() =~= map_statuses(l1, es));
                        }
                        assert(es2[slot as int] == SlideStatus::Loading(g));
                        assert(self.model() == seq![(index, SlideStatus::Loading(g))]
                            + old(self).model().drop_last());
                        lemma_map_statuses_index(ls, es);
                        assert(old(self).model().len() >= old(self).spec_capacity());
                        assert(lru_distinct_values(self.lru_seq())) by {
                            assert(forall|w: int| 1 <= w < self.lru_seq().len()
                                ==> #[trigger] self.lru_seq()[w] == l1[w - 1]);
                        }
                        assert forall|w: int| 0 <= w < self.lru_seq().len()
                            implies (#[trigger] self.lru_seq()[w]).1 < self.arena().len() by {
                            if w > 0 {
                                assert(self.lru_seq()[w] == l1[w - 1]);
                            }
                        };
                    }
                    Some(g)
                } else {
                    // Room left: a new slot at the end of the arena.
                    let slot = self.entries.len();
                    self.entries.push(SlideStatus::Loading(g));
                    let _displaced = lru_push(&mut self.lru, index, slot);
                    proof {
                        let ls = old(self).lru_seq();
                        let es = old(self).arena();
                        let es2 = es.push(SlideStatus::Loading(g));
                        assert(self.lru_seq() == seq![(index, slot)] + ls);
                        lemma_map_statuses_cons((index, slot), ls, es2);
                        lemma_map_statuses_push_untouched(ls, es, SlideStatus::Loading(g));
                        assert(es2[slot as int] == SlideStatus::Loading(g));
                        assert(self.model() == seq![(index, SlideStatus::Loading(g))]
                            + old(self).model());
                        lemma_map_statuses_index(ls, es);
                        assert(old(self).model().len() < old(self).spec_capacity());
                        assert(lru_distinct_values(self.lru_seq())) by {
                            assert(forall|w: int| 1 <= w < self.lru_seq().len()
                                ==> #[trigger] self.lru_seq()[w] == ls[w - 1]);
                        }
                        assert forall|w: int| 0 <= w < self.lru_seq().len()
                            implies (#[trigger] self.lru_seq()[w]).1 < self.arena().len() by {
                            if w > 0 {
                                assert(self.lru_seq()[w] == ls[w - 1]);
                            }
                        };
                    }
                    Some(g)
                }
            }
        }
    }

    /// Whether a completion for `index` with generation `generation`
    /// is still the authoritative writer for the entry.
    pub open spec fn spec_completion_applies(
        m: Seq<(usize, SlideStatus)>,
        index: usize,
        generation: u64,
    ) -> bool {
        &&& cache_has_key(m, index)
        &&& cache_status_of(m, index) matches SlideStatus::Loading(g) && g == generation
    }

    /// A fetch completed. The result is applied only when the entry
    /// still waits for exactly this fetch's generation — a stale or
    /// superseded completion is ignored, making the cache
    /// last-write-wins per key. A parsed slide is stored `Ready` and
    /// its step count is returned (for the caller to hand to the
    /// navigation machine when the slide is the one displayed); a
    /// failure is stored `Error` with its diagnostics, never a panic.
    pub fn on_load_complete(
        &mut self,
        index: usize,
        generation: u64,
        result: Result<Slide, LoadFailure>,
    ) -> (num_steps: Option<usize>)
        requires
            old(self).wf(),
        ensures
            final(self).wf(),
            final(self).spec_capacity() == old(self).spec_capacity(),
            final(self).spec_generation() == old(self).spec_generation(),
            Self::spec_completion_applies(old(self).model(), index, generation) ==> {
                &&& final(self).model() == seq![
                    (
                        index,
                        match result {
                            Ok(slide) => SlideStatus::Ready(slide),
                            Err(f) => SlideStatus::Error(f),
                        },
                    ),
                ] + cache_remove_key(old(self).model(), index)
                &&& num_steps == match result {
                    Ok(slide) => Some(slide.spec_num_steps()),
                    Err(_) => None::<usize>,
                }
            },
            !Self::spec_completion_applies(old(self).model(), index, generation) ==> {
                &&& final(self).model() == old(self).model()
                &&& num_steps is None
            },
    {
        proof {
            lemma_model_lookup(self.lru_seq(), self.arena(), index);
        }
        match lru_peek(&self.lru, index) {
            Some(slot) => {
                proof {
                    let ls = self.lru_seq();
                    let i = lru_index_of(ls, index);
                    assert(0 <= i < ls.len() && ls[i].0 == index);
                    assert(ls[i].1 < self.arena().len());
                }
                let applies = match &self.entries[slot] {
                    SlideStatus::Loading(g) => *g == generation,
                    _ => false,
                };
                if !applies {
                    return None;
                }
                let (status, num_steps) = match result {
                    Ok(slide) => {
                        let n = slide.num_steps();
                        (SlideStatus::Ready(slide), Some(n))
                    }
                    Err(f) => (SlideStatus::Error(f), None),
                };
                self.entries.set(slot, status);
                let _displaced = lru_push(&mut self.lru, index, slot);
                proof {
                    lemma_model_promote_update(
                        old(self).lru_seq(),
                        old(self).arena(),
                        index,
                        slot,
                        self.arena()[slot as int],
                    );
                    assert(self.lru_seq() == seq![(index, slot)]
                        + lru_remove_key(old(self).lru_seq(), index));
                }
                num_steps
            }
            None => None,
        }
    }

    /// Whether the cache holds an entry for `index`, in any state.
    pub fn has_entry(&self, index: usize) -> (r: bool)
        requires
            self.wf(),
        ensures
            r == cache_has_key(self.model(), index),
    {
        proof {
            lemma_model_lookup(self.lru_seq(), self.arena(), index);
        }
        lru_peek(&self.lru, index).is_some()
    }

    /// The step count of `index`, when its content is ready.
    pub fn num_steps_of(&self, index: usize) -> (r: Option<usize>)
        requires
            self.wf(),
        ensures
            r == if cache_has_key(self.model(), index) && cache_status_of(
                self.model(),
                index,
            ) is Ready {
                Some(cache_status_of(self.model(), index)->Ready_0.spec_num_steps())
            } else {
                None::<usize>
            },
    {
        proof {
            lemma_model_lookup(self.lru_seq(), self.arena(), index);
        }
        match lru_peek(&self.lru, index) {
            Some(slot) => {
                proof {
                    let ls = self.lru_seq();
                    let i = lru_index_of(ls, index);
                    assert(0 <= i < ls.len() && ls[i].0 == index);
                    assert(ls[i].1 < self.arena().len());
                }
                match &self.entries[slot] {
                    SlideStatus::Ready(slide) => Some(slide.num_steps()),
                    _ => None,
                }
            }
            None => None,
        }
    }

    /// Recomputes the per-render annotation of `index` at `step`:
    /// which of its elements are active. Touching the slide marks it
    /// most recently used, which is what shields the displayed slide
    /// from eviction.
    pub fn animate_slide(&mut self, index: usize, step: usize) -> (r: Option<Vec<bool>>)
        requires
            old(self).wf(),
        ensures
            final(self).wf(),
            final(self).spec_capacity() == old(self).spec_capacity(),
            final(self).spec_generation() == old(self).spec_generation(),
            cache_has_key(old(self).model(), index) ==> final(self).model() == seq![
                (index, cache_status_of(old(self).model(), index)),
            ] + cache_remove_key(old(self).model(), index),
            !cache_has_key(old(self).model(), index) ==> final(self).model()
                == old(self).model() && r is None,
            r is Some <==> cache_has_key(old(self).model(), index) && cache_status_of(
                old(self).model(),
                index,
            ) is Ready,
            r is Some ==> ({
                let slide = cache_status_of(old(self).model(), index)->Ready_0;
                &&& r->0@.len() == slide.spec_elements().len()
                &&& forall|i: int| 0 <= i < r->0@.len()
                    ==> r->0@[i] == slide.spec_elements()[i].spec_visible_at(step as int)
            }),
    {
        proof {
            lemma_model_lookup(self.lru_seq(), self.arena(), index);
        }
        match lru_get(&mut self.lru, index) {
            Some(slot) => {
                proof {
                    let ls = old(self).lru_seq();
                    let i = lru_index_of(ls, index);
                    assert(0 <= i < ls.len() && ls[i].0 == index);
                    assert(ls[i].1 < self.arena().len());
                    let es = old(self).arena();
                    assert(es.update(slot as int, es[slot as int]) =~= es);
                    lemma_model_promote_update(ls, es, index, slot, es[slot as int]);
                    assert(self.lru_seq() == seq![(index, slot)] + lru_remove_key(ls, index));
                }
                match &self.entries[slot] {
                    SlideStatus::Ready(slide) => Some(slide.animate_for_step(step)),
                    _ => None,
                }
            }
            None => None,
        }
    }

    /// Requests the whole prefetch window around `current`: one
    /// slide back and two ahead. Returns the fetches to issue, as
    /// `(index, generation)` pairs in window order.
    pub fn request_window(&mut self, current: usize) -> (fetches: Vec<(usize, u64)>)
        requires
            old(self).wf(),
        ensures
            final(self).wf(),
            final(self).spec_capacity() == old(self).spec_capacity(),
            final(self).model() == spec_request_all(
                old(self).model(),
                old(self).spec_capacity() as nat,
                old(self).spec_generation(),
                spec_window(current),
            ).0,
            final(self).spec_generation() == spec_request_all(
                old(self).model(),
                old(self).spec_capacity() as nat,
                old(self).spec_generation(),
                spec_window(current),
            ).1,
            fetches@ == spec_request_all_fetches(
                old(self).model(),
                old(self).spec_capacity() as nat,
                old(self).spec_generation(),
                spec_window(current),
            ),
    {
        let ghost cap = old(self).spec_capacity() as nat;
        let mut window: Vec<usize> = Vec::new();
        if current >= 2 {
            window.push(current - 1);
        }
        window.push(current);
        if current <= usize::MAX - 1 {
            window.push(current + 1);
        }
        if current <= usize::MAX - 2 {
            window.push(current + 2);
        }
        proof {
            assert(window@ =~= spec_window(current));
        }
        let ghost m0 = old(self).model();
        let ghost g0 = old(self).spec_generation();
        let mut fetches: Vec<(usize, u64)> = Vec::new();
        let mut i: usize = 0;
        proof {
            assert(window@.skip(0) =~= window@);
            assert(fetches@ + spec_request_all_fetches(m0, cap, g0, window@)
                =~= spec_request_all_fetches(m0, cap, g0, window@));
        }
        while i < window.len()
            invariant
                0 <= i <= window@.len(),
                self.wf(),
                self.spec_capacity() == old(self).spec_capacity(),
                cap == old(self).spec_capacity() as nat,
                spec_request_all(m0, cap, g0, window@) == spec_request_all(
                    self.model(),
                    cap,
                    self.spec_generation(),
                    window@.skip(i as int),
                ),
                spec_request_all_fetches(m0, cap, g0, window@) == fetches@
                    + spec_request_all_fetches(
                    self.model(),
                    cap,
                    self.spec_generation(),
                    window@.skip(i as int),
                ),
            decreases window@.len() - i,
        {
            let ghost m_pre = self.model();
            let ghost g_pre = self.spec_generation();
            let ghost rem = window@.skip(i as int);
            proof {
                assert(rem.len() > 0 && rem[0] == window@[i as int]);
                assert(rem.subrange(1, rem.len() as int) =~= window@.skip(i + 1));
            }
            let index = window[i];
            let fetch = self.request(index);
            if let Some(g) = fetch {
                fetches.push((index, g));
            }
            proof {
                if spec_needs_fetch(m_pre, window@[i as int]) {
                    assert(fetches@ == fetches@.subrange(0, fetches@.len() - 1).push(
                        (window@[i as int], g_pre),
                    ));
                    assert(fetches@.subrange(0, fetches@.len() - 1)
                        + (seq![(window@[i as int], g_pre)] + spec_request_all_fetches(
                            self.model(),
                            cap,
                            self.spec_generation(),
                            window@.skip(i + 1),
                        )) =~= fetches@ + spec_request_all_fetches(
                            self.model(),
                            cap,
                            self.spec_generation(),
                            window@.skip(i + 1),
                        ));
                }
            }
            i = i + 1;
        }
        proof {
            assert(window@.skip(window@.len() as int) =~= Seq::<usize>::empty());
        }
        fetches
    }
}


/// The model of a well-formed cache keys every slide index at most
/// once.
pub proof fn lemma_model_distinct_keys(c: &SlideCache)
    requires
        c.wf(),
    ensures
        cache_distinct_keys(c.model()),
{
    lemma_map_statuses_index(c.lru_seq(), c.arena());
    let m = c.model();
    let ls = c.lru_seq();
    assert forall|i: int, j: int| 0 <= i < j < m.len() implies
        (#[trigger] m[i]).0 != (#[trigger] m[j]).0 by {
        assert(m[i].0 == ls[i].0 && m[j].0 == ls[j].0);
        assert(ls[i].0 != ls[j].0);
    };
}

/// Law (cache bound): requesting a fresh slide index of a full cache
/// stays within the bound and evicts exactly the least-recently-used
/// entry — the fresh index enters, the last entry's key leaves, and
/// every other key stays.
pub proof fn lemma_full_insert_evicts_lru(
    m: Seq<(usize, SlideStatus)>,
    cap: nat,
    g: u64,
    index: usize,
)
    requires
        cache_distinct_keys(m),
        m.len() == cap,
        cap >= 1,
        !cache_has_key(m, index),
    ensures
        ({
            let m2 = spec_request_model(m, cap, g, index);
            &&& m2.len() == cap
            &&& cache_has_key(m2, index)
            &&& !cache_has_key(m2, m.last().0)
            &&& forall|k: usize| k != m.last().0 && cache_has_key(m, k)
                ==> cache_has_key(m2, k)
        }),
{
    let m2 = spec_request_model(m, cap, g, index);
    assert(spec_needs_fetch(m, index));
    assert(m2 == seq![(index, SlideStatus::Loading(g))] + m.drop_last());
    assert(m2[0].0 == index);
    assert(cache_has_key(m2, index));
    assert forall|w: int| 1 <= w < m2.len() implies (#[trigger] m2[w]).0 != m.last().0 by {
        assert(m2[w] == m.drop_last()[w - 1]);
        assert(m.drop_last()[w - 1] == m[w - 1]);
        assert(m[w - 1].0 != m[m.len() - 1].0);
    };
    assert(!cache_has_key(m2, m.last().0)) by {
        assert(m2[0].0 == index);
        assert(index != m.last().0);
    }
    assert forall|k: usize| k != m.last().0 && cache_has_key(m, k)
        implies cache_has_key(m2, k) by {
        let i = choose|i: int| 0 <= i < m.len() && (#[trigger] m[i]).0 == k;
        assert(i < m.len() - 1);
        assert(m2[i + 1] == m.drop_last()[i] && m.drop_last()[i] == m[i]);
        assert(m2[i + 1].0 == k);
    };
}

/// Law (exactly one new fetch): requesting an absent — for example,
/// previously evicted — slide index issues a fetch and leaves the
/// entry `Loading`; an immediately repeated request issues nothing.
pub proof fn lemma_refetch_once(m: Seq<(usize, SlideStatus)>, cap: nat, g: u64, index: usize)
    requires
        cache_distinct_keys(m),
        !cache_has_key(m, index),
        cap >= 1,
    ensures
        spec_needs_fetch(m, index),
        ({
            let m2 = spec_request_model(m, cap, g, index);
            &&& cache_has_key(m2, index)
            &&& cache_status_of(m2, index) == SlideStatus::Loading(g)
            &&& !spec_needs_fetch(m2, index)
        }),
{
    let m2 = spec_request_model(m, cap, g, index);
    let tail = if m.len() >= cap {
        m.drop_last()
    } else {
        m
    };
    assert(m2 == seq![(index, SlideStatus::Loading(g))] + tail);
    assert(m2[0].0 == index);
    assert(cache_has_key(m2, index));
    assert forall|w: int| 1 <= w < m2.len() implies (#[trigger] m2[w]).0 != index by {
        assert(m2[w] == tail[w - 1]);
        if m.len() >= cap {
            assert(tail[w - 1] == m[w - 1]);
        }
        assert(m[w - 1].0 != index);
    };
    let j = cache_index_of(m2, index);
    assert(0 <= j < m2.len() && m2[j].0 == index);
    assert(j == 0);
    assert(cache_status_of(m2, index) == SlideStatus::Loading(g));
}

} // verus!
