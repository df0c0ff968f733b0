//! Navigation position state machine: owns the current
//! `(slide, step)` pair and the cached step counts of recently loaded
//! slides, and resolves backward navigation into not-yet-loaded
//! slides through a sentinel step.

use vstd::prelude::*;
use crate::lru_store::{
    LruUsize, lru_entries, lru_capacity, lru_has_key, lru_value_of, lru_distinct_keys,
    lru_after_insert, lru_remove_key, lru_new, lru_peek, lru_push,
};

verus! {

/// Placeholder step value meaning "the final step of this slide, to
/// be resolved once its step count is known".
pub const SENTINEL_LAST: usize = usize::MAX;

/// The reference sizing of the step-count cache.
pub const DEFAULT_STEP_CACHE_CAPACITY: usize = 50;

/// Whether every cached step count is at least one.
pub open spec fn all_counts_positive(s: Seq<(usize, usize)>) -> bool {
    forall|i: int| 0 <= i < s.len() ==> (#[trigger] s[i]).1 >= 1
}

proof fn lemma_remove_key_counts_positive(s: Seq<(usize, usize)>, k: usize)
    requires
        all_counts_positive(s),
    ensures
        all_counts_positive(lru_remove_key(s, k)),
    decreases s.len(),
{
    reveal(Seq::filter);
    if s.len() > 0 {
        assert(all_counts_positive(s.drop_last())) by {
            assert(forall|i: int| 0 <= i < s.len() - 1 ==> s.drop_last()[i] == s[i]);
        }
        lemma_remove_key_counts_positive(s.drop_last(), k);
    }
}

/// The current position of a viewer, with the step counts it has
/// learned about recently loaded slides.
pub struct Navigation {
    current_slide: usize,
    current_step: usize,
    steps_cache: LruUsize,
}

impl Navigation {
    pub closed spec fn spec_slide(&self) -> usize {
        self.current_slide
    }

    pub closed spec fn spec_step(&self) -> usize {
        self.current_step
    }

    /// The cached step counts, most recently stored first.
    pub closed spec fn cache_entries(&self) -> Seq<(usize, usize)> {
        lru_entries(self.steps_cache)
    }

    pub closed spec fn cache_capacity(&self) -> nat {
        lru_capacity(self.steps_cache)
    }

    /// The cached step count of `slide`, if it is known.
    pub open spec fn known_steps(&self, slide: usize) -> Option<usize> {
        if lru_has_key(self.cache_entries(), slide) {
            Some(lru_value_of(self.cache_entries(), slide))
        } else {
            None
        }
    }

    /// The last step of the current slide, as far as it is known:
    /// the cached step count, or the sentinel.
    pub open spec fn spec_last_step(&self) -> usize {
        match self.known_steps(self.spec_slide()) {
            Some(n) => n,
            None => SENTINEL_LAST,
        }
    }

    /// Both indices are at least one (the sentinel included), the
    /// cache is consistent, and every cached count is at least one.
    pub open spec fn wf(&self) -> bool {
        &&& self.spec_slide() >= 1
        &&& self.spec_step() >= 1
        &&& self.cache_capacity() >= 1
        &&& lru_distinct_keys(self.cache_entries())
        &&& all_counts_positive(self.cache_entries())
    }

    /// A fresh machine at position `(1, 1)` with an empty step-count
    /// cache bounded by `cache_capacity`.
    pub fn new(cache_capacity: usize) -> (r: Navigation)
        requires
            cache_capacity >= 1,
        ensures
            r.wf(),
            r.spec_slide() == 1,
            r.spec_step() == 1,
            r.cache_entries() == Seq::<(usize, usize)>::empty(),
            r.cache_capacity() == cache_capacity as nat,
    {
        Navigation { current_slide: 1, current_step: 1, steps_cache: lru_new(cache_capacity) }
    }

    pub fn current_slide(&self) -> (r: usize)
        ensures
            r == self.spec_slide(),
    {
        self.current_slide
    }

    pub fn current_step(&self) -> (r: usize)
        ensures
            r == self.spec_step(),
    {
        self.current_step
    }

    /// Jumps to the very beginning: from any state the position
    /// afterwards is `(1, 1)`.
    pub fn first_slide(&mut self)
        requires
            old(self).wf(),
        ensures
            final(self).wf(),
            final(self).spec_slide() == 1,
            final(self).spec_step() == 1,
            final(self).cache_entries() == old(self).cache_entries(),
            final(self).cache_capacity() == old(self).cache_capacity(),
    {
        if self.current_slide != 1 {
            self.current_slide = 1;
        }
        self.current_step = 1;
    }

    /// Moves one slide back, to its first step; at slide 1 the slide
    /// index stays 1.
    pub fn previous_slide(&mut self)
        requires
            old(self).wf(),
        ensures
            final(self).wf(),
            final(self).spec_slide() == if old(self).spec_slide() > 1 {
                (old(self).spec_slide() - 1) as usize
            } else {
                1usize
            },
            final(self).spec_step() == 1,
            final(self).cache_entries() == old(self).cache_entries(),
            final(self).cache_capacity() == old(self).cache_capacity(),
    {
        if self.current_slide > 1 {
            self.current_slide = self.current_slide - 1;
        }
        self.current_step = 1;
    }

    /// Moves one slide forward, to its first step.
    pub fn next_slide(&mut self)
        requires
            old(self).wf(),
            old(self).spec_slide() < usize::MAX,
        ensures
            final(self).wf(),
            final(self).spec_slide() == old(self).spec_slide() + 1,
            final(self).spec_step() == 1,
            final(self).cache_entries() == old(self).cache_entries(),
            final(self).cache_capacity() == old(self).cache_capacity(),
    {
        self.current_slide = self.current_slide + 1;
        self.current_step = 1;
    }

    /// Moves one step back; at the first step of a slide it moves to
    /// the last step of the previous slide, using the cached step
    /// count when known and the sentinel otherwise. At `(1, 1)`
    /// nothing changes.
    pub fn previous_step(&mut self)
        requires
            old(self).wf(),
        ensures
            final(self).wf(),
            final(self).cache_entries() == old(self).cache_entries(),
            final(self).cache_capacity() == old(self).cache_capacity(),
            old(self).spec_step() > 1 ==> final(self).spec_slide() == old(self).spec_slide()
                && final(self).spec_step() == old(self).spec_step() - 1,
            old(self).spec_step() == 1 && old(self).spec_slide() > 1 ==> {
                &&& final(self).spec_slide() == old(self).spec_slide() - 1
                &&& final(self).spec_step() == match old(self).known_steps(
                    (old(self).spec_slide() - 1) as usize,
                ) {
                    Some(n) => n,
                    None => SENTINEL_LAST,
                }
            },
            old(self).spec_step() == 1 && old(self).spec_slide() == 1 ==> *final(self)
                == *old(self),
    {
        if self.current_step > 1 {
            self.current_step = self.current_step - 1;
        } else if self.current_slide > 1 {
            self.current_slide = self.current_slide - 1;
            self.current_step = match lru_peek(&self.steps_cache, self.current_slide) {
                Some(n) => n,
                None => SENTINEL_LAST,
            };
        }
    }

    /// Moves one step forward; past the last known step of the
    /// current slide it moves to the first step of the next slide.
    /// While the current slide's step count is unknown the last step
    /// is taken to be the sentinel.
    pub fn next_step(&mut self)
        requires
            old(self).wf(),
            old(self).spec_step() >= old(self).spec_last_step() ==> old(self).spec_slide()
                < usize::MAX,
        ensures
            final(self).wf(),
            final(self).cache_entries() == old(self).cache_entries(),
            final(self).cache_capacity() == old(self).cache_capacity(),
            old(self).spec_step() < old(self).spec_last_step() ==> final(self).spec_slide()
                == old(self).spec_slide() && final(self).spec_step() == old(self).spec_step()
                + 1,
            old(self).spec_step() >= old(self).spec_last_step() ==> final(self).spec_slide()
                == old(self).spec_slide() + 1 && final(self).spec_step() == 1,
    {
        let last_step = match lru_peek(&self.steps_cache, self.current_slide) {
            Some(n) => n,
            None => SENTINEL_LAST,
        };
        if self.current_step < last_step {
            self.current_step = self.current_step + 1;
        } else {
            self.current_slide = self.current_slide + 1;
            self.current_step = 1;
        }
    }

    /// Records that `index` has `num_steps` steps (clamped to at
    /// least one), and resolves the sentinel if the current position
    /// was waiting for exactly this slide's count.
    pub fn on_slide_loaded(&mut self, index: usize, num_steps: usize)
        requires
            old(self).wf(),
        ensures
            final(self).wf(),
            final(self).cache_capacity() == old(self).cache_capacity(),
            final(self).cache_entries() == lru_after_insert(
                old(self).cache_entries(),
                old(self).cache_capacity(),
                index,
                if num_steps >= 1 { num_steps } else { 1usize },
            ),
            final(self).spec_slide() == old(self).spec_slide(),
            old(self).spec_slide() == index && old(self).spec_step() == SENTINEL_LAST
                ==> final(self).spec_step() == if num_steps >= 1 { num_steps } else { 1usize },
            !(old(self).spec_slide() == index && old(self).spec_step() == SENTINEL_LAST)
                ==> final(self).spec_step() == old(self).spec_step(),
    {
        let clamped = if num_steps >= 1 { num_steps } else { 1 };
        let _displaced = lru_push(&mut self.steps_cache, index, clamped);
        proof {
            let olds = old(self).cache_entries();
            let s = self.cache_entries();
            lemma_remove_key_counts_positive(olds, index);
            let removed = lru_remove_key(olds, index);
            assert forall|i: int| 0 <= i < s.len() implies (#[trigger] s[i]).1 >= 1 by {
                if i > 0 {
                    if lru_has_key(olds, index) {
                        assert(s[i] == removed[i - 1]);
                    } else if olds.len() >= old(self).cache_capacity() {
                        assert(s[i] == olds.drop_last()[i - 1]);
                        assert(olds.drop_last()[i - 1] == olds[i - 1]);
                    } else {
                        assert(s[i] == olds[i - 1]);
                    }
                }
            };
        }
        if self.current_slide == index && self.current_step == SENTINEL_LAST {
            self.current_step = clamped;
        }
    }

    /// Unconditionally adopts a position published by an external
    /// authority.
    pub fn go_to(&mut self, slide: usize, step: usize)
        requires
            old(self).wf(),
            slide >= 1,
            step >= 1,
        ensures
            final(self).wf(),
            final(self).spec_slide() == slide,
            final(self).spec_step() == step,
            final(self).cache_entries() == old(self).cache_entries(),
            final(self).cache_capacity() == old(self).cache_capacity(),
    {
        if self.current_slide != slide {
            self.current_slide = slide;
        }
        self.current_step = step;
    }
}

} // verus!
