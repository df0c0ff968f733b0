//! A slide: an ordered collection of animated elements and the step
//! count derived from them when the slide's markup is parsed.

use vstd::prelude::*;
use crate::steps::AnimatedElement;

verus! {

/// The largest `lastKnownStep` over the elements, or 0 when there is
/// none.
pub open spec fn spec_max_last_known(elems: Seq<AnimatedElement>) -> int
    decreases elems.len(),
{
    if elems.len() == 0 {
        0
    } else {
        let rest = spec_max_last_known(elems.drop_last());
        let last = elems.last().spec_last_known_step() as int;
        if last > rest {
            last
        } else {
            rest
        }
    }
}

/// An immutable parsed slide. The per-step active/inactive
/// annotation is a derived, re-computable view, not state.
pub struct Slide {
    elements: Vec<AnimatedElement>,
    num_steps: usize,
}

impl Slide {
    pub closed spec fn spec_elements(&self) -> Seq<AnimatedElement> {
        self.elements@
    }

    pub closed spec fn spec_num_steps(&self) -> usize {
        self.num_steps
    }

    /// The step count is the largest `lastKnownStep` over the
    /// elements, and at least 1.
    pub open spec fn wf(&self) -> bool {
        self.spec_num_steps() as int == if spec_max_last_known(self.spec_elements()) >= 1 {
            spec_max_last_known(self.spec_elements())
        } else {
            1
        }
    }

    /// Builds a slide from its animated elements, in document order.
    pub fn new(elements: Vec<AnimatedElement>) -> (r: Slide)
        ensures
            r.wf(),
            r.spec_elements() == elements@,
    {
        let mut max: usize = 0;
        let mut i: usize = 0;
        while i < elements.len()
            invariant
                0 <= i <= elements@.len(),
                max as int == spec_max_last_known(elements@.take(i as int)),
            decreases elements@.len() - i,
        {
            let last = elements[i].last_known_step();
            proof {
                assert(elements@.take(i + 1).drop_last() =~= elements@.take(i as int));
                assert(elements@.take(i + 1).last() == elements@[i as int]);
            }
            if last > max {
                max = last;
            }
            i = i + 1;
        }
        proof {
            assert(elements@.take(elements@.len() as int) =~= elements@);
        }
        let num_steps = if max >= 1 { max } else { 1 };
        Slide { elements, num_steps }
    }

    /// The number of steps this slide animates through; 1 for a
    /// slide without animated elements.
    pub fn num_steps(&self) -> (r: usize)
        ensures
            r == self.spec_num_steps(),
    {
        self.num_steps
    }

    /// How many elements the slide holds.
    pub fn element_count(&self) -> (r: usize)
        ensures
            r == self.spec_elements().len(),
    {
        self.elements.len()
    }

    /// The derived per-render annotation: for each element, in order,
    /// whether it is active at `step`.
    pub fn animate_for_step(&self, step: usize) -> (r: Vec<bool>)
        ensures
            r@.len() == self.spec_elements().len(),
            forall|i: int| 0 <= i < r@.len()
                ==> r@[i] == self.spec_elements()[i].spec_visible_at(step as int),
    {
        let mut shown: Vec<bool> = Vec::new();
        let mut i: usize = 0;
        while i < self.elements.len()
            invariant
                0 <= i <= self.elements@.len(),
                shown@.len() == i,
                forall|j: int| 0 <= j < i
                    ==> shown@[j] == self.elements@[j].spec_visible_at(step as int),
            decreases self.elements@.len() - i,
        {
            shown.push(self.elements[i].is_shown_in_step(step));
            i = i + 1;
        }
        shown
    }
}

/// Law: a slide's step count is the maximum `lastKnownStep` over its
/// elements whenever some element names a step, and 1 for a slide
/// with no animated elements.
pub proof fn lemma_num_steps_law(s: &Slide)
    requires
        s.wf(),
    ensures
        s.spec_elements().len() == 0 ==> s.spec_num_steps() == 1,
        spec_max_last_known(s.spec_elements()) >= 1 ==> s.spec_num_steps() as int
            == spec_max_last_known(s.spec_elements()),
{
}

/// The class a renderer annotates an element with for the current
/// step: active when the element is shown, inactive otherwise.
pub fn step_visibility_class(shown: bool) -> (r: &'static str)
    ensures
        shown ==> r@ == "active-in-slide-step"@,
        !shown ==> r@ == "inactive-in-slide-step"@,
{
    if shown {
        "active-in-slide-step"
    } else {
        "inactive-in-slide-step"
    }
}

} // verus!
