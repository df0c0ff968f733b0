use presentrs::steps::AnimatedElement;
use presentrs::slide::{step_visibility_class, Slide};

fn visible_steps(e: &AnimatedElement, up_to: usize) -> Vec<usize> {
    let mut shown = Vec::new();
    for step in 0..=up_to {
        if e.is_shown_in_step(step) {
            shown.push(step);
        }
    }
    shown
}

#[test]
fn bare_dash_is_visible_from_step_one_on() {
    let e = AnimatedElement::parse("-");
    assert!(!e.is_shown_in_step(0));
    for step in 1..50 {
        assert!(e.is_shown_in_step(step));
    }
    assert!(e.is_shown_in_step(100_000));
    assert_eq!(e.last_known_step(), 1);
}

#[test]
fn open_range_is_visible_from_its_start_on() {
    let e = AnimatedElement::parse("3-");
    assert!(!e.is_shown_in_step(0));
    assert!(!e.is_shown_in_step(1));
    assert!(!e.is_shown_in_step(2));
    for step in 3..40 {
        assert!(e.is_shown_in_step(step));
    }
    assert!(e.is_shown_in_step(1_000_000));
    assert_eq!(e.last_known_step(), 3);
}

#[test]
fn open_start_range_is_a_closed_range_from_one() {
    let e = AnimatedElement::parse("-4");
    assert_eq!(visible_steps(&e, 10), vec![1, 2, 3, 4]);
    assert_eq!(e.last_known_step(), 4);
}

#[test]
fn union_of_a_single_step_and_a_closed_range() {
    let e = AnimatedElement::parse("2,5-7");
    assert_eq!(visible_steps(&e, 10), vec![2, 5, 6, 7]);
    assert_eq!(e.last_known_step(), 7);
}

#[test]
fn empty_spec_shows_nothing() {
    let e = AnimatedElement::parse("");
    assert_eq!(visible_steps(&e, 20), Vec::<usize>::new());
    assert_eq!(e.last_known_step(), 0);
}

#[test]
fn unparsable_token_contributes_nothing() {
    let e = AnimatedElement::parse("junk");
    assert_eq!(visible_steps(&e, 20), Vec::<usize>::new());
    assert_eq!(e.last_known_step(), 0);

    let e = AnimatedElement::parse("2,junk,5");
    assert_eq!(visible_steps(&e, 20), vec![2, 5]);
    assert_eq!(e.last_known_step(), 5);
}

#[test]
fn reversed_range_shows_nothing_but_keeps_its_end_boundary() {
    let e = AnimatedElement::parse("7-3");
    assert_eq!(visible_steps(&e, 20), Vec::<usize>::new());
    assert_eq!(e.last_known_step(), 3);
}

#[test]
fn whole_spec_is_trimmed_but_tokens_are_not() {
    let e = AnimatedElement::parse("  2,5  ");
    assert_eq!(visible_steps(&e, 10), vec![2, 5]);

    // A space inside a token makes that token unparsable.
    let e = AnimatedElement::parse("2, 5");
    assert_eq!(visible_steps(&e, 10), vec![2]);
}

#[test]
fn plus_sign_is_accepted_as_in_standard_number_parsing() {
    let e = AnimatedElement::parse("+3");
    assert_eq!(visible_steps(&e, 10), vec![3]);
}

#[test]
fn overflowing_number_is_dropped() {
    let e = AnimatedElement::parse("99999999999999999999999999");
    assert_eq!(visible_steps(&e, 20), Vec::<usize>::new());
    assert_eq!(e.last_known_step(), 0);
}

#[test]
fn smallest_open_start_wins_over_later_ones() {
    let e = AnimatedElement::parse("9-,4-");
    assert!(!e.is_shown_in_step(3));
    assert!(e.is_shown_in_step(4));
    assert!(e.is_shown_in_step(8));
    assert!(e.is_shown_in_step(9));
    assert_eq!(e.last_known_step(), 9);
}

#[test]
fn last_known_step_takes_closed_ends_and_open_starts() {
    let e = AnimatedElement::parse("1-3,2-");
    assert_eq!(e.last_known_step(), 3);
    let e = AnimatedElement::parse("1-3,8-");
    assert_eq!(e.last_known_step(), 8);
}

#[test]
fn slide_step_count_is_the_maximum_last_known_step() {
    let slide = Slide::new(vec![
        AnimatedElement::parse("1-3"),
        AnimatedElement::parse("2,5-7"),
        AnimatedElement::parse("4-"),
    ]);
    assert_eq!(slide.num_steps(), 7);
}

#[test]
fn slide_without_animated_elements_has_one_step() {
    let slide = Slide::new(Vec::new());
    assert_eq!(slide.num_steps(), 1);

    // Elements that name no step behave the same.
    let slide = Slide::new(vec![AnimatedElement::parse("")]);
    assert_eq!(slide.num_steps(), 1);
}

#[test]
fn animate_for_step_reports_each_element() {
    let slide = Slide::new(vec![
        AnimatedElement::parse("1-2"),
        AnimatedElement::parse("2-"),
        AnimatedElement::parse("3"),
    ]);
    assert_eq!(slide.animate_for_step(1), vec![true, false, false]);
    assert_eq!(slide.animate_for_step(2), vec![true, true, false]);
    assert_eq!(slide.animate_for_step(3), vec![false, true, true]);
    assert_eq!(slide.element_count(), 3);
}

#[test]
fn visibility_classes_follow_the_annotation() {
    assert_eq!(step_visibility_class(true), "active-in-slide-step");
    assert_eq!(step_visibility_class(false), "inactive-in-slide-step");
}
