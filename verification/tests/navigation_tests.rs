use presentrs::navigation::{Navigation, SENTINEL_LAST};

#[test]
fn first_slide_yields_one_one_from_any_state() {
    let mut nav = Navigation::new(50);
    nav.go_to(5, 3);
    nav.first_slide();
    assert_eq!(nav.current_slide(), 1);
    assert_eq!(nav.current_step(), 1);

    let mut nav = Navigation::new(50);
    nav.first_slide();
    assert_eq!((nav.current_slide(), nav.current_step()), (1, 1));
}

#[test]
fn previous_slide_at_slide_one_keeps_slide_one() {
    for k in [1usize, 2, 7, 40] {
        let mut nav = Navigation::new(50);
        nav.go_to(1, k);
        nav.previous_slide();
        assert_eq!(nav.current_slide(), 1);
        assert_eq!(nav.current_step(), 1);
    }
}

#[test]
fn previous_slide_moves_back_to_first_step() {
    let mut nav = Navigation::new(50);
    nav.go_to(4, 6);
    nav.previous_slide();
    assert_eq!((nav.current_slide(), nav.current_step()), (3, 1));
}

#[test]
fn next_slide_moves_forward_to_first_step() {
    let mut nav = Navigation::new(50);
    nav.go_to(4, 6);
    nav.next_slide();
    assert_eq!((nav.current_slide(), nav.current_step()), (5, 1));
}

#[test]
fn sentinel_resolution_after_late_load() {
    // Starting at (5, 1) with slide 4 not yet cached, stepping back
    // lands on slide 4's unresolved last step; learning that slide 4
    // has 7 steps resolves the position to (4, 7).
    let mut nav = Navigation::new(50);
    nav.go_to(5, 1);
    nav.previous_step();
    assert_eq!(nav.current_slide(), 4);
    assert_eq!(nav.current_step(), SENTINEL_LAST);
    nav.on_slide_loaded(4, 7);
    assert_eq!((nav.current_slide(), nav.current_step()), (4, 7));
}

#[test]
fn previous_step_uses_cached_count_when_known() {
    let mut nav = Navigation::new(50);
    nav.on_slide_loaded(2, 9);
    nav.go_to(3, 1);
    nav.previous_step();
    assert_eq!((nav.current_slide(), nav.current_step()), (2, 9));
}

#[test]
fn previous_step_within_a_slide_decrements() {
    let mut nav = Navigation::new(50);
    nav.go_to(3, 5);
    nav.previous_step();
    assert_eq!((nav.current_slide(), nav.current_step()), (3, 4));
}

#[test]
fn previous_step_at_the_origin_does_nothing() {
    let mut nav = Navigation::new(50);
    nav.previous_step();
    assert_eq!((nav.current_slide(), nav.current_step()), (1, 1));
}

#[test]
fn next_step_respects_the_known_step_count() {
    let mut nav = Navigation::new(50);
    nav.on_slide_loaded(1, 3);
    nav.next_step();
    assert_eq!((nav.current_slide(), nav.current_step()), (1, 2));
    nav.next_step();
    assert_eq!((nav.current_slide(), nav.current_step()), (1, 3));
    nav.next_step();
    assert_eq!((nav.current_slide(), nav.current_step()), (2, 1));
}

#[test]
fn next_step_on_an_unknown_slide_keeps_stepping() {
    let mut nav = Navigation::new(50);
    nav.next_step();
    assert_eq!((nav.current_slide(), nav.current_step()), (1, 2));
    nav.next_step();
    assert_eq!((nav.current_slide(), nav.current_step()), (1, 3));
}

#[test]
fn slide_loaded_clamps_the_count_to_at_least_one() {
    let mut nav = Navigation::new(50);
    nav.on_slide_loaded(2, 0);
    nav.go_to(3, 1);
    nav.previous_step();
    assert_eq!((nav.current_slide(), nav.current_step()), (2, 1));
}

#[test]
fn sentinel_resolves_only_for_the_awaited_slide() {
    let mut nav = Navigation::new(50);
    nav.go_to(5, 1);
    nav.previous_step();
    assert_eq!(nav.current_step(), SENTINEL_LAST);
    nav.on_slide_loaded(3, 7);
    assert_eq!(nav.current_slide(), 4);
    assert_eq!(nav.current_step(), SENTINEL_LAST);
    nav.on_slide_loaded(4, 2);
    assert_eq!((nav.current_slide(), nav.current_step()), (4, 2));
}

#[test]
fn step_count_cache_is_bounded() {
    // With a capacity of 2, learning a third count evicts the least
    // recently stored one.
    let mut nav = Navigation::new(2);
    nav.on_slide_loaded(1, 7);
    nav.on_slide_loaded(2, 8);
    nav.on_slide_loaded(3, 9);
    nav.go_to(2, 1);
    nav.previous_step();
    // Slide 1's count was evicted: the step is unresolved.
    assert_eq!(nav.current_slide(), 1);
    assert_eq!(nav.current_step(), SENTINEL_LAST);
}
