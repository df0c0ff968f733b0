use presentrs::cache::{LoadFailure, SlideCache};
use presentrs::slide::Slide;
use presentrs::steps::AnimatedElement;

fn ready_slide(spec: &str) -> Slide {
    Slide::new(vec![AnimatedElement::parse(spec)])
}

fn failure(cause: &str) -> LoadFailure {
    LoadFailure {
        description: String::from("Failed to download slide"),
        cause: Some(String::from(cause)),
        contents: None,
    }
}

#[test]
fn request_is_idempotent_while_loading_or_ready() {
    let mut cache = SlideCache::new(10);
    let first = cache.request(1);
    assert!(first.is_some());
    // A repeated request while the fetch is in flight issues nothing.
    assert_eq!(cache.request(1), None);
    let generation = first.unwrap();
    let steps = cache.on_load_complete(1, generation, Ok(ready_slide("1-3")));
    assert_eq!(steps, Some(3));
    // A request for ready content issues nothing either.
    assert_eq!(cache.request(1), None);
}

#[test]
fn an_error_entry_is_eligible_for_refetch() {
    let mut cache = SlideCache::new(10);
    let generation = cache.request(7).unwrap();
    assert_eq!(
        cache.on_load_complete(7, generation, Err(failure("connection reset"))),
        None,
    );
    assert!(cache.has_entry(7));
    assert_eq!(cache.num_steps_of(7), None);
    // The failed slide can be fetched again, exactly once.
    assert!(cache.request(7).is_some());
    assert_eq!(cache.request(7), None);
}

#[test]
fn filling_past_capacity_evicts_the_least_recently_used() {
    let mut cache = SlideCache::new(2);
    let g1 = cache.request(1).unwrap();
    let g2 = cache.request(2).unwrap();
    cache.on_load_complete(1, g1, Ok(ready_slide("1")));
    cache.on_load_complete(2, g2, Ok(ready_slide("1-2")));
    // Completion order made slide 1 the least recently used.
    assert!(cache.request(3).is_some());
    assert!(!cache.has_entry(1));
    assert!(cache.has_entry(2));
    assert!(cache.has_entry(3));
    assert_eq!(cache.len(), 2);
}

#[test]
fn re_requesting_an_evicted_ready_slide_triggers_exactly_one_fetch() {
    let mut cache = SlideCache::new(2);
    let g1 = cache.request(1).unwrap();
    cache.on_load_complete(1, g1, Ok(ready_slide("1-4")));
    let g2 = cache.request(2).unwrap();
    cache.on_load_complete(2, g2, Ok(ready_slide("1")));
    let g3 = cache.request(3).unwrap();
    cache.on_load_complete(3, g3, Ok(ready_slide("1")));
    // Slide 1 was evicted even though it was ready.
    assert!(!cache.has_entry(1));
    // Re-requesting it triggers exactly one new fetch.
    assert!(cache.request(1).is_some());
    assert_eq!(cache.request(1), None);
}

#[test]
fn a_stale_completion_is_ignored() {
    let mut cache = SlideCache::new(4);
    let generation = cache.request(1).unwrap();
    // A completion for some older fetch of the same slide: not the
    // authoritative writer any more, so nothing changes.
    let stale = generation.wrapping_add(1);
    assert_eq!(cache.on_load_complete(1, stale, Ok(ready_slide("1-9"))), None);
    assert_eq!(cache.num_steps_of(1), None);
    // The authoritative completion still lands.
    assert_eq!(
        cache.on_load_complete(1, generation, Ok(ready_slide("1-9"))),
        Some(9),
    );
    assert_eq!(cache.num_steps_of(1), Some(9));
}

#[test]
fn a_completion_for_an_absent_slide_is_ignored() {
    let mut cache = SlideCache::new(4);
    assert_eq!(cache.on_load_complete(5, 0, Ok(ready_slide("1"))), None);
    assert!(!cache.has_entry(5));
}

#[test]
fn animating_a_slide_shields_it_from_eviction() {
    let mut cache = SlideCache::new(2);
    let g1 = cache.request(1).unwrap();
    cache.on_load_complete(1, g1, Ok(ready_slide("1-2")));
    let g2 = cache.request(2).unwrap();
    cache.on_load_complete(2, g2, Ok(ready_slide("1")));
    // Touch slide 1: it becomes the most recently used.
    let shown = cache.animate_slide(1, 2);
    assert_eq!(shown, Some(vec![true]));
    // The next insertion now evicts slide 2, not slide 1.
    assert!(cache.request(3).is_some());
    assert!(cache.has_entry(1));
    assert!(!cache.has_entry(2));
}

#[test]
fn animating_an_unready_slide_yields_nothing() {
    let mut cache = SlideCache::new(2);
    cache.request(1);
    assert_eq!(cache.animate_slide(1, 1), None);
    assert_eq!(cache.animate_slide(9, 1), None);
}

#[test]
fn the_window_prefetches_one_back_and_two_ahead() {
    let mut cache = SlideCache::new(10);
    let fetches = cache.request_window(5);
    let indices: Vec<usize> = fetches.iter().map(|f| f.0).collect();
    assert_eq!(indices, vec![4, 5, 6, 7]);
    // At the start of the deck there is no slide to prefetch back.
    let mut cache = SlideCache::new(10);
    let fetches = cache.request_window(1);
    let indices: Vec<usize> = fetches.iter().map(|f| f.0).collect();
    assert_eq!(indices, vec![1, 2, 3]);
}

#[test]
fn the_window_skips_what_is_already_loading() {
    let mut cache = SlideCache::new(10);
    cache.request_window(2);
    let fetches = cache.request_window(3);
    let indices: Vec<usize> = fetches.iter().map(|f| f.0).collect();
    // 2, 3 and 4 are already loading; only 5 is new.
    assert_eq!(indices, vec![5]);
}

#[test]
fn generations_differ_between_fetches() {
    let mut cache = SlideCache::new(4);
    let g1 = cache.request(1).unwrap();
    let g2 = cache.request(2).unwrap();
    assert_ne!(g1, g2);
}
