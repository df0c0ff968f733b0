//! A whole-session story: a presenter steps through a deck with the
//! keyboard while a follower stays synchronized through the hub, and
//! both keep their slide caches warm.

use presentrs::cache::SlideCache;
use presentrs::input::{key_command, NavCommand};
use presentrs::navigation::Navigation;
use presentrs::slide::Slide;
use presentrs::steps::AnimatedElement;
use presentrs::sync::{hub_forward, hub_inbound, SyncSession};

fn deck_slide(index: usize) -> Slide {
    // Slide 1 animates two elements over three steps; the others are
    // plain.
    if index == 1 {
        Slide::new(vec![
            AnimatedElement::parse("1-"),
            AnimatedElement::parse("2-3"),
        ])
    } else {
        Slide::new(Vec::new())
    }
}

#[test]
fn a_presented_deck_keeps_a_follower_in_step() {
    // The presenter's side.
    let mut presenter_nav = Navigation::new(50);
    let mut presenter_cache = SlideCache::new(10);
    let mut presenter = SyncSession::new(1, 1);
    presenter.set_presenting(true);
    presenter.connection_opened();

    // The follower's side.
    let mut follower_nav = Navigation::new(50);
    let mut follower = SyncSession::new(1, 1);
    follower.toggle_sync();
    follower.connection_opened();

    // The deck streams in around the current slide.
    for (index, generation) in presenter_cache.request_window(1) {
        let slide = deck_slide(index);
        let steps = presenter_cache.on_load_complete(index, generation, Ok(slide));
        if index == presenter_nav.current_slide() {
            presenter_nav.on_slide_loaded(index, steps.expect("slide parsed"));
        }
    }
    // Slide 1 has three steps; its first step shows one element.
    assert_eq!(presenter_cache.num_steps_of(1), Some(3));
    assert_eq!(
        presenter_cache.animate_slide(1, 1),
        Some(vec![true, false]),
    );

    // The presenter presses the forward key twice.
    for _ in 0..2 {
        match key_command("ArrowRight") {
            Some(NavCommand::NextStep) => presenter_nav.next_step(),
            _ => panic!("the forward key must step forward"),
        }
        let frame = presenter
            .position_changed(presenter_nav.current_slide(), presenter_nav.current_step())
            .expect("presenting publishes each change");

        // The hub relays the frame to the follower's connection.
        let (slide, step) = hub_inbound(&frame).expect("well-formed frame");
        let relayed = hub_forward(1, 0, slide, step).expect("forwarded to the follower");
        assert_eq!(hub_forward(0, 0, slide, step), None);

        let (slide, step) = follower.frame_received(&relayed).expect("followers apply");
        follower_nav.go_to(slide as usize, step as usize);
    }

    // Both ends sit on slide 1, step 3, seeing both elements.
    assert_eq!((presenter_nav.current_slide(), presenter_nav.current_step()), (1, 3));
    assert_eq!((follower_nav.current_slide(), follower_nav.current_step()), (1, 3));
    assert_eq!(
        presenter_cache.animate_slide(1, 3),
        Some(vec![true, true]),
    );

    // One more step leaves the slide's last known step: on to slide 2.
    presenter_nav.next_step();
    assert_eq!((presenter_nav.current_slide(), presenter_nav.current_step()), (2, 1));
}
