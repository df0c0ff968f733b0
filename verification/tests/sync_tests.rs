use presentrs::navigation::Navigation;
use presentrs::protocol::{decode_frame, encode_position};
use presentrs::sync::{hub_forward, hub_inbound, SyncSession, SyncState};

#[test]
fn frames_encode_big_endian_and_round_trip() {
    assert_eq!(encode_position(3, 2), vec![0, 3, 0, 2]);
    assert_eq!(encode_position(258, 1), vec![1, 2, 0, 1]);
    assert_eq!(decode_frame(&vec![1, 2, 0, 1]), Some((258, 1)));
    assert_eq!(decode_frame(&encode_position(700, 65535)), Some((700, 65535)));
}

#[test]
fn oversized_positions_saturate() {
    assert_eq!(encode_position(70_000, 2), vec![255, 255, 0, 2]);
    assert_eq!(encode_position(2, usize::MAX), vec![0, 2, 255, 255]);
}

#[test]
fn frames_of_the_wrong_length_are_ignored() {
    assert_eq!(decode_frame(&vec![]), None);
    assert_eq!(decode_frame(&vec![0, 3, 0]), None);
    assert_eq!(decode_frame(&vec![0, 3, 0, 2, 9]), None);
}

#[test]
fn sync_round_trip_reaches_every_follower() {
    // A presenting session publishes (3, 2); the hub forwards it to
    // the other connections; each connected session applies it to
    // its navigation machine.
    let mut presenter = SyncSession::new(1, 1);
    let (connect, published) = presenter.set_presenting(true);
    assert!(connect);
    assert_eq!(published, None);
    let hello = presenter.connection_opened();
    assert_eq!(hello, Some(encode_position(1, 1)));
    let frame = presenter.position_changed(3, 2).expect("presenting publishes");

    // The hub receives the frame on connection 0 and relays it.
    let (slide, step) = hub_inbound(&frame).expect("well-formed frame");
    assert_eq!((slide, step), (3, 2));
    assert_eq!(hub_forward(0, 0, slide, step), None, "no echo to the sender");
    let relayed = hub_forward(1, 0, slide, step).expect("forwarded to others");

    // A syncing follower applies the position.
    let mut follower = SyncSession::new(1, 1);
    follower.toggle_sync();
    follower.connection_opened();
    let apply = follower.frame_received(&relayed).expect("followers apply");
    let mut nav = Navigation::new(50);
    nav.go_to(apply.0 as usize, apply.1 as usize);
    assert_eq!((nav.current_slide(), nav.current_step()), (3, 2));

    // Another presenting session applies it too.
    let mut other = SyncSession::new(1, 1);
    other.set_presenting(true);
    other.connection_opened();
    assert_eq!(other.frame_received(&relayed), Some((3, 2)));

    // An offline session observes nothing.
    let offline = SyncSession::new(1, 1);
    assert_eq!(offline.frame_received(&relayed), None);
}

#[test]
fn toggling_follow_connects_and_disconnects() {
    let mut session = SyncSession::new(2, 4);
    assert_eq!(session.state(), SyncState::Offline);
    assert_eq!(session.toggle_sync(), (true, false));
    assert_eq!(session.state(), SyncState::Syncing);
    assert_eq!(session.toggle_sync(), (false, true));
    assert_eq!(session.state(), SyncState::Offline);
}

#[test]
fn presenting_from_syncing_reuses_the_connection_and_publishes() {
    let mut session = SyncSession::new(3, 2);
    session.toggle_sync();
    session.connection_opened();
    let (connect, published) = session.set_presenting(true);
    assert!(!connect);
    assert_eq!(published, Some(encode_position(3, 2)));
    assert_eq!(session.state(), SyncState::Presenting);
    // Dropping presenter mode keeps the connection, back to syncing.
    let (connect, published) = session.set_presenting(false);
    assert!(!connect);
    assert_eq!(published, None);
    assert_eq!(session.state(), SyncState::Syncing);
}

#[test]
fn toggling_follow_while_presenting_drops_to_syncing() {
    let mut session = SyncSession::new(1, 1);
    session.set_presenting(true);
    session.connection_opened();
    assert_eq!(session.toggle_sync(), (false, false));
    assert_eq!(session.state(), SyncState::Syncing);
}

#[test]
fn local_changes_are_not_published_while_syncing_or_offline() {
    let mut session = SyncSession::new(1, 1);
    assert_eq!(session.position_changed(4, 4), None);
    session.toggle_sync();
    session.connection_opened();
    assert_eq!(session.position_changed(5, 5), None);
}

#[test]
fn malformed_or_out_of_range_positions_are_dropped() {
    let mut session = SyncSession::new(1, 1);
    session.toggle_sync();
    session.connection_opened();
    assert_eq!(session.frame_received(&vec![0, 3, 0]), None);
    // A frame naming slide 0 or step 0 is not a valid position.
    assert_eq!(session.frame_received(&vec![0, 0, 0, 2]), None);
    assert_eq!(session.frame_received(&vec![0, 3, 0, 0]), None);
}

#[test]
fn reconnecting_is_bounded_and_surfaced() {
    let mut session = SyncSession::new(1, 1);
    session.toggle_sync();
    session.connection_opened();
    // Nine consecutive losses still ask for a reconnect.
    for _ in 0..9 {
        assert!(session.connection_lost());
        assert_eq!(session.state(), SyncState::Syncing);
        assert!(!session.is_failed());
    }
    // The tenth consecutive failure is fatal for the session.
    assert!(!session.connection_lost());
    assert_eq!(session.state(), SyncState::Offline);
    assert!(session.is_failed());
}

#[test]
fn a_successful_reconnect_resets_the_attempt_counter() {
    let mut session = SyncSession::new(1, 1);
    session.toggle_sync();
    session.connection_opened();
    for _ in 0..5 {
        assert!(session.connection_lost());
    }
    session.connection_opened();
    for _ in 0..9 {
        assert!(session.connection_lost());
    }
    assert!(!session.connection_lost());
    assert!(session.is_failed());
}

#[test]
fn presenting_while_offline_connects_directly_into_presenting() {
    let mut session = SyncSession::new(1, 1);
    let (connect, published) = session.set_presenting(true);
    assert!(connect);
    assert_eq!(published, None);
    assert_eq!(session.state(), SyncState::Presenting);
    // The position goes out as soon as the connection is up.
    assert_eq!(session.connection_opened(), Some(encode_position(1, 1)));
}
