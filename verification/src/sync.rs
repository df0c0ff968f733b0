//! Position-synchronization session and hub logic. Each viewer's
//! connection is a small state machine (`Offline`, `Syncing`,
//! `Presenting`); the hub is a broadcast relay that forwards the most
//! recent position to every other connection. The connection itself
//! (open, close, send, receive) is outside work: the machine only
//! decides, and reports which actions to perform.

use vstd::prelude::*;
use crate::protocol::{
    spec_decode, spec_frame, spec_saturate_u16, decode_frame, encode_position,
};

verus! {

/// Bound on consecutive reconnect attempts before the session gives
/// up and surfaces the failure.
pub const MAX_CONNECT_ATTEMPTS: usize = 10;

/// The per-connection synchronization mode.
#[derive(Clone, Copy, Debug, PartialEq, Eq, Structural)]
pub enum SyncState {
    /// Not connected: nothing is published, nothing can arrive.
    Offline,
    /// Connected and following: received positions are applied,
    /// local changes are not published.
    Syncing,
    /// Connected and presenting: local changes are published.
    Presenting,
}

/// What a session applies on a received binary message: a position,
/// when the session is connected, the message is a well-formed
/// 4-byte frame, and both components are valid indices (at least 1 —
/// a malformed frame is dropped, not an error).
pub open spec fn spec_apply(state: SyncState, bytes: Seq<u8>) -> Option<(u16, u16)> {
    if state is Offline {
        None
    } else {
        match spec_decode(bytes) {
            Some((slide, step)) => if slide >= 1 && step >= 1 {
                Some((slide, step))
            } else {
                None
            },
            None => None,
        }
    }
}

/// What the hub sends to `receiver_id` when `sender_id` published
/// `(slide, step)`: the encoded frame, unless the receiver is the
/// sender itself.
pub open spec fn spec_forward(
    receiver_id: usize,
    sender_id: usize,
    slide: u16,
    step: u16,
) -> Option<Seq<u8>> {
    if receiver_id != sender_id {
        Some(spec_frame(slide, step))
    } else {
        None
    }
}

/// A viewer's synchronization session: its mode, the link's state,
/// how many consecutive connection attempts have failed, and the
/// local position it publishes while presenting.
pub struct SyncSession {
    state: SyncState,
    link_up: bool,
    attempts: usize,
    failed: bool,
    slide: usize,
    step: usize,
}

impl SyncSession {
    pub closed spec fn spec_state(&self) -> SyncState {
        self.state
    }

    pub closed spec fn spec_link_up(&self) -> bool {
        self.link_up
    }

    pub closed spec fn spec_attempts(&self) -> usize {
        self.attempts
    }

    /// Whether reconnecting has been given up on; this is surfaced,
    /// never silently swallowed.
    pub closed spec fn spec_failed(&self) -> bool {
        self.failed
    }

    pub closed spec fn spec_slide(&self) -> usize {
        self.slide
    }

    pub closed spec fn spec_step(&self) -> usize {
        self.step
    }

    /// The frame this session publishes for its current position.
    pub open spec fn spec_position_frame(&self) -> Seq<u8> {
        spec_frame(
            spec_saturate_u16(self.spec_slide() as int),
            spec_saturate_u16(self.spec_step() as int),
        )
    }

    /// A fresh offline session at the given local position.
    pub fn new(slide: usize, step: usize) -> (r: SyncSession)
        ensures
            r.spec_state() is Offline,
            !r.spec_link_up(),
            r.spec_attempts() == 0,
            !r.spec_failed(),
            r.spec_slide() == slide,
            r.spec_step() == step,
    {
        SyncSession {
            state: SyncState::Offline,
            link_up: false,
            attempts: 0,
            failed: false,
            slide,
            step,
        }
    }

    pub fn state(&self) -> (r: SyncState)
        ensures
            r == self.spec_state(),
    {
        self.state
    }

    pub fn is_failed(&self) -> (r: bool)
        ensures
            r == self.spec_failed(),
    {
        self.failed
    }

    /// The user toggles "follow": offline goes syncing and a
    /// connection must be opened; syncing goes offline and the
    /// connection must be closed; presenting drops to syncing on the
    /// same connection. Returns `(connect, close)`.
    pub fn toggle_sync(&mut self) -> (r: (bool, bool))
        ensures
            final(self).spec_slide() == old(self).spec_slide(),
            final(self).spec_step() == old(self).spec_step(),
            final(self).spec_failed() == old(self).spec_failed(),
            old(self).spec_state() is Offline ==> final(self).spec_state() is Syncing
                && r == (true, false) && !final(self).spec_link_up()
                && final(self).spec_attempts() == 0,
            old(self).spec_state() is Syncing ==> final(self).spec_state() is Offline
                && r == (false, true) && !final(self).spec_link_up()
                && final(self).spec_attempts() == old(self).spec_attempts(),
            old(self).spec_state() is Presenting ==> final(self).spec_state() is Syncing
                && r == (false, false)
                && final(self).spec_link_up() == old(self).spec_link_up()
                && final(self).spec_attempts() == old(self).spec_attempts(),
    {
        match self.state {
            SyncState::Offline => {
                self.state = SyncState::Syncing;
                self.link_up = false;
                self.attempts = 0;
                (true, false)
            }
            SyncState::Syncing => {
                self.state = SyncState::Offline;
                self.link_up = false;
                (false, true)
            }
            SyncState::Presenting => {
                self.state = SyncState::Syncing;
                (false, false)
            }
        }
    }

    /// The "presenting" mode flag changes. Entering `Presenting`
    /// reuses a live connection and immediately publishes the current
    /// position; from offline a connection is opened first. Leaving
    /// it drops to `Syncing` on the same connection. Returns
    /// `(connect, publish)`.
    pub fn set_presenting(&mut self, presenting: bool) -> (r: (bool, Option<Vec<u8>>))
        ensures
            final(self).spec_slide() == old(self).spec_slide(),
            final(self).spec_step() == old(self).spec_step(),
            final(self).spec_failed() == old(self).spec_failed(),
            final(self).spec_link_up() == old(self).spec_link_up(),
            presenting && old(self).spec_state() is Offline ==> {
                &&& final(self).spec_state() is Presenting
                &&& r.0 == true
                &&& r.1 is None
                &&& final(self).spec_attempts() == 0
            },
            presenting && !(old(self).spec_state() is Offline) ==> {
                &&& final(self).spec_state() is Presenting
                &&& r.0 == false
                &&& final(self).spec_attempts() == old(self).spec_attempts()
                &&& (old(self).spec_state() is Syncing && old(self).spec_link_up()
                    ==> r.1 is Some && r.1->0@ == old(self).spec_position_frame())
                &&& (!(old(self).spec_state() is Syncing) || !old(self).spec_link_up()
                    ==> r.1 is None)
            },
            !presenting ==> {
                &&& r.0 == false
                &&& r.1 is None
                &&& final(self).spec_attempts() == old(self).spec_attempts()
                &&& (old(self).spec_state() is Presenting ==> final(self).spec_state()
                    is Syncing)
                &&& (!(old(self).spec_state() is Presenting) ==> final(self).spec_state()
                    == old(self).spec_state())
            },
    {
        if presenting {
            match self.state {
                SyncState::Offline => {
                    self.state = SyncState::Presenting;
                    self.attempts = 0;
                    (true, None)
                }
                SyncState::Syncing => {
                    self.state = SyncState::Presenting;
                    if self.link_up {
                        let frame = encode_position(self.slide, self.step);
                        (false, Some(frame))
                    } else {
                        (false, None)
                    }
                }
                SyncState::Presenting => (false, None),
            }
        } else {
            if matches!(self.state, SyncState::Presenting) {
                self.state = SyncState::Syncing;
            }
            (false, None)
        }
    }

    /// The connection opened: the attempt counter resets, and a
    /// presenting session immediately publishes its position.
    pub fn connection_opened(&mut self) -> (publish: Option<Vec<u8>>)
        ensures
            final(self).spec_state() == old(self).spec_state(),
            final(self).spec_slide() == old(self).spec_slide(),
            final(self).spec_step() == old(self).spec_step(),
            final(self).spec_failed() == old(self).spec_failed(),
            final(self).spec_link_up(),
            final(self).spec_attempts() == 0,
            old(self).spec_state() is Presenting ==> publish is Some
                && publish->0@ == old(self).spec_position_frame(),
            !(old(self).spec_state() is Presenting) ==> publish is None,
    {
        self.link_up = true;
        self.attempts = 0;
        if matches!(self.state, SyncState::Presenting) {
            Some(encode_position(self.slide, self.step))
        } else {
            None
        }
    }

    /// The connection errored or closed. A connected session asks
    /// for an immediate reconnect, preserving its mode, for at most
    /// `MAX_CONNECT_ATTEMPTS` consecutive failures; exhausting them
    /// is fatal for the session and is surfaced through
    /// `spec_failed`. Returns whether to reconnect.
    pub fn connection_lost(&mut self) -> (reconnect: bool)
        requires
            old(self).spec_attempts() < MAX_CONNECT_ATTEMPTS,
        ensures
            final(self).spec_slide() == old(self).spec_slide(),
            final(self).spec_step() == old(self).spec_step(),
            !final(self).spec_link_up(),
            old(self).spec_state() is Offline ==> final(self).spec_state() is Offline
                && final(self).spec_attempts() == old(self).spec_attempts()
                && final(self).spec_failed() == old(self).spec_failed()
                && !reconnect,
            !(old(self).spec_state() is Offline)
                && old(self).spec_attempts() + 1 < MAX_CONNECT_ATTEMPTS ==> {
                &&& final(self).spec_state() == old(self).spec_state()
                &&& final(self).spec_attempts() == old(self).spec_attempts() + 1
                &&& final(self).spec_failed() == old(self).spec_failed()
                &&& reconnect
            },
            !(old(self).spec_state() is Offline)
                && old(self).spec_attempts() + 1 >= MAX_CONNECT_ATTEMPTS ==> {
                &&& final(self).spec_state() is Offline
                &&& final(self).spec_failed()
                &&& !reconnect
            },
    {
        self.link_up = false;
        if matches!(self.state, SyncState::Offline) {
            return false;
        }
        self.attempts = self.attempts + 1;
        if self.attempts >= MAX_CONNECT_ATTEMPTS {
            self.state = SyncState::Offline;
            self.failed = true;
            false
        } else {
            true
        }
    }

    /// A binary message arrived. A connected session applies the
    /// decoded position (to be handed to the navigation machine's
    /// `go_to`); anything but a well-formed 4-byte frame with valid
    /// indices is dropped and the connection continues.
    pub fn frame_received(&self, bytes: &Vec<u8>) -> (apply: Option<(u16, u16)>)
        ensures
            apply == spec_apply(self.spec_state(), bytes@),
    {
        if matches!(self.state, SyncState::Offline) {
            return None;
        }
        match decode_frame(bytes) {
            Some((slide, step)) => {
                if slide >= 1 && step >= 1 {
                    Some((slide, step))
                } else {
                    None
                }
            }
            None => None,
        }
    }

    /// The local position changed. While presenting on a live
    /// connection the new position is published; otherwise nothing
    /// is sent.
    pub fn position_changed(&mut self, slide: usize, step: usize) -> (publish: Option<Vec<u8>>)
        ensures
            final(self).spec_state() == old(self).spec_state(),
            final(self).spec_link_up() == old(self).spec_link_up(),
            final(self).spec_attempts() == old(self).spec_attempts(),
            final(self).spec_failed() == old(self).spec_failed(),
            final(self).spec_slide() == slide,
            final(self).spec_step() == step,
            old(self).spec_state() is Presenting && old(self).spec_link_up() ==> publish
                is Some && publish->0@ == spec_frame(
                    spec_saturate_u16(slide as int),
                    spec_saturate_u16(step as int),
                ),
            !(old(self).spec_state() is Presenting) || !old(self).spec_link_up()
                ==> publish is None,
    {
        self.slide = slide;
        self.step = step;
        if matches!(self.state, SyncState::Presenting) && self.link_up {
            Some(encode_position(slide, step))
        } else {
            None
        }
    }
}

/// What a hub connection publishes to the broadcast channel when a
/// binary message arrives from its client: the decoded position of a
/// well-formed 4-byte frame; anything else is ignored.
pub fn hub_inbound(bytes: &Vec<u8>) -> (r: Option<(u16, u16)>)
    ensures
        r == spec_decode(bytes@),
{
    decode_frame(bytes)
}

/// What the hub sends to connection `receiver_id` when connection
/// `sender_id` published `(slide, step)`: the re-encoded frame,
/// unless the receiver is the sender itself.
pub fn hub_forward(receiver_id: usize, sender_id: usize, slide: u16, step: u16) -> (r: Option<
    Vec<u8>,
>)
    ensures
        match r {
            Some(v) => spec_forward(receiver_id, sender_id, slide, step) == Some(v@),
            None => spec_forward(receiver_id, sender_id, slide, step) is None,
        },
{
    if receiver_id != sender_id {
        let frame = encode_position(slide as usize, step as usize);
        proof {
            assert(spec_saturate_u16(slide as int) == slide);
            assert(spec_saturate_u16(step as int) == step);
        }
        Some(frame)
    } else {
        None
    }
}

/// Law (synchronization round trip): a presenting session that
/// publishes its position emits the 4-byte frame of that position;
/// the hub forwards the identical frame to every other connection
/// and back to none; and a syncing or presenting receiver applies
/// exactly the published position, while an offline session applies
/// nothing whatever arrives.
pub proof fn lemma_sync_round_trip(slide: u16, step: u16, sender_id: usize, receiver_id: usize)
    requires
        slide >= 1,
        step >= 1,
        sender_id != receiver_id,
    ensures
        spec_decode(spec_frame(slide, step)) == Some((slide, step)),
        spec_forward(receiver_id, sender_id, slide, step) == Some(spec_frame(slide, step)),
        spec_forward(sender_id, sender_id, slide, step) is None,
        spec_apply(SyncState::Syncing, spec_frame(slide, step)) == Some((slide, step)),
        spec_apply(SyncState::Presenting, spec_frame(slide, step)) == Some((slide, step)),
        forall|bytes: Seq<u8>| spec_apply(SyncState::Offline, bytes) is None,
{
    crate::protocol::lemma_frame_round_trip(slide, step);
}

} // verus!
