//! Core logic of a step-animated slide presenter: the step-visibility
//! engine, the navigation position state machine, a bounded slide cache,
//! and the position-synchronization protocol and session state machine.

pub mod cache;
pub mod input;
pub mod lru_store;
pub mod navigation;
pub mod protocol;
pub mod server;
pub mod slide;
pub mod sync;
pub mod steps;

pub use server::{Notes, NotesError, Server, ServerStartError, Slides, SlidesError};
