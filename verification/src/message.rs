//! Messages crossing the boundary between the engine and the session layer.
//!
//! The session layer parses wire messages into these values and relays the
//! engine's outcomes back; the engine itself never touches a wire format.

use vstd::prelude::*;

verus! {

/// A request a connected player can send: take a seat at a table, join the
/// running game, or pass the turn.
pub enum Message {
    Sit { uid: String, desktop_id: usize },
    Join,
    Skip,
}

/// A reply relayed back to the originating connection.
pub enum Response {
    Sit { is_ok: bool, reason: String },
}

} // verus!
