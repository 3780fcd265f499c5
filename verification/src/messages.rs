//! The application-level messages exchanged over stream 0 of each connection
//! and over the per-snake streams.

use vstd::prelude::*;
use crate::geom::Pos;
use crate::snake::SnakeMsg;

verus! {

/// Sent by a new player connecting to the host, or by the host to each player,
/// to announce a snake: its display name, the dedicated stream its updates
/// travel on, and the two points it starts from.
#[derive(Clone, Debug, PartialEq)]
pub struct SnakeIntroMsg {
    pub name: String,
    pub snake_stream_id: i32,
    pub start_points: Vec<Pos>,
}

/// The tagged wire message.
#[derive(Clone, Debug, PartialEq)]
pub enum NetMsg {
    /// Round-trip latency probe, in milliseconds: positive on request,
    /// negated on response.
    Ping(i64),
    /// Announces a snake to the peer.
    SnakeIntro(SnakeIntroMsg),
    /// State of one particular snake, sent over its dedicated stream.
    Snake(SnakeMsg),
    /// The host's current list of unclaimed start-point sets.
    StartPointsUpdate(Vec<Vec<Pos>>),
}

} // verus!
