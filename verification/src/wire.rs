//! Message types: what clients send, what the simulation publishes, and the
//! packets carried on the command bus from the connection tasks to the
//! simulation.

use vstd::prelude::*;
use crate::vec2::Vec2;

verus! {

/// One JSON text frame from a client, already decoded at the boundary.
pub enum ClientCommand {
    Join { name: String },
    Move { dir: Vec2 },
    CastSpell { target: Vec2 },
    Chat { text: String },
}

/// One message on the command bus.
pub enum GamePacket {
    ClientCommand { id: u32, cmd: ClientCommand },
    PlayerJoin { id: u32 },
    PlayerLeave { id: u32 },
}

/// One player as reported in a snapshot.
#[derive(Clone, Copy, PartialEq, Eq, Structural, Debug)]
pub struct PlayerState {
    pub id: u32,
    pub position: Vec2,
    pub health: i32,
    pub max_health: i32,
}

/// One projectile as reported in a snapshot.
#[derive(Clone, Copy, PartialEq, Eq, Structural, Debug)]
pub struct ProjectileState {
    pub id: u32,
    pub position: Vec2,
}

/// One message from the server to a client. The simulation core emits only
/// `Snapshot`.
pub enum ServerEvent {
    PlayerJoined { id: u32, name: String, position: Vec2 },
    PlayerLeft { id: u32 },
    Chat { id: u32, text: String },
    Snapshot { tick: u64, players: Vec<PlayerState>, projectiles: Vec<ProjectileState> },
}

} // verus!
