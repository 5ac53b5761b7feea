//! Core of a small authoritative multiplayer game server: a fixed-tick
//! simulation world fed by a command bus and observed through a bounded
//! snapshot bus. Positions and velocities are fixed-point integers (1024
//! units per world unit), so the whole simulation is exact integer
//! arithmetic.

pub mod bus;
pub mod laws;
pub mod net;
pub mod session;
pub mod vec2;
pub mod wire;
pub mod world;

pub use vec2::Vec2;
