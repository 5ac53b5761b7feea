//! Per-connection lifecycle: one `Join` packet on open, and exactly one
//! `Leave` packet however many teardown paths run afterwards.

use vstd::prelude::*;
use crate::wire::GamePacket;

verus! {

/// The command-bus side of one connection's life.
pub struct Session {
    pub id: u32,
    pub left: bool,
}

impl Session {
    /// Opening the session yields the connection's one `Join` packet.
    pub fn open(id: u32) -> (r: (Session, GamePacket))
        ensures
            r.0.id == id,
            !r.0.left,
            r.1 matches GamePacket::PlayerJoin { id: j } && j == id,
    {
        (Session { id, left: false }, GamePacket::PlayerJoin { id })
    }

    /// Every teardown path calls this; only the first call yields the paired
    /// `Leave` packet. With `open`, exactly one `Leave` follows the one
    /// `Join`, on every exit path.
    pub fn close(&mut self) -> (r: Option<GamePacket>)
        ensures
            final(self).id == old(self).id,
            final(self).left,
            !old(self).left ==> (r matches Some(GamePacket::PlayerLeave { id: l }) && l == old(
                self,
            ).id),
            old(self).left ==> r is None,
    {
        if self.left {
            None
        } else {
            self.left = true;
            Some(GamePacket::PlayerLeave { id: self.id })
        }
    }
}

} // verus!
