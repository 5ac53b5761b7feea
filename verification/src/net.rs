//! The simulation's end of the command bus: a non-blocking drain of the
//! multi-producer queue that the connection tasks feed, and the scheduler
//! iteration that couples it to the world.

use vstd::prelude::*;
use crate::wire::{GamePacket, ServerEvent};
use crate::world::{World, Player, Projectile, player_state_of, projectile_state_of, tick_m};

verus! {

#[verifier::external_type_specification]
#[verifier::external_body]
#[verifier::reject_recursive_types(T)]
pub struct ExReceiver<T>(crossbeam_channel::Receiver<T>);

/// Relies on `crossbeam_channel::Receiver::try_recv`: pops the next queued
/// message without blocking, `Err` when the queue is empty or disconnected.
/// Concurrent producers decide what arrives, so nothing is stated of the
/// result.
#[verifier::external_body]
fn try_recv_packet(rx: &crossbeam_channel::Receiver<GamePacket>) -> (r: Option<GamePacket>) {
    match rx.try_recv() {
        Ok(p) => Some(p),
        Err(_) => None,
    }
}

/// Drain the command bus without blocking: whatever was queued, in arrival
/// order. The contents are decided by concurrent producers, so nothing more
/// can be promised of them.
pub fn drain_packets(rx: &crossbeam_channel::Receiver<GamePacket>) -> (r: Vec<GamePacket>) {
    let mut out: Vec<GamePacket> = Vec::new();
    let mut budget: usize = usize::MAX;
    while budget > 0
        decreases budget,
    {
        match try_recv_packet(rx) {
            Some(p) => out.push(p),
            None => {
                return out;
            },
        }
        budget -= 1;
    }
    out
}

/// One scheduler iteration: drain the command bus, run one tick, return the
/// snapshot to publish. Whatever the concurrent producers enqueued, the new
/// state is one legal tick of the old state, and the snapshot reports
/// exactly the new state.
pub fn run_tick(world: &mut World, rx: &crossbeam_channel::Receiver<GamePacket>) -> (r: Option<
    ServerEvent,
>)
    requires
        old(world)@.wf(),
    ensures
        final(world)@.wf(),
        exists|ps: Seq<GamePacket>| final(world)@ == tick_m(old(world)@, ps),
        (r is None) <==> (final(world)@.players.len() == 0 && final(world)@.projectiles.len()
            == 0),
        r matches Some(ev) ==> ev matches ServerEvent::Snapshot { tick, players, projectiles }
            && tick == final(world)@.tick && players@ == final(world)@.players.map_values(
            |p: Player| player_state_of(p),
        ) && projectiles@ == final(world)@.projectiles.map_values(
            |pr: Projectile| projectile_state_of(pr),
        ),
{
    let packets = drain_packets(rx);
    let r = world.step(&packets);
    proof {
        assert(world@ == tick_m(old(world)@, packets@));
    }
    r
}

} // verus!
