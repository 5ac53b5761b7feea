//! The library's guarantees about whole-tick behaviour, proved against the
//! world model: player conservation, health bounds, no self-hits, at most
//! one hit per projectile, and bounded projectile lifetime.

use vstd::prelude::*;
use crate::wire::GamePacket;
use crate::world::{
    Player, Projectile, WorldModel, advance, apply_packet_m, apply_packets_from, collide_from,
    collide_m, damaged, first_hit_from, has_player, has_projectile, hits, join_m, leave_m,
    lemma_advance_elements, lemma_apply_packets_wf, lemma_collide_elements, lemma_first_hit_bounds,
    lemma_remove_id_elements, lemma_remove_id_keeps, lemma_tick_wf, move_projs_m, move_step,
    new_player, player_wf, proj_wf, remove_id_from, tick_m, DAMAGE, PROJECTILE_LIFETIME,
};

verus! {

/// Iterated ticks: the world after the packet batches `pss[i..]`.
pub open spec fn ticks_m(m: WorldModel, pss: Seq<Seq<GamePacket>>, i: int) -> WorldModel
    decreases pss.len() - i,
{
    if i < 0 || i >= pss.len() {
        m
    } else {
        ticks_m(tick_m(m, pss[i]), pss, i + 1)
    }
}

pub open spec fn is_leave_for(p: GamePacket, id: u32) -> bool {
    match p {
        GamePacket::PlayerLeave { id: l } => l == id,
        _ => false,
    }
}

// ---------------------------------------------------------------------------
// Player conservation: a Join creates the player, it persists until its
// Leave, and the Leave removes it.
// ---------------------------------------------------------------------------

/// A drained `Join{id}` spawns the player.
pub proof fn lemma_join_creates(m: WorldModel, id: u32)
    ensures
        has_player(join_m(m, id), id),
{
    assert(join_m(m, id).players[m.players.len() as int] == new_player(id));
}

/// A drained `Leave{id}` removes every player with the id.
pub proof fn lemma_leave_removes(m: WorldModel, id: u32)
    ensures
        !has_player(leave_m(m, id), id),
{
    lemma_remove_id_elements(m.players, id, 0);
}

/// No packet other than `Leave{id}` removes the player.
pub proof fn lemma_presence_preserved_by_packet(m: WorldModel, p: GamePacket, id: u32)
    requires
        has_player(m, id),
        !is_leave_for(p, id),
    ensures
        has_player(apply_packet_m(m, p), id),
{
    let k = choose|k: int| 0 <= k < m.players.len() && m.players[k].id == id;
    let r = apply_packet_m(m, p);
    match p {
        GamePacket::PlayerJoin { id: j } => {
            assert(r.players[k] == m.players[k]);
            assert(0 <= k < r.players.len() && r.players[k].id == id);
        },
        GamePacket::PlayerLeave { id: l } => {
            lemma_remove_id_keeps(m.players, l, 0, k);
            let k2 = choose|k2: int|
                0 <= k2 < remove_id_from(m.players, l, 0).len() && #[trigger] remove_id_from(
                    m.players,
                    l,
                    0,
                )[k2] == m.players[k];
            assert(0 <= k2 < r.players.len() && r.players[k2].id == id);
        },
        GamePacket::ClientCommand { id: c, cmd } => {
            match cmd {
                crate::wire::ClientCommand::Move { dir } => {
                    assert(r.players[k] == move_step(m.players[k], c, dir));
                    assert(0 <= k < r.players.len() && r.players[k].id == id);
                },
                _ => {
                    assert(r.players == m.players);
                    assert(0 <= k < r.players.len() && r.players[k].id == id);
                },
            }
        },
    }
}

/// Player conservation across a whole tick: a player present at a tick
/// boundary is still present at the next one unless its `Leave` was drained.
pub proof fn lemma_presence_preserved_by_tick(m: WorldModel, ps: Seq<GamePacket>, id: u32)
    requires
        has_player(m, id),
        forall|i: int| 0 <= i < ps.len() ==> !is_leave_for(#[trigger] ps[i], id),
    ensures
        has_player(tick_m(m, ps), id),
{
    lemma_presence_through_packets(m, ps, 0, id);
    let m1 = apply_packets_from(m, ps, 0);
    let m2 = move_projs_m(m1);
    let k = choose|k: int| 0 <= k < m2.players.len() && m2.players[k].id == id;
    lemma_collide_elements(m2.players, m2.projectiles, 0);
    assert(collide_m(m2).players[k].id == id);
    assert(0 <= k < tick_m(m, ps).players.len() && tick_m(m, ps).players[k].id == id);
}

proof fn lemma_presence_through_packets(m: WorldModel, ps: Seq<GamePacket>, i: int, id: u32)
    requires
        has_player(m, id),
        forall|j: int| 0 <= j < ps.len() ==> !is_leave_for(#[trigger] ps[j], id),
    ensures
        has_player(apply_packets_from(m, ps, i), id),
    decreases ps.len() - i,
{
    if i < 0 || i >= ps.len() {
    } else {
        lemma_presence_preserved_by_packet(m, ps[i], id);
        lemma_presence_through_packets(apply_packet_m(m, ps[i]), ps, i + 1, id);
    }
}

// ---------------------------------------------------------------------------
// Health bounds: at every tick boundary, 0 < health <= max_health.
// ---------------------------------------------------------------------------

/// Health bounds hold at every tick boundary: the world invariant survives a
/// whole tick, and it bounds every player's health.
pub proof fn lemma_health_bounds(m: WorldModel, ps: Seq<GamePacket>)
    requires
        m.wf(),
    ensures
        tick_m(m, ps).wf(),
        forall|k: int|
            0 <= k < tick_m(m, ps).players.len() ==> 0 < (#[trigger] tick_m(m, ps).players[k]).health
                <= tick_m(m, ps).players[k].max_health,
{
    lemma_tick_wf(m, ps);
    assert forall|k: int| 0 <= k < tick_m(m, ps).players.len() implies 0 < (#[trigger] tick_m(
        m,
        ps,
    ).players[k]).health <= tick_m(m, ps).players[k].max_health by {
        assert(player_wf(tick_m(m, ps).players[k]));
    }
}

// ---------------------------------------------------------------------------
// No self-hit: the collision phase never changes a player's health on
// account of the player's own projectiles.
// ---------------------------------------------------------------------------

/// If the collision phase changes a player's health at all, some projectile
/// owned by someone else was in flight. In particular a world whose
/// projectiles are all owned by a player never sees that player damaged.
pub proof fn lemma_no_self_hit(players: Seq<Player>, projs: Seq<Projectile>, i: int, k: int)
    requires
        0 <= k < players.len(),
    ensures
        collide_from(players, projs, i).0.len() == players.len(),
        collide_from(players, projs, i).0[k].id == players[k].id,
        collide_from(players, projs, i).0[k].health != players[k].health ==> exists|j: int|
            i <= j < projs.len() && (#[trigger] projs[j]).owner_id != players[k].id,
    decreases projs.len() - i,
{
    lemma_collide_elements(players, projs, i);
    if i < 0 || i >= projs.len() {
    } else {
        match first_hit_from(players, projs[i], 0) {
            None => {
                lemma_no_self_hit(players, projs, i + 1, k);
            },
            Some(j) => {
                lemma_first_hit_bounds(players, projs[i], 0);
                let p2 = players.update(j, damaged(players[j]));
                lemma_no_self_hit(p2, projs, i + 1, k);
                let r = collide_from(players, projs, i);
                assert(r.0 == collide_from(p2, projs, i + 1).0);
                if r.0[k].health != players[k].health {
                    if r.0[k].health != p2[k].health {
                        let w = choose|w: int|
                            i + 1 <= w < projs.len() && (#[trigger] projs[w]).owner_id != p2[k].id;
                        assert(p2[k].id == players[k].id);
                        assert(projs[w].owner_id != players[k].id);
                    } else {
                        // this projectile itself changed player k: it hit k
                        assert(p2[k].health != players[k].health);
                        assert(j == k);
                        assert(hits(projs[i], players[k]));
                        assert(projs[i].owner_id != players[k].id);
                    }
                }
            },
        }
    }
}

// ---------------------------------------------------------------------------
// At most one hit per projectile.
// ---------------------------------------------------------------------------

/// The player list after one projectile is processed.
pub open spec fn players_after_one(players: Seq<Player>, pr: Projectile) -> Seq<Player> {
    match first_hit_from(players, pr, 0) {
        None => players,
        Some(j) => players.update(j, damaged(players[j])),
    }
}

/// Whether the projectile hits (and is therefore destroyed) this pass.
pub open spec fn proj_destroyed(players: Seq<Player>, pr: Projectile) -> bool {
    first_hit_from(players, pr, 0) is Some
}

/// Within one collision pass a projectile damages at most one player, by one
/// application of `damaged` (ten points off, or a respawn to full health),
/// and only if it is destroyed by that hit; otherwise it touches nobody.
pub proof fn lemma_at_most_one_hit(players: Seq<Player>, pr: Projectile)
    ensures
        !proj_destroyed(players, pr) ==> players_after_one(players, pr) == players,
        proj_destroyed(players, pr) ==> exists|j: int|
            0 <= j < players.len() && (#[trigger] players[j]).id != pr.owner_id
                && players_after_one(players, pr) == players.update(j, damaged(players[j])),
        forall|p: Player|
            0 < (#[trigger] damaged(p)).health ==> damaged(p).health == p.health - DAMAGE
                || damaged(p).health == p.max_health,
{
    lemma_first_hit_bounds(players, pr, 0);
}

/// The collision pass processes the projectiles in order, each through
/// `players_after_one`; a projectile survives the pass exactly when it hits
/// nobody.
pub proof fn lemma_collide_decomposition(players: Seq<Player>, projs: Seq<Projectile>, i: int)
    requires
        0 <= i < projs.len(),
    ensures
        collide_from(players, projs, i).0 == collide_from(
            players_after_one(players, projs[i]),
            projs,
            i + 1,
        ).0,
        proj_destroyed(players, projs[i]) ==> collide_from(players, projs, i).1 == collide_from(
            players_after_one(players, projs[i]),
            projs,
            i + 1,
        ).1,
        !proj_destroyed(players, projs[i]) ==> collide_from(players, projs, i).1 == seq![projs[i]]
            + collide_from(players, projs, i + 1).1,
{
}

/// A projectile's ticks are bounded by `b` wherever it occurs.
pub open spec fn proj_ticks_bounded(m: WorldModel, pid: u64, b: int) -> bool {
    forall|k: int|
        0 <= k < m.projectiles.len() && (#[trigger] m.projectiles[k]).id == pid
            ==> m.projectiles[k].ticks_remaining <= b
}

proof fn lemma_packet_provenance(m: WorldModel, p: GamePacket)
    ensures
        m.next_projectile_id <= apply_packet_m(m, p).next_projectile_id,
        forall|k: int|
            0 <= k < apply_packet_m(m, p).projectiles.len() ==> (exists|j: int|
                0 <= j < m.projectiles.len() && #[trigger] apply_packet_m(m, p).projectiles[k]
                    == m.projectiles[j]) || apply_packet_m(m, p).projectiles[k].id
                >= m.next_projectile_id,
{
    let r = apply_packet_m(m, p);
    assert forall|k: int| 0 <= k < r.projectiles.len() implies (exists|j: int|
        0 <= j < m.projectiles.len() && #[trigger] r.projectiles[k] == m.projectiles[j])
        || r.projectiles[k].id >= m.next_projectile_id by {
        match p {
            GamePacket::ClientCommand { id, cmd } => {
                match cmd {
                    crate::wire::ClientCommand::CastSpell { target } => {
                        if k < m.projectiles.len() {
                            assert(r.projectiles[k] == m.projectiles[k]);
                        }
                    },
                    _ => {
                        assert(r.projectiles[k] == m.projectiles[k]);
                    },
                }
            },
            _ => {
                assert(r.projectiles[k] == m.projectiles[k]);
            },
        }
    }
}

proof fn lemma_packets_ticks(m: WorldModel, ps: Seq<GamePacket>, i: int, pid: u64, b: int)
    requires
        proj_ticks_bounded(m, pid, b),
        pid < m.next_projectile_id,
    ensures
        proj_ticks_bounded(apply_packets_from(m, ps, i), pid, b),
        pid < apply_packets_from(m, ps, i).next_projectile_id,
    decreases ps.len() - i,
{
    if i < 0 || i >= ps.len() {
    } else {
        let m1 = apply_packet_m(m, ps[i]);
        lemma_packet_provenance(m, ps[i]);
        assert forall|k: int|
            0 <= k < m1.projectiles.len() && (#[trigger] m1.projectiles[k]).id == pid
                implies m1.projectiles[k].ticks_remaining <= b by {
            if m1.projectiles[k].id >= m.next_projectile_id {
            } else {
                let j = choose|j: int|
                    0 <= j < m.projectiles.len() && #[trigger] m1.projectiles[k]
                        == m.projectiles[j];
                assert(m.projectiles[j].ticks_remaining <= b);
            }
        }
        lemma_packets_ticks(m1, ps, i + 1, pid, b);
    }
}

proof fn lemma_move_ticks(m: WorldModel, pid: u64, b: int)
    requires
        m.wf(),
        proj_ticks_bounded(m, pid, b),
    ensures
        proj_ticks_bounded(move_projs_m(m), pid, b - 1),
{
    let r = move_projs_m(m);
    lemma_advance_elements(m.projectiles, 0);
    assert forall|k: int|
        0 <= k < r.projectiles.len() && (#[trigger] r.projectiles[k]).id == pid
            implies r.projectiles[k].ticks_remaining <= b - 1 by {
        let j = choose|j: int|
            0 <= j < m.projectiles.len() && #[trigger] r.projectiles[k] == advance(
                m.projectiles[j],
            ) && advance(m.projectiles[j]).ticks_remaining > 0;
        assert(proj_wf(m.projectiles[j], m.next_projectile_id));
        assert(m.projectiles[j].id == pid);
        assert(m.projectiles[j].ticks_remaining <= b);
    }
}

proof fn lemma_collide_ticks(m: WorldModel, pid: u64, b: int)
    requires
        proj_ticks_bounded(m, pid, b),
    ensures
        proj_ticks_bounded(collide_m(m), pid, b),
{
    let r = collide_m(m);
    lemma_collide_elements(m.players, m.projectiles, 0);
    assert forall|k: int|
        0 <= k < r.projectiles.len() && (#[trigger] r.projectiles[k]).id == pid
            implies r.projectiles[k].ticks_remaining <= b by {
        let j = choose|j: int|
            0 <= j < m.projectiles.len() && #[trigger] r.projectiles[k] == m.projectiles[j];
        assert(m.projectiles[j].ticks_remaining <= b);
    }
}

/// Across one tick, a projectile's remaining lifetime strictly decreases
/// (wherever the projectile still exists), and its id stays claimed.
pub proof fn lemma_tick_decrements(m: WorldModel, ps: Seq<GamePacket>, pid: u64, b: int)
    requires
        m.wf(),
        pid < m.next_projectile_id,
        proj_ticks_bounded(m, pid, b),
    ensures
        tick_m(m, ps).wf(),
        pid < tick_m(m, ps).next_projectile_id,
        proj_ticks_bounded(tick_m(m, ps), pid, b - 1),
{
    lemma_tick_wf(m, ps);
    lemma_apply_packets_wf(m, ps, 0);
    lemma_packets_ticks(m, ps, 0, pid, b);
    lemma_move_ticks(apply_packets_from(m, ps, 0), pid, b);
    lemma_collide_ticks(move_projs_m(apply_packets_from(m, ps, 0)), pid, b - 1);
    assert(tick_m(m, ps).projectiles == collide_m(
        move_projs_m(apply_packets_from(m, ps, 0)),
    ).projectiles);
}

/// A projectile with at most `b` ticks remaining is gone after any `b`
/// further ticks, whatever packets arrive meanwhile.
pub proof fn lemma_projectile_lifetime(
    m: WorldModel,
    pss: Seq<Seq<GamePacket>>,
    i: int,
    pid: u64,
)
    requires
        m.wf(),
        pid < m.next_projectile_id,
        0 <= i <= pss.len(),
        proj_ticks_bounded(m, pid, pss.len() - i),
    ensures
        !has_projectile(ticks_m(m, pss, i), pid),
        ticks_m(m, pss, i).wf(),
        pid < ticks_m(m, pss, i).next_projectile_id,
    decreases pss.len() - i,
{
    if i >= pss.len() {
        assert forall|k: int|
            0 <= k < m.projectiles.len() implies (#[trigger] m.projectiles[k]).id != pid by {
            assert(proj_wf(m.projectiles[k], m.next_projectile_id));
        }
    } else {
        lemma_tick_decrements(m, pss[i], pid, pss.len() - i);
        lemma_projectile_lifetime(tick_m(m, pss[i]), pss, i + 1, pid);
    }
}

/// Projectile lifetime: any projectile alive now is destroyed within
/// `PROJECTILE_LIFETIME` ticks (or earlier, on a hit).
pub proof fn lemma_projectile_expires(m: WorldModel, pss: Seq<Seq<GamePacket>>, pid: u64)
    requires
        m.wf(),
        has_projectile(m, pid),
        pss.len() >= PROJECTILE_LIFETIME,
    ensures
        !has_projectile(ticks_m(m, pss, 0), pid),
{
    let k = choose|k: int| 0 <= k < m.projectiles.len() && m.projectiles[k].id == pid;
    assert(proj_wf(m.projectiles[k], m.next_projectile_id));
    assert forall|j: int|
        0 <= j < m.projectiles.len() && (#[trigger] m.projectiles[j]).id == pid
            implies m.projectiles[j].ticks_remaining <= pss.len() by {
        assert(proj_wf(m.projectiles[j], m.next_projectile_id));
    }
    lemma_projectile_lifetime(m, pss, 0, pid);
}

/// A destroyed projectile never returns: once its id is absent (and below
/// the id allocator's next value) it stays absent forever, so a projectile
/// destroyed by its one hit can never damage anyone again.
pub proof fn lemma_destroyed_never_returns(
    m: WorldModel,
    pss: Seq<Seq<GamePacket>>,
    i: int,
    pid: u64,
)
    requires
        m.wf(),
        !has_projectile(m, pid),
        pid < m.next_projectile_id,
        0 <= i <= pss.len(),
    ensures
        !has_projectile(ticks_m(m, pss, i), pid),
    decreases pss.len() - i,
{
    if i >= pss.len() {
    } else {
        assert(proj_ticks_bounded(m, pid, 0));
        lemma_tick_decrements(m, pss[i], pid, 0);
        let m1 = tick_m(m, pss[i]);
        assert forall|k: int|
            0 <= k < m1.projectiles.len() implies (#[trigger] m1.projectiles[k]).id != pid by {
            assert(proj_wf(m1.projectiles[k], m1.next_projectile_id));
        }
        lemma_destroyed_never_returns(m1, pss, i + 1, pid);
    }
}

} // verus!
