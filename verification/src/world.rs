//! The authoritative simulation world and its tick pipeline.
//!
//! The executable functions mirror a functional model: every mutator's
//! `ensures` says that the new state is exactly the corresponding model
//! transition of the old state, so every tick-pipeline phase is pinned down
//! by a spec-level function.

use vstd::prelude::*;
use crate::vec2::{Vec2, dist_sq, dist_sq_spec, norm_dir_spec, normalize_dir};
use crate::wire::{ClientCommand, GamePacket, PlayerState, ProjectileState, ServerEvent};

verus! {

pub const SPAWN_X: i64 = 400 * 1024;

pub const SPAWN_Y: i64 = 300 * 1024;

pub const MAX_HEALTH: i32 = 100;

pub const DAMAGE: i32 = 10;

pub const MOVE_SPEED: i64 = 5;

pub const CAST_OFFSET: i64 = 20;

pub const PROJ_SPEED: i64 = 10;

pub const HIT_RADIUS: i64 = 20 * 1024;

pub const PROJECTILE_LIFETIME: u32 = 60;

#[derive(Clone, Copy, PartialEq, Eq, Structural, Debug)]
pub struct Player {
    pub id: u32,
    pub position: Vec2,
    pub health: i32,
    pub max_health: i32,
}

#[derive(Clone, Copy, PartialEq, Eq, Structural, Debug)]
pub struct Projectile {
    pub id: u64,
    pub position: Vec2,
    pub velocity: Vec2,
    pub owner_id: u32,
    pub ticks_remaining: u32,
}

/// The authoritative state: nothing outside the simulation may write it.
pub struct World {
    pub tick: u64,
    pub next_projectile_id: u64,
    pub players: Vec<Player>,
    pub projectiles: Vec<Projectile>,
}

/// Mathematical image of a `World`.
#[verifier::ext_equal]
pub struct WorldModel {
    pub tick: u64,
    pub next_projectile_id: u64,
    pub players: Seq<Player>,
    pub projectiles: Seq<Projectile>,
}

impl View for World {
    type V = WorldModel;

    open spec fn view(&self) -> WorldModel {
        WorldModel {
            tick: self.tick,
            next_projectile_id: self.next_projectile_id,
            players: self.players@,
            projectiles: self.projectiles@,
        }
    }
}

pub open spec fn player_wf(p: Player) -> bool {
    &&& 0 < p.health <= p.max_health
    &&& p.position.wf()
}

pub open spec fn proj_wf(pr: Projectile, next_id: u64) -> bool {
    &&& 0 < pr.ticks_remaining <= PROJECTILE_LIFETIME
    &&& pr.position.wf()
    &&& pr.velocity.wf()
    &&& pr.id < next_id
}

impl WorldModel {
    /// The invariant of every tick boundary: health within bounds, lifetimes
    /// within bounds, coordinates in range, projectile ids fresh and distinct.
    pub open spec fn wf(self) -> bool {
        &&& (forall|i: int| 0 <= i < self.players.len() ==> player_wf(#[trigger] self.players[i]))
        &&& (forall|i: int|
            0 <= i < self.projectiles.len() ==> proj_wf(
                #[trigger] self.projectiles[i],
                self.next_projectile_id,
            ))
        &&& (forall|i: int, j: int|
            #![trigger self.projectiles[i], self.projectiles[j]]
            0 <= i < j < self.projectiles.len() ==> self.projectiles[i].id
                != self.projectiles[j].id)
    }
}

pub open spec fn has_player(m: WorldModel, id: u32) -> bool {
    exists|k: int| 0 <= k < m.players.len() && m.players[k].id == id
}

pub open spec fn has_projectile(m: WorldModel, pid: u64) -> bool {
    exists|k: int| 0 <= k < m.projectiles.len() && m.projectiles[k].id == pid
}

// ---------------------------------------------------------------------------
// Model transitions, one per packet kind and pipeline phase.
// ---------------------------------------------------------------------------

pub open spec fn new_player(id: u32) -> Player {
    Player {
        id,
        position: Vec2 { x: SPAWN_X, y: SPAWN_Y },
        health: MAX_HEALTH,
        max_health: MAX_HEALTH,
    }
}

pub open spec fn join_m(m: WorldModel, id: u32) -> WorldModel {
    WorldModel { players: m.players.push(new_player(id)), ..m }
}

/// The players that survive a `Leave{id}`, scanning from index `i`.
pub open spec fn remove_id_from(s: Seq<Player>, id: u32, i: int) -> Seq<Player>
    decreases s.len() - i,
{
    if i < 0 || i >= s.len() {
        Seq::empty()
    } else if s[i].id == id {
        remove_id_from(s, id, i + 1)
    } else {
        seq![s[i]] + remove_id_from(s, id, i + 1)
    }
}

pub open spec fn leave_m(m: WorldModel, id: u32) -> WorldModel {
    WorldModel { players: remove_id_from(m.players, id, 0), ..m }
}

pub open spec fn move_step(p: Player, id: u32, dir: Vec2) -> Player {
    if p.id == id {
        Player { position: p.position.add_spec(dir.scale_spec(MOVE_SPEED as int)), ..p }
    } else {
        p
    }
}

pub open spec fn move_m(m: WorldModel, id: u32, dir: Vec2) -> WorldModel {
    WorldModel { players: m.players.map_values(|p: Player| move_step(p, id, dir)), ..m }
}

pub open spec fn first_index_with_id(s: Seq<Player>, id: u32, i: int) -> Option<int>
    decreases s.len() - i,
{
    if i < 0 || i >= s.len() {
        None
    } else if s[i].id == id {
        Some(i)
    } else {
        first_index_with_id(s, id, i + 1)
    }
}

pub open spec fn cast_projectile(pos: Vec2, target: Vec2, owner: u32, pid: u64) -> Projectile {
    let dir = norm_dir_spec(pos, target);
    Projectile {
        id: pid,
        position: pos.add_spec(dir.scale_spec(CAST_OFFSET as int)),
        velocity: dir.scale_spec(PROJ_SPEED as int),
        owner_id: owner,
        ticks_remaining: PROJECTILE_LIFETIME,
    }
}

pub open spec fn cast_m(m: WorldModel, id: u32, target: Vec2) -> WorldModel {
    let t = target.clamped_spec();
    match first_index_with_id(m.players, id, 0) {
        None => m,
        Some(j) => {
            let pos = m.players[j].position;
            if t == pos || m.next_projectile_id == u64::MAX {
                m
            } else {
                WorldModel {
                    projectiles: m.projectiles.push(
                        cast_projectile(pos, t, id, m.next_projectile_id),
                    ),
                    next_projectile_id: (m.next_projectile_id + 1) as u64,
                    ..m
                }
            }
        },
    }
}

pub open spec fn apply_packet_m(m: WorldModel, p: GamePacket) -> WorldModel {
    match p {
        GamePacket::PlayerJoin { id } => join_m(m, id),
        GamePacket::PlayerLeave { id } => leave_m(m, id),
        GamePacket::ClientCommand { id, cmd } => match cmd {
            ClientCommand::Move { dir } => move_m(m, id, dir),
            ClientCommand::CastSpell { target } => cast_m(m, id, target),
            ClientCommand::Join { .. } => m,
            ClientCommand::Chat { .. } => m,
        },
    }
}

pub open spec fn apply_packets_from(m: WorldModel, ps: Seq<GamePacket>, i: int) -> WorldModel
    decreases ps.len() - i,
{
    if i < 0 || i >= ps.len() {
        m
    } else {
        apply_packets_from(apply_packet_m(m, ps[i]), ps, i + 1)
    }
}

pub open spec fn advance(pr: Projectile) -> Projectile {
    Projectile {
        position: pr.position.add_spec(pr.velocity),
        ticks_remaining: (pr.ticks_remaining - 1) as u32,
        ..pr
    }
}

/// The projectiles that survive the advance phase, scanning from index `i`.
pub open spec fn advance_projs_from(s: Seq<Projectile>, i: int) -> Seq<Projectile>
    decreases s.len() - i,
{
    if i < 0 || i >= s.len() {
        Seq::empty()
    } else {
        let a = advance(s[i]);
        if a.ticks_remaining > 0 {
            seq![a] + advance_projs_from(s, i + 1)
        } else {
            advance_projs_from(s, i + 1)
        }
    }
}

pub open spec fn move_projs_m(m: WorldModel) -> WorldModel {
    WorldModel { projectiles: advance_projs_from(m.projectiles, 0), ..m }
}

/// A projectile hits a player it does not own, within the hit radius.
pub open spec fn hits(pr: Projectile, p: Player) -> bool {
    &&& p.id != pr.owner_id
    &&& dist_sq_spec(pr.position, p.position) < (HIT_RADIUS as int) * (HIT_RADIUS as int)
}

pub open spec fn first_hit_from(players: Seq<Player>, pr: Projectile, i: int) -> Option<int>
    decreases players.len() - i,
{
    if i < 0 || i >= players.len() {
        None
    } else if hits(pr, players[i]) {
        Some(i)
    } else {
        first_hit_from(players, pr, i + 1)
    }
}

/// Ten damage; lethal damage respawns in place at full health.
pub open spec fn damaged(p: Player) -> Player {
    if p.health - DAMAGE <= 0 {
        Player { health: p.max_health, ..p }
    } else {
        Player { health: (p.health - DAMAGE) as i32, ..p }
    }
}

/// Resolve collisions for the projectiles from index `i` on: each projectile
/// damages at most its first eligible victim and is destroyed on hit.
pub open spec fn collide_from(players: Seq<Player>, projs: Seq<Projectile>, i: int) -> (
    Seq<Player>,
    Seq<Projectile>,
)
    decreases projs.len() - i,
{
    if i < 0 || i >= projs.len() {
        (players, Seq::empty())
    } else {
        match first_hit_from(players, projs[i], 0) {
            None => {
                let r = collide_from(players, projs, i + 1);
                (r.0, seq![projs[i]] + r.1)
            },
            Some(j) => collide_from(players.update(j, damaged(players[j])), projs, i + 1),
        }
    }
}

pub open spec fn collide_m(m: WorldModel) -> WorldModel {
    let r = collide_from(m.players, m.projectiles, 0);
    WorldModel { players: r.0, projectiles: r.1, ..m }
}

/// One whole tick: apply the drained packets, advance projectiles, resolve
/// collisions, bump the counter.
pub open spec fn tick_m(m: WorldModel, ps: Seq<GamePacket>) -> WorldModel {
    let m2 = collide_m(move_projs_m(apply_packets_from(m, ps, 0)));
    let t = if m2.tick == u64::MAX {
        0u64
    } else {
        (m2.tick + 1) as u64
    };
    WorldModel { tick: t, ..m2 }
}

pub open spec fn player_state_of(p: Player) -> PlayerState {
    PlayerState { id: p.id, position: p.position, health: p.health, max_health: p.max_health }
}

pub open spec fn projectile_state_of(pr: Projectile) -> ProjectileState {
    ProjectileState { id: pr.id as u32, position: pr.position }
}

// ---------------------------------------------------------------------------
// The tick boundary invariant is preserved by every transition.
// ---------------------------------------------------------------------------

/// Every survivor of a `Leave{id}` is one of the old players, and none of
/// them carries the departed id.
pub proof fn lemma_remove_id_elements(s: Seq<Player>, id: u32, i: int)
    ensures
        forall|k: int|
            0 <= k < remove_id_from(s, id, i).len() ==> (exists|j: int|
                i <= j < s.len() && #[trigger] remove_id_from(s, id, i)[k] == s[j])
                && remove_id_from(s, id, i)[k].id != id,
    decreases s.len() - i,
{
    if i < 0 || i >= s.len() {
    } else {
        lemma_remove_id_elements(s, id, i + 1);
        if s[i].id != id {
            let rem = remove_id_from(s, id, i);
            let rest = remove_id_from(s, id, i + 1);
            assert forall|k: int| 0 <= k < rem.len() implies (exists|j: int|
                i <= j < s.len() && #[trigger] rem[k] == s[j]) && rem[k].id != id by {
                if k == 0 {
                    assert(rem[0] == s[i]);
                } else {
                    assert(rem[k] == rest[k - 1]);
                }
            }
        }
    }
}

/// A player with another id survives a `Leave{id}`.
pub proof fn lemma_remove_id_keeps(s: Seq<Player>, id: u32, i: int, j: int)
    requires
        0 <= i <= j < s.len(),
        s[j].id != id,
    ensures
        exists|k: int|
            0 <= k < remove_id_from(s, id, i).len() && #[trigger] remove_id_from(s, id, i)[k]
                == s[j],
    decreases s.len() - i,
{
    if i == j {
        assert(remove_id_from(s, id, i)[0] == s[j]);
    } else {
        lemma_remove_id_keeps(s, id, i + 1, j);
        let rest = remove_id_from(s, id, i + 1);
        let k0 = choose|k: int| 0 <= k < rest.len() && #[trigger] rest[k] == s[j];
        if s[i].id == id {
            assert(remove_id_from(s, id, i)[k0] == s[j]);
        } else {
            assert(remove_id_from(s, id, i)[k0 + 1] == s[j]);
        }
    }
}

pub proof fn lemma_apply_packet_wf(m: WorldModel, p: GamePacket)
    requires
        m.wf(),
    ensures
        apply_packet_m(m, p).wf(),
        m.next_projectile_id <= apply_packet_m(m, p).next_projectile_id,
{
    let r = apply_packet_m(m, p);
    match p {
        GamePacket::PlayerJoin { id } => {
            assert forall|k: int| 0 <= k < r.players.len() implies player_wf(
                #[trigger] r.players[k],
            ) by {
                if k < m.players.len() {
                    assert(r.players[k] == m.players[k]);
                } else {
                    assert(r.players[k] == new_player(id));
                }
            }
        },
        GamePacket::PlayerLeave { id } => {
            lemma_remove_id_elements(m.players, id, 0);
            assert forall|k: int| 0 <= k < r.players.len() implies player_wf(
                #[trigger] r.players[k],
            ) by {
                let j = choose|j: int| 0 <= j < m.players.len() && r.players[k] == m.players[j];
                assert(player_wf(m.players[j]));
            }
        },
        GamePacket::ClientCommand { id, cmd } => match cmd {
            ClientCommand::Move { dir } => {
                assert forall|k: int| 0 <= k < r.players.len() implies player_wf(
                    #[trigger] r.players[k],
                ) by {
                    assert(r.players[k] == move_step(m.players[k], id, dir));
                    assert(player_wf(m.players[k]));
                }
            },
            ClientCommand::CastSpell { target } => {
                match first_index_with_id(m.players, id, 0) {
                    None => {},
                    Some(j) => {
                        assert forall|k: int| 0 <= k < r.projectiles.len() implies proj_wf(
                            #[trigger] r.projectiles[k],
                            r.next_projectile_id,
                        ) by {
                            if k < m.projectiles.len() {
                                assert(r.projectiles[k] == m.projectiles[k]);
                                assert(proj_wf(m.projectiles[k], m.next_projectile_id));
                            }
                        }
                    },
                }
            },
            ClientCommand::Join { .. } => {},
            ClientCommand::Chat { .. } => {},
        },
    }
}

/// Elements of the advance phase: each survivor is the advance of an input
/// projectile with a strictly positive remaining lifetime.
pub proof fn lemma_advance_elements(s: Seq<Projectile>, i: int)
    ensures
        forall|k: int|
            0 <= k < advance_projs_from(s, i).len() ==> exists|j: int|
                i <= j < s.len() && #[trigger] advance_projs_from(s, i)[k] == advance(s[j])
                    && advance(s[j]).ticks_remaining > 0,
    decreases s.len() - i,
{
    if i < 0 || i >= s.len() {
    } else {
        lemma_advance_elements(s, i + 1);
        let adv = advance_projs_from(s, i);
        let rest = advance_projs_from(s, i + 1);
        if advance(s[i]).ticks_remaining > 0 {
            assert forall|k: int| 0 <= k < adv.len() implies exists|j: int|
                i <= j < s.len() && #[trigger] adv[k] == advance(s[j]) && advance(
                    s[j],
                ).ticks_remaining > 0 by {
                if k == 0 {
                    assert(adv[0] == advance(s[i]));
                } else {
                    assert(adv[k] == rest[k - 1]);
                }
            }
        }
    }
}

pub proof fn lemma_advance_distinct(s: Seq<Projectile>, i: int)
    requires
        forall|a: int, b: int|
            #![trigger s[a], s[b]]
            0 <= a < b < s.len() ==> s[a].id != s[b].id,
    ensures
        forall|a: int, b: int|
            #![trigger advance_projs_from(s, i)[a], advance_projs_from(s, i)[b]]
            0 <= a < b < advance_projs_from(s, i).len() ==> advance_projs_from(s, i)[a].id
                != advance_projs_from(s, i)[b].id,
    decreases s.len() - i,
{
    if i < 0 || i >= s.len() {
    } else {
        lemma_advance_distinct(s, i + 1);
        lemma_advance_elements(s, i + 1);
        let adv = advance_projs_from(s, i);
        let rest = advance_projs_from(s, i + 1);
        if advance(s[i]).ticks_remaining > 0 {
            assert forall|a: int, b: int|
                #![trigger adv[a], adv[b]]
                0 <= a < b < adv.len() implies adv[a].id != adv[b].id by {
                if a == 0 {
                    assert(adv[b] == rest[b - 1]);
                    let j = choose|j: int|
                        i + 1 <= j < s.len() && #[trigger] rest[b - 1] == advance(s[j]) && advance(
                            s[j],
                        ).ticks_remaining > 0;
                    assert(s[i].id != s[j].id);
                } else {
                    assert(adv[a] == rest[a - 1]);
                    assert(adv[b] == rest[b - 1]);
                }
            }
        }
    }
}

pub proof fn lemma_move_projs_wf(m: WorldModel)
    requires
        m.wf(),
    ensures
        move_projs_m(m).wf(),
{
    let r = move_projs_m(m);
    lemma_advance_elements(m.projectiles, 0);
    lemma_advance_distinct(m.projectiles, 0);
    assert forall|k: int| 0 <= k < r.projectiles.len() implies proj_wf(
        #[trigger] r.projectiles[k],
        r.next_projectile_id,
    ) by {
        let j = choose|j: int|
            0 <= j < m.projectiles.len() && #[trigger] r.projectiles[k] == advance(
                m.projectiles[j],
            ) && advance(m.projectiles[j]).ticks_remaining > 0;
        assert(proj_wf(m.projectiles[j], m.next_projectile_id));
    }
}

/// A found hit is an in-bounds player that the projectile may damage.
pub proof fn lemma_first_hit_bounds(players: Seq<Player>, pr: Projectile, i: int)
    ensures
        first_hit_from(players, pr, i) matches Some(j) ==> i <= j < players.len() && hits(
            pr,
            players[j],
        ),
    decreases players.len() - i,
{
    if i < 0 || i >= players.len() {
    } else if hits(pr, players[i]) {
    } else {
        lemma_first_hit_bounds(players, pr, i + 1);
    }
}

/// The collision phase preserves the player list's length, ids, positions
/// and well-formedness, and keeps only untouched input projectiles.
pub proof fn lemma_collide_elements(players: Seq<Player>, projs: Seq<Projectile>, i: int)
    ensures
        collide_from(players, projs, i).0.len() == players.len(),
        forall|k: int|
            #![trigger collide_from(players, projs, i).0[k]]
            0 <= k < players.len() ==> collide_from(players, projs, i).0[k].id == players[k].id
                && collide_from(players, projs, i).0[k].position == players[k].position
                && collide_from(players, projs, i).0[k].max_health == players[k].max_health
                && (player_wf(players[k]) ==> player_wf(collide_from(players, projs, i).0[k])),
        forall|k: int|
            0 <= k < collide_from(players, projs, i).1.len() ==> exists|j: int|
                i <= j < projs.len() && #[trigger] collide_from(players, projs, i).1[k]
                    == projs[j],
    decreases projs.len() - i,
{
    if i < 0 || i >= projs.len() {
    } else {
        let r = collide_from(players, projs, i);
        match first_hit_from(players, projs[i], 0) {
            None => {
                lemma_collide_elements(players, projs, i + 1);
                let rest = collide_from(players, projs, i + 1);
                assert forall|k: int| 0 <= k < r.1.len() implies exists|j: int|
                    i <= j < projs.len() && #[trigger] r.1[k] == projs[j] by {
                    if k == 0 {
                        assert(r.1[0] == projs[i]);
                    } else {
                        assert(r.1[k] == rest.1[k - 1]);
                    }
                }
            },
            Some(j) => {
                lemma_first_hit_bounds(players, projs[i], 0);
                let p2 = players.update(j, damaged(players[j]));
                lemma_collide_elements(p2, projs, i + 1);
                assert forall|k: int| 0 <= k < players.len() implies #[trigger] r.0[k].id
                    == players[k].id && r.0[k].position == players[k].position && r.0[k].max_health
                    == players[k].max_health && (player_wf(players[k]) ==> player_wf(r.0[k])) by {
                    assert(p2[k].id == players[k].id);
                    assert(p2[k].position == players[k].position);
                    assert(p2[k].max_health == players[k].max_health);
                    assert(player_wf(players[k]) ==> player_wf(p2[k]));
                    assert(r.0[k] == collide_from(p2, projs, i + 1).0[k]);
                }
            },
        }
    }
}

pub proof fn lemma_collide_wf(m: WorldModel)
    requires
        m.wf(),
    ensures
        collide_m(m).wf(),
{
    let r = collide_m(m);
    lemma_collide_elements(m.players, m.projectiles, 0);
    assert forall|k: int| 0 <= k < r.projectiles.len() implies proj_wf(
        #[trigger] r.projectiles[k],
        r.next_projectile_id,
    ) by {
        let j = choose|j: int|
            0 <= j < m.projectiles.len() && #[trigger] r.projectiles[k] == m.projectiles[j];
        assert(proj_wf(m.projectiles[j], m.next_projectile_id));
    }
    lemma_collide_kept_distinct(m.players, m.projectiles, 0);
}

proof fn lemma_collide_kept_distinct(players: Seq<Player>, projs: Seq<Projectile>, i: int)
    requires
        forall|a: int, b: int|
            #![trigger projs[a], projs[b]]
            0 <= a < b < projs.len() ==> projs[a].id != projs[b].id,
    ensures
        forall|a: int, b: int|
            #![trigger collide_from(players, projs, i).1[a], collide_from(players, projs, i).1[b]]
            0 <= a < b < collide_from(players, projs, i).1.len() ==> collide_from(
                players,
                projs,
                i,
            ).1[a].id != collide_from(players, projs, i).1[b].id,
    decreases projs.len() - i,
{
    if i < 0 || i >= projs.len() {
    } else {
        let r = collide_from(players, projs, i);
        match first_hit_from(players, projs[i], 0) {
            None => {
                lemma_collide_kept_distinct(players, projs, i + 1);
                lemma_collide_elements(players, projs, i + 1);
                let rest = collide_from(players, projs, i + 1);
                assert forall|a: int, b: int|
                    #![trigger r.1[a], r.1[b]]
                    0 <= a < b < r.1.len() implies r.1[a].id != r.1[b].id by {
                    if a == 0 {
                        assert(r.1[b] == rest.1[b - 1]);
                        let j = choose|j: int|
                            i + 1 <= j < projs.len() && #[trigger] rest.1[b - 1] == projs[j];
                        assert(projs[i].id != projs[j].id);
                    } else {
                        assert(r.1[a] == rest.1[a - 1]);
                        assert(r.1[b] == rest.1[b - 1]);
                    }
                }
            },
            Some(j) => {
                lemma_first_hit_bounds(players, projs[i], 0);
                let p2 = players.update(j, damaged(players[j]));
                lemma_collide_kept_distinct(p2, projs, i + 1);
                assert forall|a: int, b: int|
                    #![trigger r.1[a], r.1[b]]
                    0 <= a < b < r.1.len() implies r.1[a].id != r.1[b].id by {
                    assert(r.1[a] == collide_from(p2, projs, i + 1).1[a]);
                    assert(r.1[b] == collide_from(p2, projs, i + 1).1[b]);
                }
            },
        }
    }
}

pub proof fn lemma_apply_packets_wf(m: WorldModel, ps: Seq<GamePacket>, i: int)
    requires
        m.wf(),
    ensures
        apply_packets_from(m, ps, i).wf(),
        m.next_projectile_id <= apply_packets_from(m, ps, i).next_projectile_id,
    decreases ps.len() - i,
{
    if i < 0 || i >= ps.len() {
    } else {
        lemma_apply_packet_wf(m, ps[i]);
        lemma_apply_packets_wf(apply_packet_m(m, ps[i]), ps, i + 1);
    }
}

/// One whole tick keeps the world invariant.
pub proof fn lemma_tick_wf(m: WorldModel, ps: Seq<GamePacket>)
    requires
        m.wf(),
    ensures
        tick_m(m, ps).wf(),
        m.next_projectile_id <= tick_m(m, ps).next_projectile_id,
{
    lemma_apply_packets_wf(m, ps, 0);
    lemma_move_projs_wf(apply_packets_from(m, ps, 0));
    lemma_collide_wf(move_projs_m(apply_packets_from(m, ps, 0)));
}

// ---------------------------------------------------------------------------
// The executable world.
// ---------------------------------------------------------------------------

impl World {
    pub fn new() -> (r: World)
        ensures
            r@.wf(),
            r@.players.len() == 0,
            r@.projectiles.len() == 0,
            r@.tick == 0,
            r@.next_projectile_id == 0,
    {
        World { tick: 0, next_projectile_id: 0, players: Vec::new(), projectiles: Vec::new() }
    }

    /// `Join{id}`: spawn a player at the spawn point with full health.
    pub fn spawn_player(&mut self, id: u32)
        ensures
            final(self)@ == join_m(old(self)@, id),
    {
        self.players.push(
            Player {
                id,
                position: Vec2 { x: SPAWN_X, y: SPAWN_Y },
                health: MAX_HEALTH,
                max_health: MAX_HEALTH,
            },
        );
        proof {
            assert(self@ =~= join_m(old(self)@, id));
        }
    }

    /// `Leave{id}`: destroy every player whose id matches; a no-op if none
    /// does. Projectiles owned by the leaver are not retracted.
    pub fn despawn_player(&mut self, id: u32)
        ensures
            final(self)@ == leave_m(old(self)@, id),
    {
        let ghost orig = self.players@;
        let n = self.players.len();
        let mut kept: Vec<Player> = Vec::new();
        let mut i: usize = 0;
        while i < n
            invariant
                i <= n,
                n == orig.len(),
                self.players@ == orig,
                kept@ + remove_id_from(orig, id, i as int) == remove_id_from(orig, id, 0),
            decreases n - i,
        {
            let p = self.players[i];
            if p.id != id {
                let ghost kept0 = kept@;
                kept.push(p);
                proof {
                    assert(kept@ =~= kept0 + seq![p]);
                    assert(kept@ + remove_id_from(orig, id, i + 1) =~= kept0 + (seq![p]
                        + remove_id_from(orig, id, i + 1)));
                }
            }
            i += 1;
        }
        self.players = kept;
        proof {
            assert(kept@ + Seq::<Player>::empty() =~= kept@);
            assert(self@ =~= leave_m(old(self)@, id));
        }
    }

    /// `Move{dir}`: every player with the id advances by `dir * MOVE_SPEED`,
    /// clamped into coordinate range.
    pub fn apply_move(&mut self, id: u32, dir: Vec2)
        ensures
            final(self)@ == move_m(old(self)@, id, dir),
    {
        let ghost orig = self.players@;
        let n = self.players.len();
        let mut i: usize = 0;
        while i < n
            invariant
                i <= n,
                n == self.players.len(),
                self.players@.len() == orig.len(),
                self.tick == old(self).tick,
                self.next_projectile_id == old(self).next_projectile_id,
                self.projectiles@ == old(self).projectiles@,
                forall|j: int| 0 <= j < i ==> self.players@[j] == move_step(orig[j], id, dir),
                forall|j: int| i <= j < n ==> self.players@[j] == orig[j],
            decreases n - i,
        {
            let p = self.players[i];
            if p.id == id {
                let q = Player {
                    id: p.id,
                    position: p.position.add_clamped(dir.scaled_clamped(MOVE_SPEED)),
                    health: p.health,
                    max_health: p.max_health,
                };
                self.players[i] = q;
            }
            i += 1;
        }
        proof {
            assert(self.players@ =~= orig.map_values(|p: Player| move_step(p, id, dir)));
            assert(self@ =~= move_m(old(self)@, id, dir));
        }
    }

    fn find_player(players: &Vec<Player>, id: u32) -> (r: Option<usize>)
        ensures
            match r {
                Some(j) => first_index_with_id(players@, id, 0) == Some(j as int) && j
                    < players@.len(),
                None => first_index_with_id(players@, id, 0) is None,
            },
    {
        let n = players.len();
        let mut i: usize = 0;
        while i < n
            invariant
                i <= n,
                n == players@.len(),
                first_index_with_id(players@, id, 0) == first_index_with_id(
                    players@,
                    id,
                    i as int,
                ),
            decreases n - i,
        {
            if players[i].id == id {
                return Some(i);
            }
            i += 1;
        }
        None
    }

    /// `CastSpell{target}`: the first player with the id casts toward the
    /// clamped target; no projectile spawns when the target equals the
    /// caster's position.
    pub fn apply_cast(&mut self, id: u32, target: Vec2)
        requires
            old(self)@.wf(),
        ensures
            final(self)@ == cast_m(old(self)@, id, target),
    {
        let t = target.clamped();
        match Self::find_player(&self.players, id) {
            None => {},
            Some(j) => {
                let p = self.players[j];
                proof {
                    assert(p == old(self)@.players[j as int]);
                    assert(player_wf(old(self)@.players[j as int]));
                }
                match normalize_dir(p.position, t) {
                    None => {},
                    Some(dir) => {
                        if self.next_projectile_id < u64::MAX {
                            let pr = Projectile {
                                id: self.next_projectile_id,
                                position: p.position.add_clamped(dir.scaled_clamped(CAST_OFFSET)),
                                velocity: dir.scaled_clamped(PROJ_SPEED),
                                owner_id: id,
                                ticks_remaining: PROJECTILE_LIFETIME,
                            };
                            self.projectiles.push(pr);
                            self.next_projectile_id = self.next_projectile_id + 1;
                            proof {
                                assert(self@ =~= cast_m(old(self)@, id, target));
                            }
                        }
                    },
                }
            },
        }
    }

    /// Advance every projectile by its velocity, decrement its lifetime, and
    /// destroy the expired.
    pub fn move_projectiles(&mut self)
        requires
            old(self)@.wf(),
        ensures
            final(self)@ == move_projs_m(old(self)@),
    {
        let ghost orig = self.projectiles@;
        let n = self.projectiles.len();
        let mut kept: Vec<Projectile> = Vec::new();
        let mut i: usize = 0;
        while i < n
            invariant
                i <= n,
                n == orig.len(),
                orig == old(self)@.projectiles,
                self.projectiles@ == orig,
                old(self)@.wf(),
                kept@ + advance_projs_from(orig, i as int) == advance_projs_from(orig, 0),
            decreases n - i,
        {
            let pr = self.projectiles[i];
            proof {
                assert(pr == old(self)@.projectiles[i as int]);
                assert(proj_wf(old(self)@.projectiles[i as int], old(self)@.next_projectile_id));
            }
            let a = Projectile {
                id: pr.id,
                position: pr.position.add_clamped(pr.velocity),
                velocity: pr.velocity,
                owner_id: pr.owner_id,
                ticks_remaining: pr.ticks_remaining - 1,
            };
            if a.ticks_remaining > 0 {
                let ghost kept0 = kept@;
                kept.push(a);
                proof {
                    assert(kept@ =~= kept0 + seq![a]);
                    assert(kept@ + advance_projs_from(orig, i + 1) =~= kept0 + (seq![a]
                        + advance_projs_from(orig, i + 1)));
                }
            }
            i += 1;
        }
        self.projectiles = kept;
        proof {
            assert(kept@ + Seq::<Projectile>::empty() =~= kept@);
            assert(self@ =~= move_projs_m(old(self)@));
        }
    }

    fn find_hit(players: &Vec<Player>, pr: Projectile) -> (r: Option<usize>)
        requires
            pr.position.wf(),
            forall|j: int| 0 <= j < players@.len() ==> player_wf(#[trigger] players@[j]),
        ensures
            match r {
                Some(j) => first_hit_from(players@, pr, 0) == Some(j as int) && j
                    < players@.len(),
                None => first_hit_from(players@, pr, 0) is None,
            },
    {
        let n = players.len();
        let mut i: usize = 0;
        while i < n
            invariant
                i <= n,
                n == players@.len(),
                pr.position.wf(),
                forall|j: int| 0 <= j < players@.len() ==> player_wf(#[trigger] players@[j]),
                first_hit_from(players@, pr, 0) == first_hit_from(players@, pr, i as int),
            decreases n - i,
        {
            let p = players[i];
            if p.id != pr.owner_id {
                let d2 = dist_sq(pr.position, p.position);
                let hr2: u128 = (HIT_RADIUS as u128) * (HIT_RADIUS as u128);
                if d2 < hr2 {
                    return Some(i);
                }
            }
            i += 1;
        }
        None
    }

    /// Nested scan over (projectile, player) pairs in order. A projectile
    /// damages the first player in range that it does not own, then is
    /// destroyed; lethal damage respawns the victim in place.
    pub fn handle_collisions(&mut self)
        requires
            old(self)@.wf(),
        ensures
            final(self)@ == collide_m(old(self)@),
    {
        let ghost projs = self.projectiles@;
        let ghost res = collide_from(old(self)@.players, projs, 0);
        let n = self.projectiles.len();
        let mut kept: Vec<Projectile> = Vec::new();
        let mut i: usize = 0;
        while i < n
            invariant
                i <= n,
                n == projs.len(),
                projs == old(self)@.projectiles,
                res == collide_from(old(self)@.players, projs, 0),
                self.projectiles@ == projs,
                self.tick == old(self).tick,
                self.next_projectile_id == old(self).next_projectile_id,
                old(self)@.wf(),
                forall|j: int| 0 <= j < self.players@.len() ==> player_wf(
                    #[trigger] self.players@[j],
                ),
                collide_from(self.players@, projs, i as int).0 == res.0,
                kept@ + collide_from(self.players@, projs, i as int).1 == res.1,
            decreases n - i,
        {
            let pr = self.projectiles[i];
            proof {
                assert(pr == old(self)@.projectiles[i as int]);
                assert(proj_wf(old(self)@.projectiles[i as int], old(self)@.next_projectile_id));
            }
            match Self::find_hit(&self.players, pr) {
                Some(j) => {
                    let victim = self.players[j];
                    let h = victim.health - DAMAGE;
                    let q = Player {
                        id: victim.id,
                        position: victim.position,
                        health: if h <= 0 {
                            victim.max_health
                        } else {
                            h
                        },
                        max_health: victim.max_health,
                    };
                    assert(q == damaged(victim));
                    self.players[j] = q;
                },
                None => {
                    let ghost kept0 = kept@;
                    kept.push(pr);
                    proof {
                        assert(kept@ =~= kept0 + seq![pr]);
                        assert(kept@ + collide_from(self.players@, projs, i + 1).1 =~= kept0 + (
                        seq![pr] + collide_from(self.players@, projs, i + 1).1));
                    }
                },
            }
            i += 1;
        }
        self.projectiles = kept;
        proof {
            assert(kept@ + Seq::<Projectile>::empty() =~= kept@);
            assert(self@ =~= collide_m(old(self)@));
        }
    }

    /// Apply one drained command-bus packet.
    pub fn apply_packet(&mut self, p: &GamePacket)
        requires
            old(self)@.wf(),
        ensures
            final(self)@ == apply_packet_m(old(self)@, *p),
            final(self)@.wf(),
    {
        proof {
            lemma_apply_packet_wf(old(self)@, *p);
        }
        match p {
            GamePacket::PlayerJoin { id } => self.spawn_player(*id),
            GamePacket::PlayerLeave { id } => self.despawn_player(*id),
            GamePacket::ClientCommand { id, cmd } => match cmd {
                ClientCommand::Move { dir } => self.apply_move(*id, *dir),
                ClientCommand::CastSpell { target } => self.apply_cast(*id, *target),
                ClientCommand::Join { .. } => {},
                ClientCommand::Chat { .. } => {},
            },
        }
    }

    /// Drain-applied packets, in arrival order.
    pub fn apply_packets(&mut self, ps: &Vec<GamePacket>)
        requires
            old(self)@.wf(),
        ensures
            final(self)@ == apply_packets_from(old(self)@, ps@, 0),
            final(self)@.wf(),
    {
        let n = ps.len();
        let mut i: usize = 0;
        while i < n
            invariant
                i <= n,
                n == ps@.len(),
                self@.wf(),
                apply_packets_from(self@, ps@, i as int) == apply_packets_from(old(self)@, ps@, 0),
            decreases n - i,
        {
            self.apply_packet(&ps[i]);
            i += 1;
        }
    }

    /// One full simulation tick: apply the drained packets, advance the
    /// projectiles, resolve collisions, bump the tick counter, and build the
    /// snapshot to publish, if there is anything to report.
    pub fn step(&mut self, packets: &Vec<GamePacket>) -> (r: Option<ServerEvent>)
        requires
            old(self)@.wf(),
        ensures
            final(self)@ == tick_m(old(self)@, packets@),
            final(self)@.wf(),
            (r is None) <==> (final(self)@.players.len() == 0 && final(self)@.projectiles.len()
                == 0),
            r matches Some(ev) ==> ev matches ServerEvent::Snapshot { tick, players, projectiles }
                && tick == final(self)@.tick && players@ == final(self)@.players.map_values(
                |p: Player| player_state_of(p),
            ) && projectiles@ == final(self)@.projectiles.map_values(
                |pr: Projectile| projectile_state_of(pr),
            ),
    {
        self.apply_packets(packets);
        self.move_projectiles();
        proof {
            lemma_move_projs_wf(apply_packets_from(old(self)@, packets@, 0));
        }
        self.handle_collisions();
        proof {
            lemma_collide_wf(move_projs_m(apply_packets_from(old(self)@, packets@, 0)));
        }
        let ghost m2 = collide_m(move_projs_m(apply_packets_from(old(self)@, packets@, 0)));
        proof {
            assert(self@ == m2);
        }
        self.tick = if self.tick == u64::MAX {
            0
        } else {
            self.tick + 1
        };
        proof {
            assert(self@ =~= tick_m(old(self)@, packets@));
        }
        self.broadcast_state()
    }

    /// Build the snapshot of the current state; `None` exactly when there is
    /// nothing to report.
    pub fn broadcast_state(&self) -> (r: Option<ServerEvent>)
        ensures
            (r is None) <==> (self@.players.len() == 0 && self@.projectiles.len() == 0),
            r matches Some(ev) ==> ev matches ServerEvent::Snapshot { tick, players, projectiles }
                && tick == self@.tick && players@ == self@.players.map_values(
                |p: Player| player_state_of(p),
            ) && projectiles@ == self@.projectiles.map_values(
                |pr: Projectile| projectile_state_of(pr),
            ),
    {
        if self.players.len() == 0 && self.projectiles.len() == 0 {
            return None;
        }
        let mut ps: Vec<PlayerState> = Vec::new();
        let mut i: usize = 0;
        let n = self.players.len();
        while i < n
            invariant
                i <= n,
                n == self.players@.len(),
                ps@.len() == i,
                forall|j: int| 0 <= j < i ==> ps@[j] == player_state_of(self.players@[j]),
            decreases n - i,
        {
            let p = self.players[i];
            ps.push(
                PlayerState {
                    id: p.id,
                    position: p.position,
                    health: p.health,
                    max_health: p.max_health,
                },
            );
            i += 1;
        }
        let mut js: Vec<ProjectileState> = Vec::new();
        let mut k: usize = 0;
        let m = self.projectiles.len();
        while k < m
            invariant
                k <= m,
                m == self.projectiles@.len(),
                js@.len() == k,
                forall|j: int| 0 <= j < k ==> js@[j] == projectile_state_of(self.projectiles@[j]),
            decreases m - k,
        {
            let pr = self.projectiles[k];
            js.push(
                ProjectileState { id: #[verifier::truncate] (pr.id as u32), position: pr.position },
            );
            k += 1;
        }
        proof {
            assert(ps@ =~= self@.players.map_values(|p: Player| player_state_of(p)));
            assert(js@ =~= self@.projectiles.map_values(|pr: Projectile| projectile_state_of(pr)));
        }
        Some(ServerEvent::Snapshot { tick: self.tick, players: ps, projectiles: js })
    }
}

} // verus!
