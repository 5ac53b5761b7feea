use game_core::vec2::{isqrt, normalize_dir, Vec2, SCALE};
use game_core::wire::{ClientCommand, GamePacket, ServerEvent};
use game_core::world::{Player, Projectile, World, MAX_HEALTH, PROJECTILE_LIFETIME};

fn fx(units: i64) -> i64 {
    units * SCALE
}

fn player(id: u32, x: i64, y: i64, health: i32) -> Player {
    Player { id, position: Vec2 { x: fx(x), y: fx(y) }, health, max_health: MAX_HEALTH }
}

fn move_packet(id: u32, dx: i64, dy: i64) -> GamePacket {
    GamePacket::ClientCommand { id, cmd: ClientCommand::Move { dir: Vec2 { x: dx, y: dy } } }
}

fn cast_packet(id: u32, x: i64, y: i64) -> GamePacket {
    GamePacket::ClientCommand { id, cmd: ClientCommand::CastSpell { target: Vec2 { x, y } } }
}

#[test]
fn isqrt_exact_values() {
    assert_eq!(isqrt(0), 0);
    assert_eq!(isqrt(1), 1);
    assert_eq!(isqrt(2), 1);
    assert_eq!(isqrt(3), 1);
    assert_eq!(isqrt(4), 2);
    assert_eq!(isqrt(102400u128 * 102400u128), 102400);
    assert_eq!(isqrt(1_000_000_000_000), 1_000_000);
}

#[test]
fn normalize_axis_and_diagonal() {
    let a = Vec2 { x: fx(400), y: fx(300) };
    let b = Vec2 { x: fx(500), y: fx(300) };
    assert_eq!(normalize_dir(a, b), Some(Vec2 { x: SCALE, y: 0 }));
    assert_eq!(normalize_dir(b, a), Some(Vec2 { x: -SCALE, y: 0 }));
    assert_eq!(normalize_dir(a, a), None);
    // 3-4-5 triangle: components 3/5 and 4/5 of SCALE, rounded toward zero
    let o = Vec2 { x: 0, y: 0 };
    let t = Vec2 { x: 3 * SCALE, y: 4 * SCALE };
    assert_eq!(normalize_dir(o, t), Some(Vec2 { x: 614, y: 819 }));
}

#[test]
fn join_spawns_at_center_with_full_health() {
    let mut w = World::new();
    let snap = w.step(&vec![GamePacket::PlayerJoin { id: 7 }]);
    assert_eq!(w.players.len(), 1);
    assert_eq!(w.players[0].id, 7);
    assert_eq!(w.players[0].position, Vec2 { x: fx(400), y: fx(300) });
    assert_eq!(w.players[0].health, 100);
    assert_eq!(w.players[0].max_health, 100);
    // one player is something to report
    match snap {
        Some(ServerEvent::Snapshot { tick, players, projectiles }) => {
            assert_eq!(tick, 1);
            assert_eq!(players.len(), 1);
            assert_eq!(players[0].health, 100);
            assert!(projectiles.is_empty());
        }
        _ => panic!("expected a snapshot"),
    }
}

#[test]
fn empty_world_skips_snapshot() {
    let mut w = World::new();
    assert!(w.step(&Vec::new()).is_none());
    assert_eq!(w.tick, 1);
}

#[test]
fn leave_removes_player_exactly() {
    let mut w = World::new();
    w.step(&vec![GamePacket::PlayerJoin { id: 1 }, GamePacket::PlayerJoin { id: 2 }]);
    w.step(&vec![GamePacket::PlayerLeave { id: 1 }]);
    assert_eq!(w.players.len(), 1);
    assert_eq!(w.players[0].id, 2);
}

#[test]
fn two_player_walk() {
    let mut w = World::new();
    w.step(&vec![GamePacket::PlayerJoin { id: 1 }, GamePacket::PlayerJoin { id: 2 }]);
    for _ in 0..10 {
        let snap = w.step(&vec![move_packet(1, SCALE, 0), move_packet(2, SCALE, 0)]);
        assert!(snap.is_some());
    }
    assert_eq!(w.players[0].position, Vec2 { x: fx(450), y: fx(300) });
    assert_eq!(w.players[1].position, Vec2 { x: fx(450), y: fx(300) });
    assert_eq!(w.players[0].health, 100);
    assert_eq!(w.players[1].health, 100);
    match w.step(&Vec::new()) {
        Some(ServerEvent::Snapshot { players, .. }) => {
            assert_eq!(players.len(), 2);
            assert_eq!(players[0].position, Vec2 { x: fx(450), y: fx(300) });
            assert_eq!(players[1].position, Vec2 { x: fx(450), y: fx(300) });
        }
        _ => panic!("expected a snapshot"),
    }
}

#[test]
fn cast_and_hit() {
    let mut w = World {
        tick: 0,
        next_projectile_id: 0,
        players: vec![player(1, 400, 300, 100), player(2, 500, 300, 100)],
        projectiles: Vec::new(),
    };
    // tick 1: the cast is applied, then the projectile advances once
    w.step(&vec![cast_packet(1, fx(500), fx(300))]);
    assert_eq!(w.projectiles.len(), 1);
    let pr = w.projectiles[0];
    assert_eq!(pr.owner_id, 1);
    assert_eq!(pr.velocity, Vec2 { x: 10 * SCALE, y: 0 });
    // spawned at 420 world units, advanced once to 430
    assert_eq!(pr.position, Vec2 { x: fx(430), y: fx(300) });
    assert_eq!(pr.ticks_remaining, PROJECTILE_LIFETIME - 1);
    // ticks 2..=6: still flying, nobody hit
    for _ in 0..5 {
        w.step(&Vec::new());
    }
    assert_eq!(w.projectiles.len(), 1);
    assert_eq!(w.projectiles[0].position, Vec2 { x: fx(480), y: fx(300) });
    assert_eq!(w.players[1].health, 100);
    // tick 7: the projectile reaches 490, within the 20-unit radius of 500
    w.step(&Vec::new());
    assert_eq!(w.players[1].health, 90);
    assert_eq!(w.players[0].health, 100);
    assert!(w.projectiles.is_empty());
}

#[test]
fn zero_direction_cast_spawns_nothing() {
    let mut w = World::new();
    w.step(&vec![GamePacket::PlayerJoin { id: 1 }]);
    w.step(&vec![cast_packet(1, fx(400), fx(300))]);
    assert!(w.projectiles.is_empty());
}

#[test]
fn lethal_damage_respawns_in_place() {
    let mut w = World {
        tick: 0,
        next_projectile_id: 1,
        players: vec![player(1, 400, 300, 100), player(2, 500, 300, 10)],
        projectiles: vec![Projectile {
            id: 0,
            position: Vec2 { x: fx(500), y: fx(300) },
            velocity: Vec2 { x: 0, y: 0 },
            owner_id: 1,
            ticks_remaining: 5,
        }],
    };
    let snap = w.step(&Vec::new());
    assert_eq!(w.players[1].health, 100);
    assert_eq!(w.players[1].position, Vec2 { x: fx(500), y: fx(300) });
    assert!(w.projectiles.is_empty());
    match snap {
        Some(ServerEvent::Snapshot { players, .. }) => assert_eq!(players[1].health, 100),
        _ => panic!("expected a snapshot"),
    }
}

#[test]
fn projectile_outlives_owner_and_still_hits() {
    let mut w = World {
        tick: 0,
        next_projectile_id: 0,
        players: vec![player(1, 400, 300, 100), player(2, 500, 300, 100)],
        projectiles: Vec::new(),
    };
    w.step(&vec![cast_packet(1, fx(500), fx(300))]);
    // the caster disconnects before the projectile lands
    w.step(&vec![GamePacket::PlayerLeave { id: 1 }]);
    assert_eq!(w.players.len(), 1);
    assert_eq!(w.projectiles.len(), 1);
    for _ in 0..5 {
        w.step(&Vec::new());
    }
    assert_eq!(w.players[0].health, 90);
    assert!(w.projectiles.is_empty());
}

#[test]
fn first_encountered_victim_wins() {
    // one projectile within range of two eligible victims: only the first
    // encountered is damaged, and the projectile cannot hit twice
    let mut w = World {
        tick: 0,
        next_projectile_id: 1,
        players: vec![player(1, 0, 0, 100), player(2, 235, 300, 100), player(3, 265, 300, 100)],
        projectiles: vec![Projectile {
            id: 0,
            position: Vec2 { x: fx(250), y: fx(300) },
            velocity: Vec2 { x: 0, y: 0 },
            owner_id: 1,
            ticks_remaining: 10,
        }],
    };
    w.step(&Vec::new());
    assert_eq!(w.players[1].health, 90);
    assert_eq!(w.players[2].health, 100);
    assert!(w.projectiles.is_empty());
}

#[test]
fn projectile_expires_after_lifetime() {
    let mut w = World {
        tick: 0,
        next_projectile_id: 1,
        players: Vec::new(),
        projectiles: vec![Projectile {
            id: 0,
            position: Vec2 { x: 0, y: 0 },
            velocity: Vec2 { x: SCALE, y: 0 },
            owner_id: 1,
            ticks_remaining: PROJECTILE_LIFETIME,
        }],
    };
    for i in 0..PROJECTILE_LIFETIME {
        assert_eq!(w.projectiles.len(), 1, "gone too early at tick {i}");
        w.step(&Vec::new());
    }
    assert!(w.projectiles.is_empty());
}

#[test]
fn move_is_unnormalized_and_health_untouched() {
    let mut w = World::new();
    w.step(&vec![GamePacket::PlayerJoin { id: 1 }]);
    // an abusive 20-unit direction moves 100 units in one tick
    w.step(&vec![move_packet(1, 20 * SCALE, 0)]);
    assert_eq!(w.players[0].position, Vec2 { x: fx(500), y: fx(300) });
    assert_eq!(w.players[0].health, 100);
}

#[test]
fn unknown_commands_are_ignored() {
    let mut w = World::new();
    w.step(&vec![GamePacket::PlayerJoin { id: 1 }]);
    let before = w.players[0];
    w.step(&vec![
        GamePacket::ClientCommand { id: 1, cmd: ClientCommand::Join { name: "ada".to_string() } },
        GamePacket::ClientCommand { id: 1, cmd: ClientCommand::Chat { text: "hi".to_string() } },
    ]);
    assert_eq!(w.players[0], before);
    assert!(w.projectiles.is_empty());
}

#[test]
fn duplicate_join_spawns_twice_and_leave_removes_both() {
    let mut w = World::new();
    w.step(&vec![GamePacket::PlayerJoin { id: 5 }, GamePacket::PlayerJoin { id: 5 }]);
    assert_eq!(w.players.len(), 2);
    w.step(&vec![GamePacket::PlayerLeave { id: 5 }]);
    assert!(w.players.is_empty());
}

#[test]
fn health_stays_in_bounds_through_repeated_hits() {
    let mut w = World {
        tick: 0,
        next_projectile_id: 0,
        players: vec![player(2, 500, 300, 100)],
        projectiles: Vec::new(),
    };
    let mut expected = 100;
    for i in 0..10u64 {
        w.projectiles.push(Projectile {
            id: i,
            position: Vec2 { x: fx(500), y: fx(300) },
            velocity: Vec2 { x: 0, y: 0 },
            owner_id: 1,
            ticks_remaining: 3,
        });
        w.next_projectile_id = i + 1;
        w.step(&Vec::new());
        expected = if expected - 10 <= 0 { 100 } else { expected - 10 };
        assert_eq!(w.players[0].health, expected);
        assert!(w.players[0].health > 0 && w.players[0].health <= 100);
    }
    // nine hits took it to 10, the tenth respawned it at full health
    assert_eq!(w.players[0].health, 100);
}

#[test]
fn tick_counter_is_monotonic() {
    let mut w = World::new();
    for i in 1..=5u64 {
        w.step(&Vec::new());
        assert_eq!(w.tick, i);
    }
}
