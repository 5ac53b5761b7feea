use game_core::bus::{RecvOutcome, SnapshotBus, BUS_CAPACITY};
use game_core::net::run_tick;
use game_core::session::Session;
use game_core::vec2::{Vec2, SCALE};
use game_core::wire::{ClientCommand, GamePacket};
use game_core::world::World;

#[test]
fn snapshot_fifo_in_order() {
    let mut bus = SnapshotBus::new();
    let mut sub = bus.subscribe();
    for i in 0..10 {
        bus.publish(format!("snap-{i}"));
    }
    for i in 0..10 {
        match bus.recv(&mut sub) {
            RecvOutcome::Msg(s) => assert_eq!(s, format!("snap-{i}")),
            _ => panic!("expected a message"),
        }
    }
    assert!(matches!(bus.recv(&mut sub), RecvOutcome::Empty));
}

#[test]
fn subscriber_sees_only_later_snapshots() {
    let mut bus = SnapshotBus::new();
    bus.publish("early".to_string());
    let mut sub = bus.subscribe();
    assert!(matches!(bus.recv(&mut sub), RecvOutcome::Empty));
    bus.publish("late".to_string());
    match bus.recv(&mut sub) {
        RecvOutcome::Msg(s) => assert_eq!(s, "late"),
        _ => panic!("expected a message"),
    }
}

#[test]
fn lagged_subscriber_skips_to_oldest_retained() {
    let mut bus = SnapshotBus::new();
    let mut sub = bus.subscribe();
    let total = BUS_CAPACITY + 50;
    for i in 0..total {
        bus.publish(format!("snap-{i}"));
    }
    // 50 snapshots were evicted; the subscriber is told once, then resumes
    assert!(matches!(bus.recv(&mut sub), RecvOutcome::Lagged));
    match bus.recv(&mut sub) {
        RecvOutcome::Msg(s) => assert_eq!(s, "snap-50"),
        _ => panic!("expected a message"),
    }
    // and the rest arrive gaplessly, in publication order
    let mut expected = 51;
    loop {
        match bus.recv(&mut sub) {
            RecvOutcome::Msg(s) => {
                assert_eq!(s, format!("snap-{expected}"));
                expected += 1;
            }
            RecvOutcome::Empty => break,
            RecvOutcome::Lagged => panic!("no further lag expected"),
        }
    }
    assert_eq!(expected, total);
}

#[test]
fn publish_into_full_bus_completes() {
    let mut bus = SnapshotBus::new();
    for i in 0..(10 * BUS_CAPACITY) {
        bus.publish(format!("snap-{i}"));
    }
}

#[test]
fn session_emits_one_join_and_one_leave() {
    let (mut s, join) = Session::open(42);
    assert!(matches!(join, GamePacket::PlayerJoin { id: 42 }));
    let leave = s.close();
    assert!(matches!(leave, Some(GamePacket::PlayerLeave { id: 42 })));
    // the other teardown path finds the session already closed
    assert!(s.close().is_none());
    assert!(s.close().is_none());
}

#[test]
fn run_tick_drains_the_command_bus() {
    let (tx, rx) = crossbeam_channel::unbounded::<GamePacket>();
    let mut w = World::new();
    tx.send(GamePacket::PlayerJoin { id: 1 }).unwrap();
    tx.send(GamePacket::ClientCommand {
        id: 1,
        cmd: ClientCommand::Move { dir: Vec2 { x: SCALE, y: 0 } },
    })
    .unwrap();
    let snap = run_tick(&mut w, &rx);
    assert!(snap.is_some());
    assert_eq!(w.players.len(), 1);
    assert_eq!(w.players[0].position, Vec2 { x: 405 * SCALE, y: 300 * SCALE });
    // nothing left queued: the next tick applies nothing
    run_tick(&mut w, &rx);
    assert_eq!(w.players[0].position, Vec2 { x: 405 * SCALE, y: 300 * SCALE });
    assert_eq!(w.tick, 2);
}

#[test]
fn run_tick_on_empty_bus_reports_nothing() {
    let (_tx, rx) = crossbeam_channel::unbounded::<GamePacket>();
    let mut w = World::new();
    assert!(run_tick(&mut w, &rx).is_none());
}
