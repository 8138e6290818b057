use resource_sim::base::apply_message;
use resource_sim::config::{RobotsConfig, SimulationConfig};
use resource_sim::map::{Cell, Pos, ResourceKind, TileMap};
use resource_sim::robot::RobotMessage;
use resource_sim::world::SharedWorld;

fn small_world() -> SharedWorld {
    SharedWorld::new(TileMap { width: 2, height: 2, cells: vec![Cell::Empty; 4] })
}

#[test]
fn a_new_world_knows_nothing() {
    let w = small_world();
    assert_eq!(w.energy_collected, 0);
    assert_eq!(w.crystal_collected, 0);
    assert!(w.robot_positions.is_empty());
    assert!(w.robot_kinds.is_empty());
    assert!(w.collector_targets.is_empty());
    assert!(!w.known_cells.contains_key(&Pos { x: 0, y: 0 }));
}

#[test]
fn assign_and_free_collectors() {
    let mut w = small_world();
    w.assign_collector(3, Pos { x: 1, y: 1 });
    assert_eq!(w.collector_targets.get(&3), Some(&Pos { x: 1, y: 1 }));
    w.assign_collector(3, Pos { x: 0, y: 1 });
    assert_eq!(w.collector_targets.get(&3), Some(&Pos { x: 0, y: 1 }));
    w.free_collector(3);
    assert!(w.collector_targets.get(&3).is_none());
    w.free_collector(3);
    assert!(w.collector_targets.is_empty());
}

#[test]
fn record_collection_adds_to_its_kind() {
    let mut w = small_world();
    w.record_collection(ResourceKind::Energy, 4);
    w.record_collection(ResourceKind::Crystal, 2);
    w.record_collection(ResourceKind::Energy, 1);
    assert_eq!(w.energy_collected, 5);
    assert_eq!(w.crystal_collected, 2);
}

#[test]
fn the_base_takes_in_reports() {
    let mut w = small_world();
    let p = Pos { x: 1, y: 0 };
    apply_message(&mut w, RobotMessage::Discovered { pos: p, cell: Cell::Resource(ResourceKind::Crystal, 9) });
    assert_eq!(w.known_cells.get(&p), Some(&Cell::Resource(ResourceKind::Crystal, 9)));
    apply_message(&mut w, RobotMessage::Collected { kind: ResourceKind::Crystal, amount: 1 });
    apply_message(&mut w, RobotMessage::Collected { kind: ResourceKind::Crystal, amount: 1 });
    apply_message(&mut w, RobotMessage::Collected { kind: ResourceKind::Energy, amount: 3 });
    assert_eq!(w.crystal_collected, 2);
    assert_eq!(w.energy_collected, 3);
    w.assign_collector(1, p);
    apply_message(&mut w, RobotMessage::CollectorIdle(1));
    assert_eq!(w.collector_targets.get(&1), Some(&p));
    assert_eq!(w.crystal_collected, 2);
}

#[test]
fn config_defaults() {
    let sim = SimulationConfig::default();
    assert_eq!(sim.num_scouts, 10);
    assert_eq!(sim.num_collectors, 5);
    assert_eq!(sim.ui_poll_ms, 50);
    let robots = RobotsConfig::default();
    assert_eq!(robots.scout_tick_ms, 200);
    assert_eq!(robots.collector_tick_ms, 200);
}
