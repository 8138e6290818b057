use resource_sim::base::apply_message;
use resource_sim::map::{Cell, Pos, ResourceKind, TileMap};
use resource_sim::robot::{
    collector_tick_fits, is_adjacent_or_same, is_interior, step_collector, Robot, RobotMessage,
};
use resource_sim::world::SharedWorld;

/// A map drawn row by row: '.' free, 'O' obstacle, '#' base, 'E'/'C' deposits of 3 units.
fn map_of(rows: &[&str]) -> TileMap {
    let height = rows.len() as i32;
    let width = rows[0].len() as i32;
    let mut cells = Vec::new();
    for row in rows {
        for ch in row.chars() {
            cells.push(match ch {
                'O' => Cell::Obstacle,
                '#' => Cell::Base,
                'E' => Cell::Resource(ResourceKind::Energy, 3),
                'C' => Cell::Resource(ResourceKind::Crystal, 3),
                _ => Cell::Empty,
            });
        }
    }
    TileMap { width, height, cells }
}

/// A world where every tile of the map is known.
fn fully_known(map: TileMap) -> SharedWorld {
    let mut world = SharedWorld::new(map);
    for y in 0..world.map.height {
        for x in 0..world.map.width {
            let p = Pos { x, y };
            let c = world.map.get(p).unwrap();
            world.known_cells.insert(p, c);
        }
    }
    world
}

#[test]
fn new_robots_start_empty_handed() {
    let s = Robot::new_scout(3, Pos { x: 1, y: 2 });
    assert_eq!(s.id, 3);
    assert_eq!(s.pos, Pos { x: 1, y: 2 });
    assert!(s.carrying.is_none());
    let c = Robot::new_collector(4, Pos { x: 0, y: 0 });
    assert_eq!(c.id, 4);
    assert!(!c.known_cells.contains(&Pos { x: 0, y: 0 }));
}

#[test]
fn move_in_order_takes_the_first_open_direction() {
    let world = SharedWorld::new(map_of(&["OOO", "O.O", "O.O"]));
    let mut r = Robot::new_scout(0, Pos { x: 1, y: 1 });
    let dirs = vec![(0, -1), (-1, 0), (0, 1), (1, 0)];
    assert!(r.move_in_order(&world, &dirs));
    assert_eq!(r.pos, Pos { x: 1, y: 2 });
    // from the bottom: north is open again, the rest is wall or off the map
    let dirs = vec![(0, 1), (-1, 0), (1, 0), (0, -1)];
    assert!(r.move_in_order(&world, &dirs));
    assert_eq!(r.pos, Pos { x: 1, y: 1 });
}

#[test]
fn boxed_in_scout_does_not_move() {
    let world = SharedWorld::new(map_of(&["OOO", "O.O", "OOO"]));
    let mut r = Robot::new_scout(0, Pos { x: 1, y: 1 });
    let (moved, messages) = r.step_scout(&world);
    assert!(!moved);
    assert_eq!(r.pos, Pos { x: 1, y: 1 });
    assert_eq!(messages.len(), 8);
}

#[test]
fn scout_with_one_way_out_takes_it() {
    let world = SharedWorld::new(map_of(&["OOO", "O.O", "O.O"]));
    let mut r = Robot::new_scout(0, Pos { x: 1, y: 1 });
    assert!(r.move_randomly(&world));
    assert_eq!(r.pos, Pos { x: 1, y: 2 });
}

#[test]
fn scout_picks_among_open_directions_at_random() {
    let world = SharedWorld::new(map_of(&["O.O", "O.O", "O.O"]));
    let mut north = 0;
    let mut south = 0;
    for _ in 0..200 {
        let mut r = Robot::new_scout(0, Pos { x: 1, y: 1 });
        assert!(r.move_randomly(&world));
        if r.pos == (Pos { x: 1, y: 0 }) {
            north += 1;
        } else {
            assert_eq!(r.pos, Pos { x: 1, y: 2 });
            south += 1;
        }
    }
    assert!(north > 0 && south > 0);
}

#[test]
fn scan_reports_each_tile_once() {
    let world = SharedWorld::new(map_of(&["E..", ".#.", "..C"]));
    let mut r = Robot::new_scout(0, Pos { x: 1, y: 1 });
    let first = r.scan_neighbors(&world);
    assert_eq!(first.len(), 8);
    assert_eq!(
        first[0],
        RobotMessage::Discovered { pos: Pos { x: 0, y: 0 }, cell: Cell::Resource(ResourceKind::Energy, 3) }
    );
    assert_eq!(
        first[7],
        RobotMessage::Discovered { pos: Pos { x: 2, y: 2 }, cell: Cell::Resource(ResourceKind::Crystal, 3) }
    );
    let second = r.scan_neighbors(&world);
    assert!(second.is_empty());
}

#[test]
fn scan_at_a_corner_sees_only_the_map() {
    let world = SharedWorld::new(map_of(&["...", "...", "..."]));
    let mut r = Robot::new_scout(0, Pos { x: 0, y: 0 });
    let found = r.scan_neighbors(&world);
    let positions: Vec<Pos> = found
        .iter()
        .map(|m| match m {
            RobotMessage::Discovered { pos, .. } => *pos,
            _ => panic!("unexpected report"),
        })
        .collect();
    assert_eq!(positions, vec![Pos { x: 1, y: 0 }, Pos { x: 0, y: 1 }, Pos { x: 1, y: 1 }]);
}

#[test]
fn step_scout_moves_then_scans() {
    let world = SharedWorld::new(map_of(&["OOOO", "O..O", "OOOO"]));
    let mut r = Robot::new_scout(0, Pos { x: 1, y: 1 });
    let (moved, messages) = r.step_scout(&world);
    assert!(moved);
    assert_eq!(r.pos, Pos { x: 2, y: 1 });
    assert_eq!(messages.len(), 8);
    assert!(r.known_cells.contains(&Pos { x: 1, y: 1 }));
}

#[test]
fn collecting_shrinks_the_deposit() {
    let mut world = fully_known(map_of(&["E.", ".#"]));
    let mut r = Robot::new_collector(1, Pos { x: 1, y: 0 });
    let target = Pos { x: 0, y: 0 };
    let msg = r.collect_one_unit(target, &mut world);
    assert_eq!(msg, Some(RobotMessage::Collected { kind: ResourceKind::Energy, amount: 1 }));
    assert_eq!(world.map.get(target), Some(Cell::Resource(ResourceKind::Energy, 2)));
    assert_eq!(world.known_cells.get(&target), Some(&Cell::Resource(ResourceKind::Energy, 2)));
    assert_eq!(r.carrying, Some(ResourceKind::Energy));
}

#[test]
fn collecting_the_last_unit_empties_the_tile() {
    let mut world = fully_known(map_of(&["..", ".#"]));
    let target = Pos { x: 0, y: 0 };
    world.map.set(target, Cell::Resource(ResourceKind::Crystal, 1));
    let mut r = Robot::new_collector(1, Pos { x: 1, y: 0 });
    let msg = r.collect_one_unit(target, &mut world);
    assert_eq!(msg, Some(RobotMessage::Collected { kind: ResourceKind::Crystal, amount: 1 }));
    assert_eq!(world.map.get(target), Some(Cell::Empty));
    assert_eq!(world.known_cells.get(&target), Some(&Cell::Empty));
}

#[test]
fn collecting_nothing_forgets_the_tile() {
    let mut world = fully_known(map_of(&["..", ".#"]));
    let target = Pos { x: 0, y: 0 };
    world.map.set(target, Cell::Resource(ResourceKind::Energy, 0));
    let mut r = Robot::new_collector(1, Pos { x: 1, y: 0 });
    assert_eq!(r.collect_one_unit(target, &mut world), None);
    assert_eq!(world.known_cells.get(&target), None);
    assert_eq!(world.map.get(target), Some(Cell::Resource(ResourceKind::Energy, 0)));
    assert!(r.carrying.is_none());
    let free = Pos { x: 1, y: 0 };
    assert_eq!(r.collect_one_unit(free, &mut world), None);
    assert_eq!(world.known_cells.get(&free), None);
}

#[test]
fn adjacency_is_manhattan_distance_at_most_one() {
    let a = Pos { x: 3, y: 3 };
    assert!(is_adjacent_or_same(a, a));
    assert!(is_adjacent_or_same(a, Pos { x: 4, y: 3 }));
    assert!(is_adjacent_or_same(a, Pos { x: 3, y: 2 }));
    assert!(!is_adjacent_or_same(a, Pos { x: 4, y: 4 }));
    assert!(!is_adjacent_or_same(a, Pos { x: 5, y: 3 }));
    assert!(is_interior(a));
    assert!(!is_interior(Pos { x: i32::MAX, y: 0 }));
}

#[test]
fn idle_collector_waits() {
    let mut world = fully_known(map_of(&["E..", ".#.", "..."]));
    let mut r = Robot::new_collector(2, Pos { x: 1, y: 1 });
    assert!(collector_tick_fits(&r, &world));
    let msgs = step_collector(&mut r, &mut world);
    assert!(msgs.is_empty());
    assert_eq!(r.pos, Pos { x: 1, y: 1 });
}

#[test]
fn collector_walks_collects_and_unloads() {
    let mut world = fully_known(map_of(&["E....", ".....", "..#..", ".....", "....."]));
    let base = world.map.base_pos();
    let mut r = Robot::new_collector(7, base);
    let target = Pos { x: 0, y: 0 };
    world.assign_collector(7, target);

    // two steps bring it next to the deposit, and the second also collects
    assert!(collector_tick_fits(&r, &world));
    let msgs = step_collector(&mut r, &mut world);
    assert!(msgs.is_empty());
    assert_eq!((r.pos.x - base.x).abs() + (r.pos.y - base.y).abs(), 1);
    let msgs = step_collector(&mut r, &mut world);
    assert!(msgs.is_empty());
    let msgs = step_collector(&mut r, &mut world);
    assert_eq!(msgs, vec![RobotMessage::Collected { kind: ResourceKind::Energy, amount: 1 }]);
    assert!(is_adjacent_or_same(r.pos, target));
    assert_eq!(r.carrying, Some(ResourceKind::Energy));
    assert_eq!(world.map.get(target), Some(Cell::Resource(ResourceKind::Energy, 2)));

    // back to the base in as many steps as the shortest route takes
    let mut ticks = 0;
    while r.pos != base {
        let msgs = step_collector(&mut r, &mut world);
        assert!(msgs.is_empty());
        ticks += 1;
        assert!(ticks <= 3);
    }
    assert_eq!(ticks, 3);
    let msgs = step_collector(&mut r, &mut world);
    assert_eq!(msgs, vec![RobotMessage::CollectorIdle(7)]);
    assert!(r.carrying.is_none());
    assert!(world.collector_targets.get(&7).is_none());
}

#[test]
fn collector_with_an_exhausted_target_is_freed() {
    let mut world = fully_known(map_of(&["...", ".#.", "..."]));
    let mut r = Robot::new_collector(5, Pos { x: 1, y: 1 });
    world.assign_collector(5, Pos { x: 0, y: 0 });
    let msgs = step_collector(&mut r, &mut world);
    assert_eq!(msgs, vec![RobotMessage::CollectorIdle(5)]);
    assert!(world.collector_targets.get(&5).is_none());
    assert_eq!(r.pos, Pos { x: 1, y: 1 });
}

#[test]
fn collector_without_a_route_stays() {
    let mut world = fully_known(map_of(&["E.O..", "OOO..", "..#..", ".....", "....."]));
    let mut r = Robot::new_collector(1, Pos { x: 2, y: 2 });
    world.assign_collector(1, Pos { x: 0, y: 0 });
    let msgs = step_collector(&mut r, &mut world);
    assert!(msgs.is_empty());
    assert_eq!(r.pos, Pos { x: 2, y: 2 });
    assert!(r.carrying.is_none());
}

fn units_on_map(world: &SharedWorld, kind: ResourceKind) -> u32 {
    world
        .map
        .cells
        .iter()
        .map(|c| match c {
            Cell::Resource(k, q) if *k == kind => *q,
            _ => 0,
        })
        .sum()
}

#[test]
fn collected_units_all_reach_the_totals() {
    let mut world = fully_known(map_of(&["EC", ".#"]));
    let before = units_on_map(&world, ResourceKind::Energy) + units_on_map(&world, ResourceKind::Crystal);
    let mut r = Robot::new_collector(1, Pos { x: 1, y: 1 });
    for target in [Pos { x: 0, y: 0 }, Pos { x: 1, y: 0 }, Pos { x: 0, y: 0 }, Pos { x: 0, y: 0 }, Pos { x: 0, y: 0 }] {
        if let Some(msg) = r.collect_one_unit(target, &mut world) {
            apply_message(&mut world, msg);
        }
        let after = units_on_map(&world, ResourceKind::Energy)
            + units_on_map(&world, ResourceKind::Crystal)
            + world.energy_collected
            + world.crystal_collected;
        assert_eq!(after, before);
    }
    assert_eq!(world.energy_collected, 3);
    assert_eq!(world.crystal_collected, 1);
    assert_eq!(world.map.get(Pos { x: 0, y: 0 }), Some(Cell::Empty));
}

#[test]
fn every_collector_tick_reports_what_it_takes() {
    let mut world = fully_known(map_of(&["E....", ".....", "..#..", ".....", "....."]));
    let base = world.map.base_pos();
    let mut r = Robot::new_collector(3, base);
    world.assign_collector(3, Pos { x: 0, y: 0 });
    for _ in 0..20 {
        let before = units_on_map(&world, ResourceKind::Energy);
        assert!(collector_tick_fits(&r, &world));
        let msgs = step_collector(&mut r, &mut world);
        assert!(msgs.len() <= 1);
        let reported: u32 = msgs
            .iter()
            .map(|m| match m {
                RobotMessage::Collected { amount, .. } => *amount,
                _ => 0,
            })
            .sum();
        assert_eq!(units_on_map(&world, ResourceKind::Energy) + reported, before);
        if msgs == vec![RobotMessage::CollectorIdle(3)] {
            world.assign_collector(3, Pos { x: 0, y: 0 });
        }
    }
    assert!(units_on_map(&world, ResourceKind::Energy) < 3);
}

#[test]
fn a_far_known_tile_out_of_range_is_refused_by_the_check() {
    let mut world = fully_known(map_of(&["E....", ".....", "..#..", ".....", "....."]));
    let base = world.map.base_pos();
    let r = Robot::new_collector(4, base);
    world.assign_collector(4, Pos { x: 0, y: 0 });
    assert!(collector_tick_fits(&r, &world));
    world.known_cells.insert(Pos { x: i32::MAX, y: 0 }, Cell::Empty);
    assert!(!collector_tick_fits(&r, &world));
    // next to its target the collector searches nothing, so nothing is refused
    let near = Robot::new_collector(4, Pos { x: 1, y: 0 });
    assert!(collector_tick_fits(&near, &world));
}
