use resource_sim::map::{Cell, Pos, ResourceKind, TileMap};
use resource_sim::robot::RobotKind;
use resource_sim::view::{cell_glyph, compose_view, robot_glyph, status_counts, world_view, Glyph, Tint};
use resource_sim::world::SharedWorld;

#[test]
fn tile_and_robot_glyphs() {
    assert_eq!(cell_glyph(Cell::Empty), Glyph { symbol: ' ', tint: Tint::Reset });
    assert_eq!(cell_glyph(Cell::Obstacle), Glyph { symbol: 'O', tint: Tint::LightCyan });
    assert_eq!(cell_glyph(Cell::Resource(ResourceKind::Energy, 9)), Glyph { symbol: 'E', tint: Tint::Green });
    assert_eq!(
        cell_glyph(Cell::Resource(ResourceKind::Crystal, 1)),
        Glyph { symbol: 'C', tint: Tint::LightMagenta }
    );
    assert_eq!(cell_glyph(Cell::Base), Glyph { symbol: '#', tint: Tint::LightGreen });
    assert_eq!(robot_glyph(RobotKind::Scout), Glyph { symbol: 'x', tint: Tint::Red });
    assert_eq!(robot_glyph(RobotKind::Collector), Glyph { symbol: 'o', tint: Tint::Magenta });
}

#[test]
fn robots_are_drawn_over_tiles() {
    let map = TileMap {
        width: 3,
        height: 2,
        cells: vec![
            Cell::Obstacle,
            Cell::Base,
            Cell::Empty,
            Cell::Resource(ResourceKind::Energy, 5),
            Cell::Empty,
            Cell::Empty,
        ],
    };
    let mut world = SharedWorld::new(map);
    world.robot_kinds.insert(1, RobotKind::Scout);
    world.robot_kinds.insert(2, RobotKind::Collector);
    let placed = vec![
        (1, Pos { x: 1, y: 0 }),
        (2, Pos { x: 1, y: 0 }),
        (2, Pos { x: 0, y: 1 }),
        (9, Pos { x: 2, y: 1 }),
        (1, Pos { x: 5, y: 5 }),
    ];
    let view = compose_view(&world, &placed);
    let symbols: String = view.iter().map(|g| g.symbol).collect();
    // the later robot on a tile wins; an unknown robot is not drawn; off-map robots neither
    assert_eq!(symbols, "Oo o  ");
    assert_eq!(view[1].tint, Tint::Magenta);
}

fn small_world() -> SharedWorld {
    let map = TileMap {
        width: 3,
        height: 2,
        cells: vec![
            Cell::Obstacle,
            Cell::Base,
            Cell::Empty,
            Cell::Resource(ResourceKind::Energy, 5),
            Cell::Empty,
            Cell::Resource(ResourceKind::Crystal, 7),
        ],
    };
    SharedWorld::new(map)
}

#[test]
fn the_view_draws_the_positioned_robots() {
    let mut world = small_world();
    assert_eq!(world_view(&world).iter().map(|g| g.symbol).collect::<String>(), "O# E C");
    world.robot_positions.insert(1, Pos { x: 1, y: 0 });
    world.robot_kinds.insert(1, RobotKind::Scout);
    world.robot_positions.insert(2, Pos { x: 0, y: 1 });
    world.robot_kinds.insert(2, RobotKind::Collector);
    // a robot of unknown kind is not drawn, nor is one off the map
    world.robot_positions.insert(3, Pos { x: 2, y: 1 });
    world.robot_positions.insert(4, Pos { x: 7, y: 0 });
    world.robot_kinds.insert(4, RobotKind::Scout);
    let view = world_view(&world);
    assert_eq!(view.len(), 6);
    assert_eq!(view.iter().map(|g| g.symbol).collect::<String>(), "Ox o C");
    assert_eq!(view[1], Glyph { symbol: 'x', tint: Tint::Red });
    assert_eq!(view[3], Glyph { symbol: 'o', tint: Tint::Magenta });
}

#[test]
fn the_status_counts_robots_and_remaining_units() {
    let mut world = small_world();
    assert_eq!(status_counts(&world), (0, 12));
    world.robot_positions.insert(1, Pos { x: 1, y: 0 });
    world.robot_positions.insert(2, Pos { x: 9, y: 9 });
    world.map.set(Pos { x: 0, y: 1 }, Cell::Resource(ResourceKind::Energy, 4));
    assert_eq!(status_counts(&world), (2, 11));
}
