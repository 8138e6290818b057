use resource_sim::map::{Cell, Pos, TileMap};
use resource_sim::pathfind::{cardinal_neighbors, is_known_walkable, next_step_toward, search_fits};
use resource_sim::world::SharedWorld;

fn world_of(rows: &[&str]) -> SharedWorld {
    let height = rows.len() as i32;
    let width = rows[0].len() as i32;
    let mut cells = Vec::new();
    for row in rows {
        for ch in row.chars() {
            cells.push(match ch {
                'O' => Cell::Obstacle,
                '#' => Cell::Base,
                _ => Cell::Empty,
            });
        }
    }
    let mut world = SharedWorld::new(TileMap { width, height, cells });
    for (y, row) in rows.iter().enumerate() {
        for (x, ch) in row.chars().enumerate() {
            let p = Pos { x: x as i32, y: y as i32 };
            // '?' tiles are left unknown
            if ch != '?' {
                let c = world.map.get(p).unwrap();
                world.known_cells.insert(p, c);
            }
        }
    }
    world
}

#[test]
fn neighbors_are_north_south_west_east() {
    let p = Pos { x: 5, y: 5 };
    assert_eq!(
        cardinal_neighbors(p),
        vec![Pos { x: 5, y: 4 }, Pos { x: 5, y: 6 }, Pos { x: 4, y: 5 }, Pos { x: 6, y: 5 }]
    );
}

#[test]
fn already_there_stays() {
    let world = world_of(&["..."]);
    let p = Pos { x: 1, y: 0 };
    assert_eq!(next_step_toward(p, p, &world), Some(p));
}

#[test]
fn straight_corridor() {
    let world = world_of(&["....."]);
    assert_eq!(next_step_toward(Pos { x: 0, y: 0 }, Pos { x: 4, y: 0 }, &world), Some(Pos { x: 1, y: 0 }));
    assert_eq!(next_step_toward(Pos { x: 4, y: 0 }, Pos { x: 0, y: 0 }, &world), Some(Pos { x: 3, y: 0 }));
}

#[test]
fn detour_takes_the_shorter_side() {
    // the wall is open at the top, two rows above, and at the bottom, one row below
    let world = world_of(&[
        ".....", //
        ".OOO.", //
        ".O.O.", //
        ".....", //
    ]);
    // from (0,2) to (4,2): around the top is 8 steps, along the bottom 6
    let step = next_step_toward(Pos { x: 0, y: 2 }, Pos { x: 4, y: 2 }, &world);
    assert_eq!(step, Some(Pos { x: 0, y: 3 }));
}

#[test]
fn unknown_tiles_are_not_routed_through() {
    let world = world_of(&["..?.."]);
    assert_eq!(next_step_toward(Pos { x: 0, y: 0 }, Pos { x: 4, y: 0 }, &world), None);
    let walled = world_of(&["..O.."]);
    assert_eq!(next_step_toward(Pos { x: 0, y: 0 }, Pos { x: 4, y: 0 }, &walled), None);
}

#[test]
fn an_unknown_base_is_still_a_goal() {
    let world = world_of(&["..?"]);
    let mut world = world;
    world.map.set(Pos { x: 2, y: 0 }, Cell::Base);
    assert!(is_known_walkable(Pos { x: 2, y: 0 }, Pos { x: 2, y: 0 }, &world));
    assert!(!is_known_walkable(Pos { x: 2, y: 0 }, Pos { x: 0, y: 0 }, &world));
    assert_eq!(next_step_toward(Pos { x: 0, y: 0 }, Pos { x: 2, y: 0 }, &world), Some(Pos { x: 1, y: 0 }));
}

#[test]
fn a_start_off_the_known_tiles_still_searches() {
    let world = world_of(&["?.."]);
    assert_eq!(next_step_toward(Pos { x: 0, y: 0 }, Pos { x: 2, y: 0 }, &world), Some(Pos { x: 1, y: 0 }));
}

#[test]
fn search_range_is_checked() {
    let world = world_of(&["..."]);
    assert!(search_fits(&world, Pos { x: 0, y: 0 }, Pos { x: 2, y: 0 }));
    assert!(!search_fits(&world, Pos { x: i32::MIN, y: 0 }, Pos { x: 2, y: 0 }));
    let mut far = world_of(&["..."]);
    far.known_cells.insert(Pos { x: i32::MAX, y: 0 }, Cell::Empty);
    assert!(!search_fits(&far, Pos { x: 0, y: 0 }, Pos { x: 2, y: 0 }));
    far.known_cells.insert(Pos { x: i32::MAX, y: 0 }, Cell::Obstacle);
    assert!(search_fits(&far, Pos { x: 0, y: 0 }, Pos { x: 2, y: 0 }));
}

#[test]
fn ties_go_north_then_south_then_west_then_east() {
    let world = world_of(&["...", "...", "..."]);
    // to the south-east corner of the middle: south (rank 1) beats east (rank 3)
    assert_eq!(next_step_toward(Pos { x: 0, y: 0 }, Pos { x: 1, y: 1 }, &world), Some(Pos { x: 0, y: 1 }));
    // to the north-west: north (rank 0) beats west (rank 2)
    assert_eq!(next_step_toward(Pos { x: 1, y: 1 }, Pos { x: 0, y: 0 }, &world), Some(Pos { x: 1, y: 0 }));
    // to the north-east: north beats east
    assert_eq!(next_step_toward(Pos { x: 0, y: 2 }, Pos { x: 2, y: 0 }, &world), Some(Pos { x: 0, y: 1 }));
    // to the south-west: south beats west
    assert_eq!(next_step_toward(Pos { x: 2, y: 0 }, Pos { x: 0, y: 2 }, &world), Some(Pos { x: 2, y: 1 }));
}

#[test]
fn the_earlier_move_wins_only_among_shortest_routes() {
    // north is open but leads the long way round; east is on the shortest route
    let world = world_of(&[
        "...", //
        "..O", //
        ".O.", //
        "...", //
    ]);
    let step = next_step_toward(Pos { x: 0, y: 2 }, Pos { x: 2, y: 2 }, &world);
    assert_eq!(step, Some(Pos { x: 0, y: 3 }));
}
