use noise::{NoiseFn, Perlin};
use resource_sim::map::{Cell, Pos, ResourceKind, TileMap, RESOURCES_PER_KIND};

/// Perlin terrain as the simulation lays it: an obstacle wherever the noise
/// sampled at 0.12 per tile exceeds 0.25.
fn perlin_obstacles(width: i32, height: i32, seed: u32) -> Vec<bool> {
    let perlin = Perlin::new(seed);
    let mut mask = Vec::new();
    for y in 0..height {
        for x in 0..width {
            let n = perlin.get([x as f64 * 0.12, y as f64 * 0.12]);
            mask.push(n > 0.25);
        }
    }
    mask
}

fn count(map: &TileMap) -> (usize, usize, usize, usize) {
    let (mut obstacles, mut energy, mut crystal, mut empty) = (0, 0, 0, 0);
    for y in 0..map.height {
        for x in 0..map.width {
            match map.get(Pos { x, y }).unwrap() {
                Cell::Obstacle => obstacles += 1,
                Cell::Resource(ResourceKind::Energy, _) => energy += 1,
                Cell::Resource(ResourceKind::Crystal, _) => crystal += 1,
                Cell::Empty => empty += 1,
                Cell::Base => {}
            }
        }
    }
    (obstacles, energy, crystal, empty)
}

#[test]
fn generate_places_base_obstacles_and_resources() {
    let map = TileMap::generate(60, 30, 42, &perlin_obstacles(60, 30, 42));
    assert_eq!(map.get(TileMap::base_pos_for(map.width, map.height)), Some(Cell::Base));

    let mut obstacles = 0usize;
    let mut energy = 0usize;
    let mut crystal = 0usize;
    for y in 0..map.height {
        for x in 0..map.width {
            match map.get(Pos { x, y }).unwrap() {
                Cell::Obstacle => obstacles += 1,
                Cell::Resource(ResourceKind::Energy, qty) => {
                    assert!((50..=200).contains(&qty));
                    energy += 1;
                }
                Cell::Resource(ResourceKind::Crystal, qty) => {
                    assert!((50..=200).contains(&qty));
                    crystal += 1;
                }
                _ => {}
            }
        }
    }
    assert!(obstacles > 0, "expected some obstacles from perlin noise");
    assert_eq!(energy, RESOURCES_PER_KIND);
    assert_eq!(crystal, RESOURCES_PER_KIND);
}

#[test]
fn generate_clears_the_ring_around_the_base() {
    let mask = vec![true; 25];
    let map = TileMap::generate(5, 5, 7, &mask);
    let base = map.base_pos();
    assert_eq!(base, Pos { x: 2, y: 2 });
    assert_eq!(map.get(base), Some(Cell::Base));
    for dy in -1..=1 {
        for dx in -1..=1 {
            let p = Pos { x: base.x + dx, y: base.y + dy };
            assert_ne!(map.get(p), Some(Cell::Obstacle));
        }
    }
    // the outer ring keeps its obstacles
    assert_eq!(map.get(Pos { x: 0, y: 0 }), Some(Cell::Obstacle));
    assert_eq!(map.get(Pos { x: 4, y: 2 }), Some(Cell::Obstacle));
    let (obstacles, _, _, _) = count(&map);
    assert_eq!(obstacles, 16);
}

#[test]
fn generate_places_fewer_deposits_when_space_runs_out() {
    // 3x3, all obstacles: only the 8 tiles around the base are free
    let map = TileMap::generate(3, 3, 1, &vec![true; 9]);
    let (obstacles, energy, crystal, empty) = count(&map);
    assert_eq!(obstacles, 0);
    assert_eq!(energy, 8);
    assert_eq!(crystal, 0);
    assert_eq!(empty, 0);

    // 4x5 with no obstacles: 19 free tiles, 10 energy then 9 crystal
    let map = TileMap::generate(4, 5, 9, &vec![false; 20]);
    let (_, energy, crystal, empty) = count(&map);
    assert_eq!(energy, 10);
    assert_eq!(crystal, 9);
    assert_eq!(empty, 0);
}

#[test]
fn generate_is_deterministic_for_a_seed() {
    let mask = perlin_obstacles(30, 20, 5);
    let a = TileMap::generate(30, 20, 5, &mask);
    let b = TileMap::generate(30, 20, 5, &mask);
    assert_eq!(a.cells, b.cells);
}

#[test]
fn get_is_none_off_the_map() {
    let map = TileMap::generate(4, 3, 0, &vec![false; 12]);
    assert_eq!(map.get(Pos { x: -1, y: 0 }), None);
    assert_eq!(map.get(Pos { x: 0, y: -1 }), None);
    assert_eq!(map.get(Pos { x: 4, y: 0 }), None);
    assert_eq!(map.get(Pos { x: 0, y: 3 }), None);
    assert!(map.get(Pos { x: 3, y: 2 }).is_some());
}

#[test]
fn set_then_get_reads_back() {
    let mut map = TileMap { width: 3, height: 2, cells: vec![Cell::Empty; 6] };
    map.set(Pos { x: 2, y: 1 }, Cell::Resource(ResourceKind::Crystal, 4));
    assert_eq!(map.get(Pos { x: 2, y: 1 }), Some(Cell::Resource(ResourceKind::Crystal, 4)));
    assert_eq!(map.cells[5], Cell::Resource(ResourceKind::Crystal, 4));
    assert_eq!(map.get(Pos { x: 1, y: 1 }), Some(Cell::Empty));
    let before = map.cells.clone();
    map.set(Pos { x: 3, y: 0 }, Cell::Obstacle);
    map.set(Pos { x: -1, y: 1 }, Cell::Obstacle);
    assert_eq!(map.cells, before);
}

#[test]
fn base_is_the_centre() {
    assert_eq!(TileMap::base_pos_for(60, 30), Pos { x: 30, y: 15 });
    assert_eq!(TileMap::base_pos_for(7, 5), Pos { x: 3, y: 2 });
    assert_eq!(TileMap::base_pos_for(-7, -5), Pos { x: -3, y: -2 });
}

#[test]
fn well_formedness_is_checked() {
    let map = TileMap { width: 3, height: 2, cells: vec![Cell::Empty; 6] };
    assert!(map.is_well_formed());
    let bad = TileMap { width: 3, height: 2, cells: vec![Cell::Empty; 5] };
    assert!(!bad.is_well_formed());
    let empty = TileMap { width: 0, height: 2, cells: vec![] };
    assert!(!empty.is_well_formed());
}

#[test]
fn deposit_quantities_are_drawn_from_the_range() {
    let map = TileMap::generate(60, 30, 42, &perlin_obstacles(60, 30, 42));
    let mut quantities = Vec::new();
    for c in &map.cells {
        if let Cell::Resource(_, q) = c {
            assert!((50..=200).contains(q));
            quantities.push(*q);
        }
    }
    assert_eq!(quantities.len(), 20);
    assert!(quantities.iter().any(|q| *q != quantities[0]));
}
