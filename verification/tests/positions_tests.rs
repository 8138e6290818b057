use resource_sim::map::{Cell, Pos};
use resource_sim::positions::{key_of, pos_of_key, PosMap, PosSet};

#[test]
fn keys_pack_and_unpack() {
    for p in [
        Pos { x: 0, y: 0 },
        Pos { x: -1, y: 5 },
        Pos { x: i32::MIN, y: i32::MAX },
        Pos { x: i32::MAX, y: i32::MIN },
    ] {
        assert_eq!(pos_of_key(key_of(p)), p);
    }
    assert_eq!(key_of(Pos { x: i32::MIN, y: i32::MIN }), 0);
    assert_eq!(key_of(Pos { x: i32::MAX, y: i32::MAX }), u64::MAX);
    assert_ne!(key_of(Pos { x: 1, y: 0 }), key_of(Pos { x: 0, y: 1 }));
}

#[test]
fn pos_map_insert_get_remove() {
    let mut m: PosMap<Cell> = PosMap::new();
    let a = Pos { x: 1, y: 2 };
    let b = Pos { x: 2, y: 1 };
    assert!(!m.contains_key(&a));
    m.insert(a, Cell::Obstacle);
    m.insert(b, Cell::Empty);
    assert_eq!(m.get(&a), Some(&Cell::Obstacle));
    m.insert(a, Cell::Base);
    assert_eq!(m.get(&a), Some(&Cell::Base));
    assert_eq!(m.remove(&a), Some(Cell::Base));
    assert_eq!(m.get(&a), None);
    assert_eq!(m.remove(&a), None);
    let mut ps = m.positions();
    ps.sort_by_key(|p| (p.x, p.y));
    assert_eq!(ps, vec![b]);
}

#[test]
fn pos_set_insert_contains() {
    let mut s = PosSet::new();
    let p = Pos { x: -3, y: 4 };
    assert!(!s.contains(&p));
    assert!(s.insert(p));
    assert!(!s.insert(p));
    assert!(s.contains(&p));
    assert!(!s.contains(&Pos { x: 4, y: -3 }));
}
