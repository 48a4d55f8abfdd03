use evo2::hex_grid::{Axial, Dir, HexGrid, Neighbors};

#[test]
fn dir_index_roundtrip() {
    for i in 0..6usize {
        assert_eq!(Dir::from_index(i).index(), i);
        assert_eq!(Dir::from_index(i), Dir::ALL[i]);
    }
    assert_eq!(Dir::from_index(7), Dir::NorthEast);
    assert_eq!(Dir::from_index(12), Dir::NorthWest);
}

#[test]
fn dir_offsets_match_the_compass() {
    assert_eq!(Dir::NorthWest.offset(), (-1, 1));
    assert_eq!(Dir::NorthEast.offset(), (0, 1));
    assert_eq!(Dir::East.offset(), (1, 0));
    assert_eq!(Dir::SouthEast.offset(), (1, -1));
    assert_eq!(Dir::SouthWest.offset(), (0, -1));
    assert_eq!(Dir::West.offset(), (-1, 0));
}

#[test]
fn opposite_is_an_involution_that_reverses_the_offset() {
    for d in Dir::ALL {
        let o = d.opposite();
        assert_ne!(o, d);
        assert_eq!(o.opposite(), d);
        assert_eq!(o.offset(), (-d.offset().0, -d.offset().1));
        assert_eq!(o.index(), (d.index() + 3) % 6);
    }
    assert_eq!(Dir::East.opposite(), Dir::West);
    assert_eq!(Dir::NorthWest.opposite(), Dir::SouthEast);
}

#[test]
fn step_then_step_back_returns() {
    let c = Axial::new(3, -7);
    for d in Dir::ALL {
        let n = c.step(d);
        assert_ne!(n, c);
        assert_eq!(n.step(d.opposite()), c);
    }
    assert_eq!(c.step(Dir::NorthWest), Axial::new(2, -6));
}

#[test]
fn axial_neighbors_are_indexed_by_direction() {
    let c = Axial::new(0, 0);
    let n = c.neighbors();
    for d in Dir::ALL {
        assert_eq!(n[d.index()], c.step(d));
    }
    assert_eq!(n[2], Axial::new(1, 0));
    assert_eq!(Axial::origin(), Axial { q: 0, r: 0 });
}

#[test]
fn neighbors_get_and_get_mut() {
    let mut n = Neighbors { sites: [0i32, 1, 2, 3, 4, 5] };
    assert_eq!(*n.get(Dir::SouthEast), 3);
    *n.get_mut(Dir::West) = 50;
    assert_eq!(n.sites, [0, 1, 2, 3, 4, 50]);
}

#[test]
fn grid_read_after_write() {
    let mut g: HexGrid<u32> = HexGrid::new();
    assert!(g.is_empty());
    assert_eq!(g.len(), 0);
    let a = Axial::new(1, 2);
    let b = Axial::new(-4, 9);
    assert_eq!(g.insert(a, 10), None);
    assert_eq!(g.insert(b, 20), None);
    assert_eq!(g.insert(a, 11), Some(10));
    assert_eq!(g.get(a), Some(&11));
    assert_eq!(g.get(b), Some(&20));
    assert_eq!(g.get(Axial::new(0, 0)), None);
    assert!(g.contains(b));
    assert_eq!(g.len(), 2);
    assert!(!g.is_empty());
    assert_eq!(g.remove(b), Some(20));
    assert_eq!(g.remove(b), None);
    assert!(!g.contains(b));
    assert_eq!(g.len(), 1);
}

#[test]
fn grid_keys_at_the_i32_extremes_are_distinct() {
    let mut g: HexGrid<u8> = HexGrid::default();
    let cells = [
        Axial::new(i32::MIN, i32::MIN),
        Axial::new(i32::MAX, i32::MAX),
        Axial::new(i32::MIN, i32::MAX),
        Axial::new(i32::MAX, i32::MIN),
        Axial::new(0, -1),
        Axial::new(-1, 0),
    ];
    for (i, c) in cells.iter().enumerate() {
        g.insert(*c, i as u8);
    }
    assert_eq!(g.len(), 6);
    for (i, c) in cells.iter().enumerate() {
        assert_eq!(g.get(*c), Some(&(i as u8)));
    }
}

#[test]
fn grid_get_mut_writes_through() {
    let mut g: HexGrid<u32> = HexGrid::new();
    g.insert(Axial::new(5, 5), 1);
    if let Some(v) = g.get_mut(Axial::new(5, 5)) {
        *v += 41;
    }
    assert_eq!(g.get(Axial::new(5, 5)), Some(&42));
    assert!(g.get_mut(Axial::new(6, 6)).is_none());
    assert_eq!(g.len(), 1);
}

#[test]
fn grid_iter_lists_every_cell_once() {
    let mut g: HexGrid<i32> = HexGrid::new();
    for q in -2..3 {
        g.insert(Axial::new(q, -q), q * 10);
    }
    let mut items: Vec<(Axial, i32)> = g.iter().into_iter().map(|(c, v)| (c, *v)).collect();
    items.sort_by_key(|(c, _)| c.q);
    assert_eq!(items.len(), 5);
    for (k, (c, v)) in items.iter().enumerate() {
        let q = k as i32 - 2;
        assert_eq!(*c, Axial::new(q, -q));
        assert_eq!(*v, q * 10);
    }
}

#[test]
fn grid_neighbors_reports_occupied_sites() {
    let mut g: HexGrid<char> = HexGrid::new();
    let c = Axial::new(0, 0);
    g.insert(c.step(Dir::East), 'e');
    g.insert(c.step(Dir::SouthWest), 's');
    g.insert(Axial::new(9, 9), 'x');
    let n = g.neighbors(c);
    assert_eq!(n.sites, [None, None, Some(&'e'), None, Some(&'s'), None]);
    assert_eq!(*n.get(Dir::East), Some(&'e'));
}
