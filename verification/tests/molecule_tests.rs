use evo2::hex_grid::{Axial, Dir};
use evo2::molecule::neighbor_table;

#[test]
fn bond_table_of_a_triangle() {
    let coords = vec![Axial::new(0, 0), Axial::new(1, 0), Axial::new(0, 1)];
    let t = neighbor_table(&coords);
    assert_eq!(t, vec![[-1, 2, 1, -1, -1, -1], [2, -1, -1, -1, -1, 0], [-1, -1, -1, 1, 0, -1]]);
}

#[test]
fn bonds_are_symmetric() {
    let mut coords = vec![Axial::new(0, 0)];
    let mut c = Axial::new(0, 0);
    for k in 0..12usize {
        c = c.step(Dir::from_index(k * 5 % 6));
        if !coords.contains(&c) {
            coords.push(c);
        }
    }
    let t = neighbor_table(&coords);
    for i in 0..coords.len() {
        for d in 0..6 {
            let j = t[i][d];
            if j >= 0 {
                assert_eq!(t[j as usize][(d + 3) % 6], i as i32);
                assert_eq!(coords[i].step(Dir::from_index(d)), coords[j as usize]);
            }
        }
    }
}

#[test]
fn lone_atom_has_no_bonds() {
    let t = neighbor_table(&vec![Axial::new(7, -3)]);
    assert_eq!(t, vec![[-1; 6]]);
}
