//! The bond topology of a molecule.
//!
//! A molecule's atoms sit on hex cells; two atoms on neighbouring cells are
//! bonded, and energy leaving atom `i` through direction `d` arrives on the
//! opposite site of the atom bonded there. The bond table computed here is
//! what the signal layer walks every tick.

use crate::hex_grid::{cell_key, key_cell, key_of, lemma_cell_key_inverse, lemma_key_cell_inverse, Axial, Dir};
use std::collections::HashMap;
use vstd::prelude::*;

verus! {

/// The atom on cell `c`: the last one placed there, if any.
pub open spec fn atom_at(coords: Seq<Axial>, c: Axial) -> Option<int>
    decreases coords.len(),
{
    if coords.len() == 0 {
        None
    } else if coords.last() == c {
        Some(coords.len() - 1)
    } else {
        atom_at(coords.drop_last(), c)
    }
}

/// What `atom_at` says of a cell: the index is in range, holds the cell, and no
/// later atom holds it; `None` exactly when no atom holds the cell.
pub proof fn lemma_atom_at(coords: Seq<Axial>, c: Axial)
    ensures
        match atom_at(coords, c) {
            Some(i) => {
                &&& 0 <= i < coords.len()
                &&& coords[i] == c
                &&& forall|j: int| i < j < coords.len() ==> coords[j] != c
            },
            None => forall|j: int| 0 <= j < coords.len() ==> coords[j] != c,
        },
    decreases coords.len(),
{
    if coords.len() > 0 {
        let rest = coords.drop_last();
        lemma_atom_at(rest, c);
        assert(forall|j: int| 0 <= j < rest.len() ==> rest[j] == coords[j]);
    }
}

/// Entry `[i][k]` of the bond table: the index of the atom on direction `k`
/// of atom `i`, or `-1` when that cell is empty.
pub open spec fn bond_entry(coords: Seq<Axial>, i: int, k: int) -> int {
    match atom_at(coords, coords[i].stepped(Dir::nth(k))) {
        Some(j) => j,
        None => -1,
    }
}

/// Bonds are symmetric: when the atoms sit on distinct cells, if atom `j` is
/// on direction `k` of atom `i`, then atom `i` is on the opposite direction
/// `(k + 3) % 6` of atom `j`. This is what lets energy emitted by one atom
/// arrive on the facing site of its neighbour.
pub proof fn lemma_bond_symmetry(coords: Seq<Axial>, i: int, k: int)
    requires
        forall|a: int| 0 <= a < coords.len() ==> (#[trigger] coords[a]).interior(),
        forall|a: int, b: int|
            0 <= a < coords.len() && 0 <= b < coords.len() && a != b ==> #[trigger] coords[a]
                != #[trigger] coords[b],
        0 <= i < coords.len(),
        0 <= k < 6,
        bond_entry(coords, i, k) >= 0,
    ensures
        0 <= bond_entry(coords, i, k) < coords.len(),
        bond_entry(coords, bond_entry(coords, i, k), (k + 3) % 6) == i,
{
    let d = Dir::nth(k);
    let c = coords[i].stepped(d);
    lemma_atom_at(coords, c);
    let j = bond_entry(coords, i, k);
    assert(coords[j] == c);
    let back = coords[j].stepped(Dir::nth((k + 3) % 6));
    assert(Dir::nth((k + 3) % 6) == d.opp());
    assert(back == coords[i]);
    lemma_atom_at(coords, back);
    match atom_at(coords, back) {
        Some(m) => {
            if m != i {
                assert(coords[m] == coords[i]);
            }
        },
        None => {
            assert(coords[i] == back);
        },
    }
}

fn bond_on(index: &HashMap<u64, usize>, c: Axial, d: Dir, Ghost(coords): Ghost<Seq<Axial>>) -> (b: i32)
    requires
        c.interior(),
        forall|k: u64|
            #![trigger index@.contains_key(k)]
            index@.contains_key(k) <==> atom_at(coords, key_cell(k)) is Some,
        forall|k: u64|
            #![trigger index@[k]]
            index@.contains_key(k) ==> index@[k] == atom_at(coords, key_cell(k))->0,
    ensures
        b == (match atom_at(coords, c.stepped(d)) {
            Some(j) => j,
            None => -1,
        }) as i32,
{
    broadcast use vstd::std_specs::hash::group_hash_axioms;

    let cell = c.step(d);
    proof {
        lemma_key_cell_inverse(cell);
        lemma_atom_at(coords, cell);
    }
    match index.get(&key_of(cell)) {
        Some(j) => *j as i32,
        None => -1,
    }
}

/// The bond table of atoms placed at `coords`: for each atom and each
/// direction, the index of the atom bonded there (as an `i32`), or `-1`.
pub fn neighbor_table(coords: &Vec<Axial>) -> (t: Vec<[i32; 6]>)
    requires
        forall|i: int| 0 <= i < coords@.len() ==> (#[trigger] coords@[i]).interior(),
    ensures
        t@.len() == coords@.len(),
        forall|i: int, k: int|
            0 <= i < t@.len() && 0 <= k < 6 ==> #[trigger] t@[i]@[k] == bond_entry(coords@, i, k) as i32,
{
    broadcast use vstd::std_specs::hash::group_hash_axioms;

    let n = coords.len();
    let mut index: HashMap<u64, usize> = HashMap::new();
    let mut i: usize = 0;
    while i < n
        invariant
            n == coords@.len(),
            i <= n,
            forall|k: u64|
                #![trigger index@.contains_key(k)]
                index@.contains_key(k) <==> atom_at(coords@.take(i as int), key_cell(k)) is Some,
            forall|k: u64|
                #![trigger index@[k]]
                index@.contains_key(k) ==> index@[k] == atom_at(coords@.take(i as int), key_cell(k))->0,
        decreases n - i,
    {
        let c = coords[i];
        index.insert(key_of(c), i);
        proof {
            let prev = coords@.take(i as int);
            let next = coords@.take(i + 1);
            assert(next.drop_last() =~= prev);
            assert forall|k: u64| #[trigger] index@.contains_key(k) <==> atom_at(next, key_cell(k)) is Some by {
                lemma_cell_key_inverse(k);
                lemma_key_cell_inverse(c);
            }
            assert forall|k: u64| #[trigger] index@.contains_key(k) implies index@[k] == atom_at(next, key_cell(k))->0 by {
                lemma_cell_key_inverse(k);
                lemma_key_cell_inverse(c);
            }
        }
        i = i + 1;
    }
    assert(coords@.take(n as int) =~= coords@);
    let ghost cs = coords@;
    let mut table: Vec<[i32; 6]> = Vec::new();
    let mut a: usize = 0;
    while a < n
        invariant
            n == cs.len(),
            cs == coords@,
            forall|i: int| 0 <= i < cs.len() ==> (#[trigger] cs[i]).interior(),
            a <= n,
            forall|k: u64|
                #![trigger index@.contains_key(k)]
                index@.contains_key(k) <==> atom_at(cs, key_cell(k)) is Some,
            forall|k: u64|
                #![trigger index@[k]]
                index@.contains_key(k) ==> index@[k] == atom_at(cs, key_cell(k))->0,
            table@.len() == a,
            forall|i: int, k: int|
                0 <= i < a && 0 <= k < 6 ==> #[trigger] table@[i]@[k] == bond_entry(cs, i, k) as i32,
        decreases n - a,
    {
        let c = coords[a];
        proof {
            assert(cs[a as int].interior());
        }
        let row: [i32; 6] = [
            bond_on(&index, c, Dir::NorthWest, Ghost(cs)),
            bond_on(&index, c, Dir::NorthEast, Ghost(cs)),
            bond_on(&index, c, Dir::East, Ghost(cs)),
            bond_on(&index, c, Dir::SouthEast, Ghost(cs)),
            bond_on(&index, c, Dir::SouthWest, Ghost(cs)),
            bond_on(&index, c, Dir::West, Ghost(cs)),
        ];
        table.push(row);
        proof {
            assert forall|k: int| 0 <= k < 6 implies #[trigger] row@[k] == bond_entry(cs, a as int, k) as i32 by {
                if k == 0 {
                    assert(Dir::nth(k) == Dir::NorthWest);
                } else if k == 1 {
                    assert(Dir::nth(k) == Dir::NorthEast);
                } else if k == 2 {
                    assert(Dir::nth(k) == Dir::East);
                } else if k == 3 {
                    assert(Dir::nth(k) == Dir::SouthEast);
                } else if k == 4 {
                    assert(Dir::nth(k) == Dir::SouthWest);
                } else {
                    assert(Dir::nth(k) == Dir::West);
                }
            }
            assert(table@[a as int] == row);
        }
        a = a + 1;
    }
    table
}

} // verus!
