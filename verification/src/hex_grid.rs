//! Axial hex-grid math.
//!
//! Coordinates are axial `(q, r)`. The six directions and their offsets:
//!
//! ```text
//!   NW(-1, 1)   NE(0, 1)
//!         \    /
//!   W(-1,0)-- * --E(1,0)
//!         /    \
//!   SW(0,-1)   SE(1,-1)
//! ```
//!
//! Direction `d` and `d.opposite()` (`(d+3)%6`) address the two ends of a bond,
//! which is what lets one atom's output feed the facing neighbour's input.

use std::collections::HashMap;
use vstd::prelude::*;
use vstd::std_specs::iter::IteratorSpec;

verus! {

/// Axial hex coordinate.
#[derive(Copy, Clone, Debug, PartialEq, Eq, Structural, Hash, Default)]
pub struct Axial {
    pub q: i32,
    pub r: i32,
}

/// One of the six hex bond directions.
#[derive(Copy, Clone, Debug, PartialEq, Eq, Structural)]
pub enum Dir {
    NorthWest,
    NorthEast,
    East,
    SouthEast,
    SouthWest,
    West,
}

impl Dir {
    /// Position of this direction in `Dir::ALL` (0..6).
    pub open spec fn idx(self) -> int {
        match self {
            Dir::NorthWest => 0,
            Dir::NorthEast => 1,
            Dir::East => 2,
            Dir::SouthEast => 3,
            Dir::SouthWest => 4,
            Dir::West => 5,
        }
    }

    /// The direction at position `i` (taken modulo 6) of `Dir::ALL`.
    pub open spec fn nth(i: int) -> Dir {
        let k = i % 6;
        if k == 0 {
            Dir::NorthWest
        } else if k == 1 {
            Dir::NorthEast
        } else if k == 2 {
            Dir::East
        } else if k == 3 {
            Dir::SouthEast
        } else if k == 4 {
            Dir::SouthWest
        } else {
            Dir::West
        }
    }

    /// Axial q offset of this direction.
    pub open spec fn dq(self) -> int {
        match self {
            Dir::NorthWest => -1,
            Dir::NorthEast => 0,
            Dir::East => 1,
            Dir::SouthEast => 1,
            Dir::SouthWest => 0,
            Dir::West => -1,
        }
    }

    /// Axial r offset of this direction.
    pub open spec fn dr(self) -> int {
        match self {
            Dir::NorthWest => 1,
            Dir::NorthEast => 1,
            Dir::East => 0,
            Dir::SouthEast => -1,
            Dir::SouthWest => -1,
            Dir::West => 0,
        }
    }

    /// The direction three steps round the compass.
    pub open spec fn opp(self) -> Dir {
        Dir::nth(self.idx() + 3)
    }

    /// All six directions in index order.
    pub const ALL: [Dir; 6] = [
        Dir::NorthWest,
        Dir::NorthEast,
        Dir::East,
        Dir::SouthEast,
        Dir::SouthWest,
        Dir::West,
    ];

    /// The direction with index `i % 6`.
    pub fn from_index(i: usize) -> (d: Dir)
        ensures
            d == Dir::nth(i as int),
            d.idx() == i % 6,
    {
        let k = i % 6;
        if k == 0 {
            Dir::NorthWest
        } else if k == 1 {
            Dir::NorthEast
        } else if k == 2 {
            Dir::East
        } else if k == 3 {
            Dir::SouthEast
        } else if k == 4 {
            Dir::SouthWest
        } else {
            Dir::West
        }
    }

    /// Index of this direction (0..6).
    pub fn index(self) -> (i: usize)
        ensures
            i == self.idx(),
            i < 6,
    {
        match self {
            Dir::NorthWest => 0,
            Dir::NorthEast => 1,
            Dir::East => 2,
            Dir::SouthEast => 3,
            Dir::SouthWest => 4,
            Dir::West => 5,
        }
    }

    /// Axial offset for this direction.
    pub fn offset(self) -> (o: (i32, i32))
        ensures
            o.0 == self.dq(),
            o.1 == self.dr(),
    {
        match self {
            Dir::NorthWest => (-1, 1),
            Dir::NorthEast => (0, 1),
            Dir::East => (1, 0),
            Dir::SouthEast => (1, -1),
            Dir::SouthWest => (0, -1),
            Dir::West => (-1, 0),
        }
    }

    /// The bond site facing this one on the neighbouring atom.
    pub fn opposite(self) -> (o: Dir)
        ensures
            o == self.opp(),
            o.idx() == (self.idx() + 3) % 6,
            o.dq() == -self.dq(),
            o.dr() == -self.dr(),
    {
        Dir::from_index((self.index() + 3) % 6)
    }
}

impl Axial {
    /// The coordinate one step from `self` in direction `d`.
    pub open spec fn stepped(self, d: Dir) -> Axial {
        Axial { q: (self.q + d.dq()) as i32, r: (self.r + d.dr()) as i32 }
    }

    /// A step in any direction from `self` stays inside the `i32` range.
    pub open spec fn interior(self) -> bool {
        &&& i32::MIN < self.q < i32::MAX
        &&& i32::MIN < self.r < i32::MAX
    }

    pub fn new(q: i32, r: i32) -> (c: Axial)
        ensures
            c.q == q,
            c.r == r,
    {
        Axial { q, r }
    }

    /// The origin `(0, 0)`.
    pub fn origin() -> (c: Axial)
        ensures
            c.q == 0,
            c.r == 0,
    {
        Axial { q: 0, r: 0 }
    }

    /// Neighbour in direction `d`.
    pub fn step(self, d: Dir) -> (c: Axial)
        requires
            i32::MIN <= self.q + d.dq() <= i32::MAX,
            i32::MIN <= self.r + d.dr() <= i32::MAX,
        ensures
            c == self.stepped(d),
            c.q == self.q + d.dq(),
            c.r == self.r + d.dr(),
    {
        let (dq, dr) = d.offset();
        Axial::new(self.q + dq, self.r + dr)
    }

    /// All six neighbours, indexed by `Dir::index`.
    pub fn neighbors(self) -> (n: [Axial; 6])
        requires
            self.interior(),
        ensures
            forall|i: int| 0 <= i < 6 ==> #[trigger] n@[i] == self.stepped(Dir::nth(i)),
    {
        [
            self.step(Dir::NorthWest),
            self.step(Dir::NorthEast),
            self.step(Dir::East),
            self.step(Dir::SouthEast),
            self.step(Dir::SouthWest),
            self.step(Dir::West),
        ]
    }
}

/// `from_index` and `index` are inverse: every direction sits at its own
/// index, and the direction at index `i` (for `i` in `0..6`) has index `i`.
pub proof fn lemma_index_roundtrip(d: Dir, i: int)
    ensures
        Dir::nth(d.idx()) == d,
        0 <= d.idx() < 6,
        0 <= i < 6 ==> Dir::nth(i).idx() == i,
{
}

/// The two ends of a bond: `opposite` is an involution without fixed points,
/// and it reverses the axial offset.
pub proof fn lemma_opposite_involution(d: Dir)
    ensures
        d.opp().opp() == d,
        d.opp() != d,
        d.opp().dq() == -d.dq(),
        d.opp().dr() == -d.dr(),
{
}

/// Stepping in direction `d` and then in `d.opposite()` returns to the start,
/// so an atom's neighbour in direction `d` sees it in direction
/// `d.opposite()`.
pub proof fn lemma_step_back(c: Axial, d: Dir)
    requires
        c.interior(),
    ensures
        c.stepped(d).stepped(d.opp()) == c,
        c.stepped(d) != c,
{
}

/// What a read of a grid gives back after a write: after `insert(c, v)` the
/// cell `c` holds `v` and every other cell is as it was; after `remove(c)` the
/// cell `c` is empty and every other cell is as it was.
pub proof fn lemma_grid_read_after_write<T>(m: Map<Axial, T>, c: Axial, v: T, other: Axial)
    requires
        other != c,
    ensures
        m.insert(c, v).contains_key(c),
        m.insert(c, v)[c] == v,
        m.insert(c, v).contains_key(other) == m.contains_key(other),
        m.contains_key(other) ==> m.insert(c, v)[other] == m[other],
        !m.remove(c).contains_key(c),
        m.remove(c).contains_key(other) == m.contains_key(other),
        m.contains_key(other) ==> m.remove(c)[other] == m[other],
{
}

/// Values attached to each of the six neighbours of a cell.
#[derive(Default, Clone)]
pub struct Neighbors<T> {
    pub sites: [T; 6],
}

impl<T> Neighbors<T> {
    /// The value on the site in direction `d`.
    pub fn get(&self, d: Dir) -> (v: &T)
        ensures
            *v == self.sites@[d.idx()],
    {
        &self.sites[d.index()]
    }

    /// Mutable access to the value on the site in direction `d`.
    pub fn get_mut(&mut self, d: Dir) -> (v: &mut T)
        ensures
            *v == old(self).sites@[d.idx()],
            final(self).sites@ == old(self).sites@.update(d.idx(), *final(v)),
    {
        &mut self.sites[d.index()]
    }
}

/// The key under which a cell is stored: `q` and `r`, each shifted into
/// `0..2^32`, packed into the high and low halves of a `u64`.
pub open spec fn cell_key(c: Axial) -> u64 {
    ((c.q + 0x8000_0000) * 0x1_0000_0000 + (c.r + 0x8000_0000)) as u64
}

/// The cell stored under key `k` (inverse of `cell_key`).
pub open spec fn key_cell(k: u64) -> Axial {
    Axial { q: (k / 0x1_0000_0000 - 0x8000_0000) as i32, r: (k % 0x1_0000_0000 - 0x8000_0000) as i32 }
}

/// `key_cell` undoes `cell_key`.
pub proof fn lemma_key_cell_inverse(c: Axial)
    ensures
        key_cell(cell_key(c)) == c,
        0 <= (c.q + 0x8000_0000) * 0x1_0000_0000 + (c.r + 0x8000_0000) <= u64::MAX,
{
    let hi: int = c.q + 0x8000_0000;
    let lo: int = c.r + 0x8000_0000;
    assert(0 <= hi < 0x1_0000_0000);
    assert(0 <= lo < 0x1_0000_0000);
    assert(hi * 0x1_0000_0000 <= 0xffff_ffff * 0x1_0000_0000);
    let k: int = hi * 0x1_0000_0000 + lo;
    assert(k / 0x1_0000_0000 == hi) by (nonlinear_arith)
        requires k == hi * 0x1_0000_0000 + lo, 0 <= lo < 0x1_0000_0000;
    assert(k % 0x1_0000_0000 == lo) by (nonlinear_arith)
        requires k == hi * 0x1_0000_0000 + lo, 0 <= lo < 0x1_0000_0000;
}

/// `cell_key` undoes `key_cell`: every key belongs to exactly one cell.
pub proof fn lemma_cell_key_inverse(k: u64)
    ensures
        cell_key(key_cell(k)) == k,
{
    let hi: int = k as int / 0x1_0000_0000;
    let lo: int = k as int % 0x1_0000_0000;
    assert(k == hi * 0x1_0000_0000 + lo) by (nonlinear_arith)
        requires hi == k as int / 0x1_0000_0000, lo == k as int % 0x1_0000_0000;
    assert(0 <= hi < 0x1_0000_0000) by (nonlinear_arith)
        requires hi == k as int / 0x1_0000_0000, 0 <= k <= u64::MAX;
}

pub(crate) fn key_of(c: Axial) -> (k: u64)
    ensures
        k == cell_key(c),
{
    proof {
        lemma_key_cell_inverse(c);
    }
    let hi: u64 = (c.q as i64 + 0x8000_0000i64) as u64;
    let lo: u64 = (c.r as i64 + 0x8000_0000i64) as u64;
    assert(hi * 0x1_0000_0000 <= 0xffff_ffff * 0x1_0000_0000) by (nonlinear_arith)
        requires hi <= 0xffff_ffff;
    hi * 0x1_0000_0000 + lo
}

fn cell_of_key(k: u64) -> (c: Axial)
    ensures
        c == key_cell(k),
{
    proof {
        lemma_cell_key_inverse(k);
    }
    let q: i64 = (k / 0x1_0000_0000) as i64 - 0x8000_0000i64;
    let r: i64 = (k % 0x1_0000_0000) as i64 - 0x8000_0000i64;
    Axial { q: q as i32, r: r as i32 }
}

/// A sparse, unbounded hex grid.
pub struct HexGrid<T> {
    cells: HashMap<u64, T>,
}

impl<T> View for HexGrid<T> {
    type V = Map<Axial, T>;

    closed spec fn view(&self) -> Map<Axial, T> {
        Map::new(
            |c: Axial| self.cells@.contains_key(cell_key(c)),
            |c: Axial| self.cells@[cell_key(c)],
        )
    }
}

impl<T> Default for HexGrid<T> {
    fn default() -> (g: HexGrid<T>)
        ensures
            g@ == Map::<Axial, T>::empty(),
    {
        HexGrid::new()
    }
}

impl<T> HexGrid<T> {
    proof fn lemma_view_dom(&self)
        ensures
            self@.dom() == self.cells@.dom().map(|k: u64| key_cell(k)),
            self@.dom().finite(),
            self@.dom().len() == self.cells@.dom().len(),
    {
        broadcast use vstd::std_specs::hash::group_hash_axioms;
        let f = |k: u64| key_cell(k);
        assert forall|c: Axial| self@.dom().contains(c) implies self.cells@.dom().map(f).contains(c) by {
            lemma_key_cell_inverse(c);
            assert(f(cell_key(c)) == c);
        }
        assert forall|c: Axial| self.cells@.dom().map(f).contains(c) implies self@.dom().contains(c) by {
            let k = choose|k: u64| self.cells@.dom().contains(k) && f(k) == c;
            lemma_cell_key_inverse(k);
        }
        assert(self@.dom() =~= self.cells@.dom().map(f));
        assert forall|a: u64, b: u64| #[trigger] f(a) == #[trigger] f(b) implies a == b by {
            lemma_cell_key_inverse(a);
            lemma_cell_key_inverse(b);
        }
        vstd::set_lib::lemma_map_size(self.cells@.dom(), self@.dom(), f);
    }

    /// Only finitely many cells of a grid are ever occupied.
    pub proof fn lemma_finite(&self)
        ensures
            self@.dom().finite(),
    {
        self.lemma_view_dom();
    }

    pub fn new() -> (g: HexGrid<T>)
        ensures
            g@ == Map::<Axial, T>::empty(),
    {
        let g = HexGrid { cells: HashMap::new() };
        assert(g@ =~= Map::<Axial, T>::empty());
        g
    }

    /// The value stored at `c`, if any.
    pub fn get(&self, c: Axial) -> (v: Option<&T>)
        ensures
            match v {
                Some(x) => self@.contains_key(c) && *x == self@[c],
                None => !self@.contains_key(c),
            },
    {
        broadcast use vstd::std_specs::hash::group_hash_axioms;
        let k = key_of(c);
        self.cells.get(&k)
    }

    /// Mutable access to the value stored at `c`, if any.
    pub fn get_mut(&mut self, c: Axial) -> (v: Option<&mut T>)
        ensures
            match v {
                Some(x) => {
                    &&& old(self)@.contains_key(c)
                    &&& *x == old(self)@[c]
                    &&& final(self)@ == old(self)@.insert(c, *final(x))
                },
                None => {
                    &&& !old(self)@.contains_key(c)
                    &&& final(self)@ == old(self)@
                },
            },
    {
        broadcast use vstd::std_specs::hash::group_hash_axioms;
        let k = key_of(c);
        match self.cells.entry(k) {
            std::collections::hash_map::Entry::Occupied(o) => Some(o.into_mut()),
            std::collections::hash_map::Entry::Vacant(_) => None,
        }
    }

    /// Store `v` at `c`, returning the value it replaces.
    pub fn insert(&mut self, c: Axial, v: T) -> (prev: Option<T>)
        ensures
            final(self)@ == old(self)@.insert(c, v),
            match prev {
                Some(p) => old(self)@.contains_key(c) && p == old(self)@[c],
                None => !old(self)@.contains_key(c),
            },
            final(self)@.len() == old(self)@.len() + if prev is None { 1int } else { 0int },
    {
        broadcast use vstd::std_specs::hash::group_hash_axioms;
        let k = key_of(c);
        let prev = self.cells.insert(k, v);
        proof {
            assert forall|x: Axial| #[trigger] self@.contains_key(x) == old(self)@.insert(c, v).contains_key(x) by {
                lemma_key_cell_inverse(x);
                lemma_key_cell_inverse(c);
            }
            assert(self@ =~= old(self)@.insert(c, v));
            old(self).lemma_view_dom();
            assert(self@.dom() =~= old(self)@.dom().insert(c));
        }
        prev
    }

    /// Remove and return the value stored at `c`.
    pub fn remove(&mut self, c: Axial) -> (prev: Option<T>)
        ensures
            final(self)@ == old(self)@.remove(c),
            match prev {
                Some(p) => old(self)@.contains_key(c) && p == old(self)@[c],
                None => !old(self)@.contains_key(c),
            },
            final(self)@.len() == old(self)@.len() - if prev is Some { 1int } else { 0int },
    {
        broadcast use vstd::std_specs::hash::group_hash_axioms;
        let k = key_of(c);
        let prev = self.cells.remove(&k);
        proof {
            assert forall|x: Axial| #[trigger] self@.contains_key(x) == old(self)@.remove(c).contains_key(x) by {
                lemma_key_cell_inverse(x);
                lemma_key_cell_inverse(c);
            }
            assert(self@ =~= old(self)@.remove(c));
            old(self).lemma_view_dom();
            assert(self@.dom() =~= old(self)@.dom().remove(c));
        }
        prev
    }

    /// Whether a value is stored at `c`.
    pub fn contains(&self, c: Axial) -> (b: bool)
        ensures
            b == self@.contains_key(c),
    {
        broadcast use vstd::std_specs::hash::group_hash_axioms;
        let k = key_of(c);
        self.cells.contains_key(&k)
    }

    /// Number of occupied cells.
    pub fn len(&self) -> (n: usize)
        ensures
            n == self@.len(),
    {
        broadcast use vstd::std_specs::hash::group_hash_axioms;
        proof {
            self.lemma_view_dom();
        }
        self.cells.len()
    }

    /// Every occupied cell with its value, each exactly once, in the order
    /// in which the underlying table walks them.
    pub fn iter(&self) -> (v: Vec<(Axial, &T)>)
        ensures
            v@.len() == self@.len(),
            forall|i: int|
                0 <= i < v@.len() ==> self@.contains_key(#[trigger] v@[i].0) && self@[v@[i].0]
                    == *v@[i].1,
            forall|c: Axial|
                self@.contains_key(c) ==> exists|i: int| 0 <= i < v@.len() && #[trigger] v@[i].0 == c,
            forall|i: int, j: int| 0 <= i < j < v@.len() ==> #[trigger] v@[i].0 != #[trigger] v@[j].0,
    {
        broadcast use vstd::std_specs::hash::group_hash_axioms;
        let walk = self.cells.iter();
        let ghost s = walk.remaining();
        let mut out: Vec<(Axial, &T)> = Vec::new();
        for kv in it: walk
            invariant
                out@.len() == it.index(),
                forall|i: int|
                    #![trigger out@[i]]
                    0 <= i < it.index() ==> out@[i].0 == key_cell(*it.seq()[i].0),
                forall|i: int|
                    #![trigger out@[i]]
                    0 <= i < it.index() ==> out@[i].1 == it.seq()[i].1,
        {
            let (k, x) = kv;
            out.push((cell_of_key(*k), x));
        }
        proof {
            self.lemma_view_dom();
            assert forall|i: int| 0 <= i < out@.len() implies self@.contains_key(#[trigger] out@[i].0)
                && self@[out@[i].0] == *out@[i].1 by {
                lemma_cell_key_inverse(*s[i].0);
            }
            assert forall|c: Axial| self@.contains_key(c) implies exists|i: int|
                0 <= i < out@.len() && #[trigger] out@[i].0 == c by {
                let k = cell_key(c);
                assert(self.cells@.contains_key(k));
                assert(s.contains((&k, &self.cells@[k])));
                let i = choose|i: int| 0 <= i < s.len() && s[i] == (&k, &self.cells@[k]);
                lemma_key_cell_inverse(c);
                assert(out@[i].0 == c);
            }
            assert forall|i: int, j: int| 0 <= i < j < out@.len() implies #[trigger] out@[i].0
                != #[trigger] out@[j].0 by {
                if out@[i].0 == out@[j].0 {
                    lemma_cell_key_inverse(*s[i].0);
                    lemma_cell_key_inverse(*s[j].0);
                    assert(s[i] == s[j]);
                }
            }
        }
        out
    }

    /// The values on the six neighbours of `c` (`None` where empty), indexed
    /// by direction.
    pub fn neighbors(&self, c: Axial) -> (n: Neighbors<Option<&T>>)
        requires
            c.interior(),
        ensures
            forall|i: int|
                0 <= i < 6 ==> match #[trigger] n.sites@[i] {
                    Some(x) => self@.contains_key(c.stepped(Dir::nth(i))) && *x == self@[c.stepped(
                        Dir::nth(i),
                    )],
                    None => !self@.contains_key(c.stepped(Dir::nth(i))),
                },
    {
        let n: Neighbors<Option<&T>> = Neighbors {
            sites: [
                self.get(c.step(Dir::NorthWest)),
                self.get(c.step(Dir::NorthEast)),
                self.get(c.step(Dir::East)),
                self.get(c.step(Dir::SouthEast)),
                self.get(c.step(Dir::SouthWest)),
                self.get(c.step(Dir::West)),
            ],
        };
        n
    }

    /// Whether no cell is occupied.
    pub fn is_empty(&self) -> (b: bool)
        ensures
            b == (self@.len() == 0),
    {
        broadcast use vstd::std_specs::hash::group_hash_axioms;
        proof {
            self.lemma_view_dom();
        }
        self.cells.len() == 0
    }
}

} // verus!
