//! The heritable blueprint of a molecule and the structural operators that
//! create and reshape it.
//!
//! A genome is an ordered list of placed atoms (gene 0 is always the `Seed` at
//! the origin). Growth is organic: atoms are added one at a time onto free
//! neighbouring cells, and the kind of each new atom is drawn with weights
//! keyed on its parent's kind (the float weighting is handed in as
//! `FloatDraws`; the draw it weighs, and which parent keys it, are fixed
//! here). Removing atoms can split the body, and pruning keeps exactly the
//! atoms still bonded, directly or through others, to the seed.

use crate::atom::{cat_of, category, AtomKind, Cat, GateOp};
use crate::config::{
    HALF_ODDS, MAX_ATOMS, MUT_ADD_ODDS, MUT_PARAM_ODDS, MUT_POINT_ODDS, MUT_REMOVE_ODDS,
    MUT_ROTATE_ODDS,
};
use crate::fx::{
    fx_map_get, fx_map_insert, fx_map_new, fx_set_contains, fx_set_insert, fx_set_len, fx_set_new,
};
use crate::growth::{
    dir_sites, growth_sites, is_growth_site, lemma_attach_at_growth_site, lemma_growth_possible,
    lemma_growth_sites, sites_upto,
};
use crate::hex_grid::{
    key_cell, key_of, lemma_cell_key_inverse, lemma_key_cell_inverse, lemma_step_back, Axial, Dir,
};
use crate::rng::{xorshift_next, xorshift_output, Rng};
use crate::shape::{
    bonds_within, connected, connected_part, coords_interior, coords_within, distinct_cells,
    is_bond_path, lemma_closed_holds_reachable, lemma_index_set, lemma_occupant,
    lemma_prune_keeps_seed, lemma_pruned_is_connected, lemma_reachable_step, lemma_same_cells,
    lemma_select_all, lemma_select_distinct, lemma_select_ext,
    lemma_select_within, occupant, reachable, reachable_interior, select,
};
use fxhash::{FxHashMap, FxHashSet};
use std::collections::VecDeque;
use vstd::prelude::*;

verus! {

/// One placed atom in a blueprint.
#[derive(Copy, Clone, Debug, PartialEq, Eq, Structural)]
pub struct Gene {
    pub coord: Axial,
    pub kind: AtomKind,
    pub facing: Dir,
    /// IEEE-754 bit pattern of the kind-specific scalar (a battery's initial
    /// charge fraction, etc.); `0` is `0.0`.
    pub param_bits: u32,
}

/// An ordered list of placed atoms.
#[derive(Clone)]
pub struct Genome {
    pub genes: Vec<Gene>,
}

/// The 24-bit unit draw taken from a generator in state `s`: the float
/// `unit_draw(s) / 2^24` is uniform in `[0, 1)` (what `Rng::next_unit_bits`
/// returns).
pub open spec fn unit_draw(s: (u64, u64)) -> u32 {
    (xorshift_output(s) >> 40u64) as u32
}

/// The palette entry at index `i`; an index past the palette's end stands for
/// its last entry.
pub open spec fn palette_entry(i: usize) -> AtomKind {
    AtomKind::palette_seq()[if i < 10 { i as int } else { 9 }]
}

/// The choices of growth and mutation that are made in single-precision
/// floating point. Each is a function of one unit draw `m` (the float
/// `m / 2^24` in `[0, 1)`), which the genome operators take from the
/// generator themselves:
/// - `kind_index(m, parent)` is the grammar-weighted index into
///   `AtomKind::palette()` of the kind of a new atom next to a parent of
///   category `parent`;
/// - `battery_param(m)` is the bit pattern of a new battery's initial charge;
/// - `nudge(m, bits)` is the bit pattern of the parameter `bits` after a
///   random nudge.
pub struct FloatDraws<K, P, N> {
    pub kind_index: K,
    pub battery_param: P,
    pub nudge: N,
}

impl<K: Fn(u32, Cat) -> usize, P: Fn(u32) -> u32, N: Fn(u32, u32) -> u32> FloatDraws<K, P, N> {
    /// Each of the three functions accepts every argument.
    pub open spec fn callable(&self) -> bool {
        &&& forall|m: u32, c: Cat| #[trigger] call_requires(self.kind_index, (m, c))
        &&& forall|m: u32| #[trigger] call_requires(self.battery_param, (m,))
        &&& forall|m: u32, b: u32| #[trigger] call_requires(self.nudge, (m, b))
    }

    /// Each of the three functions gives at most one result for each argument.
    pub open spec fn deterministic(&self) -> bool {
        &&& forall|m: u32, c: Cat, i: usize, j: usize|
            #![trigger call_ensures(self.kind_index, (m, c), i), call_ensures(self.kind_index, (m, c), j)]
            call_ensures(self.kind_index, (m, c), i) && call_ensures(self.kind_index, (m, c), j) ==> i == j
        &&& forall|m: u32, a: u32, b: u32|
            #![trigger call_ensures(self.battery_param, (m,), a), call_ensures(self.battery_param, (m,), b)]
            call_ensures(self.battery_param, (m,), a) && call_ensures(self.battery_param, (m,), b) ==> a == b
        &&& forall|m: u32, x: u32, a: u32, b: u32|
            #![trigger call_ensures(self.nudge, (m, x), a), call_ensures(self.nudge, (m, x), b)]
            call_ensures(self.nudge, (m, x), a) && call_ensures(self.nudge, (m, x), b) ==> a == b
    }

    /// `k` is a kind that the grammar-weighted draw can give for the unit
    /// draw `m` next to a parent of category `c`.
    pub open spec fn kind_drawn(&self, m: u32, c: Cat, k: AtomKind) -> bool {
        exists|i: usize| #[trigger] call_ensures(self.kind_index, (m, c), i) && k == palette_entry(i)
    }

    /// `b` is what a new battery's parameter can be for the unit draw `m`.
    pub open spec fn battery_drawn(&self, m: u32, b: u32) -> bool {
        call_ensures(self.battery_param, (m,), b)
    }

    /// `b` is what the parameter `old_bits` can become after a nudge by the
    /// unit draw `m`.
    pub open spec fn nudge_drawn(&self, m: u32, old_bits: u32, b: u32) -> bool {
        call_ensures(self.nudge, (m, old_bits), b)
    }

    /// A kind for a new atom grown from (or re-typed next to) a parent of kind
    /// `parent`: one unit draw, weighted by the parent's category.
    pub fn choose_kind(&self, rng: &mut Rng, parent: AtomKind) -> (k: AtomKind)
        requires
            self.callable(),
        ensures
            self.kind_drawn(unit_draw(old(rng)@), category(parent), k),
            AtomKind::palette_seq().contains(k),
            final(rng)@ == xorshift_next(old(rng)@),
    {
        let m = rng.next_unit_bits();
        let c = cat_of(parent);
        let i = (self.kind_index)(m, c);
        let palette = AtomKind::palette();
        let k = if i < 10 { palette[i] } else { palette[9] };
        proof {
            assert(call_ensures(self.kind_index, (m, c), i));
            let j: int = if i < 10 { i as int } else { 9 };
            assert(AtomKind::palette_seq()[j] == k);
        }
        k
    }

    /// The parameter bits of a new atom of kind `kind`: for a battery one unit
    /// draw, for every other kind `0.0` without drawing.
    pub fn default_param(&self, rng: &mut Rng, kind: AtomKind) -> (b: u32)
        requires
            self.callable(),
        ensures
            kind == AtomKind::Battery ==> self.battery_drawn(unit_draw(old(rng)@), b) && final(rng)@
                == xorshift_next(old(rng)@),
            kind != AtomKind::Battery ==> b == 0 && final(rng)@ == old(rng)@,
    {
        match kind {
            AtomKind::Battery => {
                let m = rng.next_unit_bits();
                (self.battery_param)(m)
            },
            _ => 0,
        }
    }

    /// The parameter bits `param_bits` after a random nudge: one unit draw.
    pub fn nudge_param(&self, rng: &mut Rng, param_bits: u32) -> (b: u32)
        requires
            self.callable(),
        ensures
            self.nudge_drawn(unit_draw(old(rng)@), param_bits, b),
            final(rng)@ == xorshift_next(old(rng)@),
    {
        let m = rng.next_unit_bits();
        (self.nudge)(m, param_bits)
    }
}

/// The facing of a freshly placed atom that does not depend on chance:
/// actuators and organs point outward along `d` (the direction from the parent
/// to the new cell); logic and storage point back into the circuit.
pub open spec fn fixed_facing(kind: AtomKind, d: Dir) -> Option<Dir> {
    match kind {
        AtomKind::Thruster | AtomKind::Sensor | AtomKind::Eater => Some(d),
        AtomKind::Gate(_) | AtomKind::Battery => Some(d.opp()),
        _ => None,
    }
}

/// The kind of the first gene bonded to gene `idx`, scanning directions from
/// the `k`-th on; a conductor when there is none.
pub open spec fn first_bond_kind(genes: Seq<Gene>, idx: int, k: int) -> AtomKind
    decreases 6 - k,
{
    if k >= 6 || k < 0 {
        AtomKind::Conductor
    } else {
        match occupant(genes, genes[idx].coord.stepped(Dir::nth(k))) {
            Some(j) => genes[j].kind,
            None => first_bond_kind(genes, idx, k + 1),
        }
    }
}

/// The direction drawn (uniformly, by `Dir::from_index(below(6))`) from a
/// generator in state `s`.
pub open spec fn drawn_facing(s: (u64, u64)) -> Dir {
    Dir::nth(xorshift_output(s) as int % 6)
}

/// Whether a draw from a generator in state `s` falls within `odds` out of
/// `2^24` (what `Rng::chance_odds` decides).
pub open spec fn drawn_chance(s: (u64, u64), odds: u32) -> bool {
    (xorshift_output(s) >> 40u64) < odds
}

/// `g` with its kind replaced by `k`.
pub open spec fn with_kind(g: Gene, k: AtomKind) -> Gene {
    Gene { coord: g.coord, kind: k, facing: g.facing, param_bits: g.param_bits }
}

/// `g` with its facing replaced by `f`.
pub open spec fn with_facing(g: Gene, f: Dir) -> Gene {
    Gene { coord: g.coord, kind: g.kind, facing: f, param_bits: g.param_bits }
}

/// `g` with its parameter bits replaced by `b`.
pub open spec fn with_param(g: Gene, b: u32) -> Gene {
    Gene { coord: g.coord, kind: g.kind, facing: g.facing, param_bits: b }
}

/// The atom a re-typing draws from a generator in state `s`: a non-seed atom.
pub open spec fn retype_index(genes: Seq<Gene>, s: (u64, u64)) -> int {
    1 + xorshift_output(s) as int % (genes.len() - 1)
}

/// The logic operator with index `i` among the six operators.
pub open spec fn gate_at(i: int) -> GateOp {
    if i == 0 {
        GateOp::And
    } else if i == 1 {
        GateOp::Or
    } else if i == 2 {
        GateOp::Nor
    } else if i == 3 {
        GateOp::Nand
    } else if i == 4 {
        GateOp::Xor
    } else {
        GateOp::Xnor
    }
}

/// Every gene sits where growing an atom next to it, and stepping on from
/// that atom, stays inside `i32`: what one mutation needs.
pub open spec fn coords_mutable(genes: Seq<Gene>) -> bool {
    forall|i: int|
        0 <= i < genes.len() ==> {
            &&& i32::MIN + 2 <= (#[trigger] genes[i]).coord.q <= i32::MAX - 2
            &&& i32::MIN + 2 <= genes[i].coord.r <= i32::MAX - 2
        }
}

/// No gene but gene 0 is a seed.
pub open spec fn single_seed(genes: Seq<Gene>) -> bool {
    forall|i: int| 1 <= i < genes.len() ==> (#[trigger] genes[i]).kind != AtomKind::Seed
}

/// Growing one atom onto a genome whose cells are those of a genome with
/// `coords_mutable` leaves every gene where a step stays inside `i32`.
proof fn lemma_grow_stays_interior<K: Fn(u32, Cat) -> usize, P: Fn(u32) -> u32, N: Fn(u32, u32) -> u32>(
    draws: FloatDraws<K, P, N>,
    g0: Seq<Gene>,
    genes: Seq<Gene>,
    s: (u64, u64),
    after: Seq<Gene>,
    s2: (u64, u64),
)
    requires
        coords_mutable(g0),
        genes.len() == g0.len(),
        genes.len() <= usize::MAX,
        forall|i: int| 0 <= i < g0.len() ==> #[trigger] genes[i].coord == g0[i].coord,
        grown(draws, genes, s, after, s2),
    ensures
        coords_interior(after),
{
    let sites = growth_sites(genes);
    if sites.len() > 0 {
        lemma_growth_sites(genes);
        let t = xorshift_output(s) as int % sites.len() as int;
        let site = sites[t];
        assert(is_growth_site(genes, site));
        assert(genes[site.0 as int].coord == g0[site.0 as int].coord);
    }
    assert forall|i: int| 0 <= i < after.len() implies (#[trigger] after[i]).coord.interior() by {
        if i < genes.len() {
            assert(after[i] == genes[i]);
            assert(genes[i].coord == g0[i].coord);
        }
    }
}

/// Selecting genes keeps a genome free of a second seed.
proof fn lemma_select_single_seed(genes: Seq<Gene>, p: spec_fn(int) -> bool)
    requires
        single_seed(genes),
    ensures
        single_seed(select(genes, p)),
    decreases genes.len(),
{
    if genes.len() > 0 {
        let rest = genes.drop_last();
        assert(single_seed(rest)) by {
            assert forall|i: int| 1 <= i < rest.len() implies (#[trigger] rest[i]).kind != AtomKind::Seed by {
                assert(rest[i] == genes[i]);
            }
        }
        lemma_select_single_seed(rest, p);
        let r = select(rest, p);
        if p(genes.len() - 1) && r.len() > 0 {
            lemma_select_within(rest, p, 0);
            assert(genes.len() - 1 >= 1);
            let t = r.push(genes.last());
            assert forall|i: int| 1 <= i < t.len() implies (#[trigger] t[i]).kind != AtomKind::Seed by {
                if i < r.len() {
                    assert(t[i] == r[i]);
                }
            }
        }
    }
}

/// `(after, s2)` is `(genes, s)` after the re-typing drawn from state `s`.
/// With more than one atom, a drawn non-seed atom `idx` gets a kind drawn
/// next to its first bonded neighbour (`first_bond_kind`); if the atom is a
/// gate, a fair coin then decides whether it gets a drawn gate operator
/// instead. With a single atom nothing changes and nothing is drawn.
pub open spec fn retyped<K: Fn(u32, Cat) -> usize, P: Fn(u32) -> u32, N: Fn(u32, u32) -> u32>(
    draws: FloatDraws<K, P, N>,
    genes: Seq<Gene>,
    s: (u64, u64),
    after: Seq<Gene>,
    s2: (u64, u64),
) -> bool {
    if genes.len() > 1 {
        let idx = retype_index(genes, s);
        let t1 = xorshift_next(s);
        let t2 = xorshift_next(t1);
        let k = after[idx].kind;
        let is_gate = genes[idx].kind is Gate;
        &&& after == genes.update(idx, with_kind(genes[idx], k))
        &&& if is_gate && drawn_chance(t2, HALF_ODDS) {
            let t3 = xorshift_next(t2);
            &&& k == AtomKind::Gate(gate_at(xorshift_output(t3) as int % 6))
            &&& s2 == xorshift_next(t3)
        } else {
            &&& draws.kind_drawn(unit_draw(t1), category(first_bond_kind(genes, idx, 0)), k)
            &&& s2 == if is_gate { xorshift_next(t2) } else { t2 }
        }
    } else {
        after == genes && s2 == s
    }
}

/// `genes` with the turn drawn from state `s` applied: a drawn atom gets the
/// drawn facing.
pub open spec fn turned(genes: Seq<Gene>, s: (u64, u64)) -> Seq<Gene> {
    let idx = xorshift_output(s) as int % genes.len() as int;
    genes.update(idx, with_facing(genes[idx], drawn_facing(xorshift_next(s))))
}

/// `(after, s2)` is `(genes, s)` after the parameter nudge drawn from state
/// `s`: the drawn atom's parameter is nudged by the next unit draw.
pub open spec fn nudged<K: Fn(u32, Cat) -> usize, P: Fn(u32) -> u32, N: Fn(u32, u32) -> u32>(
    draws: FloatDraws<K, P, N>,
    genes: Seq<Gene>,
    s: (u64, u64),
    after: Seq<Gene>,
    s2: (u64, u64),
) -> bool {
    let idx = xorshift_output(s) as int % genes.len() as int;
    let t1 = xorshift_next(s);
    let b = after[idx].param_bits;
    &&& after == genes.update(idx, with_param(genes[idx], b))
    &&& draws.nudge_drawn(unit_draw(t1), genes[idx].param_bits, b)
    &&& s2 == xorshift_next(t1)
}

/// The facing of a new atom of kind `kind` placed in direction `d` from its
/// parent, with the generator in state `s` after the kind was drawn.
pub open spec fn placed_facing(kind: AtomKind, d: Dir, s: (u64, u64)) -> Dir {
    match fixed_facing(kind, d) {
        Some(f) => f,
        None => drawn_facing(s),
    }
}

/// The generator state after the facing of a new atom of kind `kind` placed
/// in direction `d` was chosen from state `s`.
pub open spec fn after_facing(kind: AtomKind, d: Dir, s: (u64, u64)) -> (u64, u64) {
    match fixed_facing(kind, d) {
        Some(_) => s,
        None => xorshift_next(s),
    }
}

/// `(after, s2)` is `(genes, s)` after one growth step. With an exposed edge,
/// the growth site is drawn from `s`, then the new atom's kind (next to the
/// site's parent), its facing and its parameter, and the atom is appended;
/// otherwise nothing changes and nothing is drawn.
pub open spec fn grown<K: Fn(u32, Cat) -> usize, P: Fn(u32) -> u32, N: Fn(u32, u32) -> u32>(
    draws: FloatDraws<K, P, N>,
    genes: Seq<Gene>,
    s: (u64, u64),
    after: Seq<Gene>,
    s2: (u64, u64),
) -> bool {
    let sites = growth_sites(genes);
    if sites.len() == 0 {
        after == genes && s2 == s
    } else {
        let site = sites[xorshift_output(s) as int % sites.len() as int];
        let t1 = xorshift_next(s);
        let t2 = xorshift_next(t1);
        let g = after.last();
        let t3 = after_facing(g.kind, site.1, t2);
        &&& after == genes.push(g)
        &&& g.coord == site.2
        &&& draws.kind_drawn(unit_draw(t1), category(genes[site.0 as int].kind), g.kind)
        &&& g.facing == placed_facing(g.kind, site.1, t2)
        &&& if g.kind == AtomKind::Battery {
            draws.battery_drawn(unit_draw(t3), g.param_bits) && s2 == xorshift_next(t3)
        } else {
            g.param_bits == 0 && s2 == t3
        }
    }
}

/// `(gs, ss)` is a run of growth steps: genomes `gs` and generator states
/// `ss`, each pair following the one before it by one growth step.
pub open spec fn growth_run<K: Fn(u32, Cat) -> usize, P: Fn(u32) -> u32, N: Fn(u32, u32) -> u32>(
    draws: FloatDraws<K, P, N>,
    gs: Seq<Seq<Gene>>,
    ss: Seq<(u64, u64)>,
) -> bool {
    &&& gs.len() >= 1
    &&& ss.len() == gs.len()
    &&& forall|i: int| 0 <= i < gs.len() - 1 ==> #[trigger] grown(draws, gs[i], ss[i], gs[i + 1], ss[i + 1])
}

/// `(after, s2)` is `(genes, s)` after `n` growth steps in a row.
pub open spec fn grown_times<K: Fn(u32, Cat) -> usize, P: Fn(u32) -> u32, N: Fn(u32, u32) -> u32>(
    draws: FloatDraws<K, P, N>,
    genes: Seq<Gene>,
    s: (u64, u64),
    n: nat,
    after: Seq<Gene>,
    s2: (u64, u64),
) -> bool {
    exists|gs: Seq<Seq<Gene>>, ss: Seq<(u64, u64)>|
        #[trigger] growth_run(draws, gs, ss) && gs.len() == n + 1 && gs[0] == genes && ss[0] == s && gs.last()
            == after && ss.last() == s2
}

/// `genes` after the removal drawn from state `s`: a drawn non-seed atom is
/// removed and the islands this leaves are pruned.
pub open spec fn removed(genes: Seq<Gene>, s: (u64, u64)) -> Seq<Gene> {
    connected_part(genes.remove(retype_index(genes, s)))
}

/// One run of `Genome::mutate` through the intermediate genomes and generator
/// states `(g1, t1) .. (g4, t4)`: each operator fires when its chance draw
/// succeeds, then acts on the generator state after that draw.
pub open spec fn mutation_steps<K: Fn(u32, Cat) -> usize, P: Fn(u32) -> u32, N: Fn(u32, u32) -> u32>(
    draws: FloatDraws<K, P, N>,
    g0: Seq<Gene>,
    s0: (u64, u64),
    g1: Seq<Gene>,
    t1: (u64, u64),
    g2: Seq<Gene>,
    t2: (u64, u64),
    g3: Seq<Gene>,
    t3: (u64, u64),
    g4: Seq<Gene>,
    t4: (u64, u64),
    g5: Seq<Gene>,
    t5: (u64, u64),
) -> bool {
    let u0 = xorshift_next(s0);
    let u1 = xorshift_next(t1);
    let u2 = xorshift_next(t2);
    let u3 = xorshift_next(t3);
    let u4 = xorshift_next(t4);
    &&& if drawn_chance(s0, MUT_POINT_ODDS) {
        retyped(draws, g0, u0, g1, t1)
    } else {
        g1 == g0 && t1 == u0
    }
    &&& if drawn_chance(t1, MUT_ROTATE_ODDS) {
        g2 == turned(g1, u1) && t2 == xorshift_next(xorshift_next(u1))
    } else {
        g2 == g1 && t2 == u1
    }
    &&& if drawn_chance(t2, MUT_PARAM_ODDS) {
        nudged(draws, g2, u2, g3, t3)
    } else {
        g3 == g2 && t3 == u2
    }
    &&& if drawn_chance(t3, MUT_ADD_ODDS) && g3.len() < MAX_ATOMS {
        grown(draws, g3, u3, g4, t4)
    } else {
        g4 == g3 && t4 == u3
    }
    &&& if drawn_chance(t4, MUT_REMOVE_ODDS) && g4.len() > 2 {
        g5 == removed(g4, u4) && t5 == xorshift_next(u4)
    } else {
        g5 == g4 && t5 == u4
    }
}

/// `(g5, t5)` is what one call of `Genome::mutate` with `draws` can leave from
/// `(g0, s0)`.
pub open spec fn mutated<K: Fn(u32, Cat) -> usize, P: Fn(u32) -> u32, N: Fn(u32, u32) -> u32>(
    draws: FloatDraws<K, P, N>,
    g0: Seq<Gene>,
    s0: (u64, u64),
    g5: Seq<Gene>,
    t5: (u64, u64),
) -> bool {
    exists|
        g1: Seq<Gene>,
        t1: (u64, u64),
        g2: Seq<Gene>,
        t2: (u64, u64),
        g3: Seq<Gene>,
        t3: (u64, u64),
        g4: Seq<Gene>,
        t4: (u64, u64),
    | #[trigger] mutation_steps(draws, g0, s0, g1, t1, g2, t2, g3, t3, g4, t4, g5, t5)
}

/// In a growth step the new atom is bonded to the parent of the drawn growth
/// site, on a cell that was free, and its kind is drawn with the weights of
/// that parent's category (not those of the seed or of any other atom).
/// Actuators and organs face away from the parent, logic and storage face
/// back at it, and only a battery gets a non-zero parameter.
pub proof fn lemma_growth_keyed_on_parent<K: Fn(u32, Cat) -> usize, P: Fn(u32) -> u32, N: Fn(u32, u32) -> u32>(
    draws: FloatDraws<K, P, N>,
    genes: Seq<Gene>,
    s: (u64, u64),
    after: Seq<Gene>,
    s2: (u64, u64),
)
    requires
        grown(draws, genes, s, after, s2),
        growth_sites(genes).len() > 0,
        genes.len() <= usize::MAX,
        coords_interior(genes),
    ensures
        ({
            let sites = growth_sites(genes);
            let (p, d, cell) = sites[xorshift_output(s) as int % sites.len() as int];
            let atom = after.last();
            &&& after.len() == genes.len() + 1
            &&& p < genes.len()
            &&& atom.coord == cell
            &&& cell == genes[p as int].coord.stepped(d)
            &&& forall|j: int| 0 <= j < genes.len() ==> genes[j].coord != cell
            &&& draws.kind_drawn(unit_draw(xorshift_next(s)), category(genes[p as int].kind), atom.kind)
            &&& (atom.kind == AtomKind::Thruster || atom.kind == AtomKind::Sensor || atom.kind
                == AtomKind::Eater) ==> genes[p as int].coord.stepped(atom.facing) == atom.coord
            &&& (atom.kind is Gate || atom.kind == AtomKind::Battery) ==> atom.coord.stepped(atom.facing)
                == genes[p as int].coord
            &&& atom.kind != AtomKind::Battery ==> atom.param_bits == 0
        }),
{
    lemma_growth_sites(genes);
    let sites = growth_sites(genes);
    let t = xorshift_output(s) as int % sites.len() as int;
    let site = sites[t];
    assert(is_growth_site(genes, site));
    assert(genes[site.0 as int].coord.interior());
    lemma_step_back(genes[site.0 as int].coord, site.1);
}

/// The kind of the first gene bonded to gene `idx` in the directions from
/// the `k`-th on is that of the occupant in the first occupied direction, or
/// a conductor when none is occupied.
proof fn lemma_first_bond_kind(genes: Seq<Gene>, idx: int, k: int)
    requires
        0 <= k <= 6,
    ensures
        (forall|k2: int| k <= k2 < 6 ==> occupant(genes, #[trigger] genes[idx].coord.stepped(Dir::nth(k2))) is None)
            ==> first_bond_kind(genes, idx, k) == AtomKind::Conductor,
        forall|k1: int|
            k <= k1 < 6 && occupant(genes, #[trigger] genes[idx].coord.stepped(Dir::nth(k1))) is Some && (
            forall|k2: int| k <= k2 < k1 ==> occupant(genes, #[trigger] genes[idx].coord.stepped(Dir::nth(k2))) is None)
                ==> first_bond_kind(genes, idx, k) == genes[occupant(genes, genes[idx].coord.stepped(Dir::nth(k1)))->0].kind,
    decreases 6 - k,
{
    if k < 6 {
        lemma_first_bond_kind(genes, idx, k + 1);
    }
}

/// A re-typing that draws a new kind (no operator flip of a gate) draws it
/// with the weights of the category of the first gene bonded to the re-typed
/// atom, scanning directions in order, or of a conductor when none is bonded;
/// not with those of the re-typed atom's own kind.
pub proof fn lemma_retype_keyed_on_neighbour<K: Fn(u32, Cat) -> usize, P: Fn(u32) -> u32, N: Fn(u32, u32) -> u32>(
    draws: FloatDraws<K, P, N>,
    genes: Seq<Gene>,
    s: (u64, u64),
    after: Seq<Gene>,
    s2: (u64, u64),
)
    requires
        retyped(draws, genes, s, after, s2),
        genes.len() > 1,
        !(genes[retype_index(genes, s)].kind is Gate && drawn_chance(xorshift_next(xorshift_next(s)), HALF_ODDS)),
    ensures
        ({
            let idx = retype_index(genes, s);
            let here = genes[idx].coord;
            let m = unit_draw(xorshift_next(s));
            let k = after[idx].kind;
            &&& 1 <= idx < genes.len()
            &&& after == genes.update(idx, with_kind(genes[idx], k))
            &&& (forall|d: int| 0 <= d < 6 ==> occupant(genes, #[trigger] here.stepped(Dir::nth(d))) is None)
                ==> draws.kind_drawn(m, Cat::Conductor, k)
            &&& forall|d: int|
                0 <= d < 6 && occupant(genes, #[trigger] here.stepped(Dir::nth(d))) is Some && (forall|d2: int|
                    0 <= d2 < d ==> occupant(genes, #[trigger] here.stepped(Dir::nth(d2))) is None)
                    ==> draws.kind_drawn(m, category(genes[occupant(genes, here.stepped(Dir::nth(d)))->0].kind), k)
        }),
{
    let idx = retype_index(genes, s);
    lemma_first_bond_kind(genes, idx, 0);
}

/// With deterministic draws, a kind draw has one outcome.
proof fn lemma_kind_drawn_unique<K: Fn(u32, Cat) -> usize, P: Fn(u32) -> u32, N: Fn(u32, u32) -> u32>(
    draws: FloatDraws<K, P, N>,
    m: u32,
    c: Cat,
    k1: AtomKind,
    k2: AtomKind,
)
    requires
        draws.deterministic(),
        draws.kind_drawn(m, c, k1),
        draws.kind_drawn(m, c, k2),
    ensures
        k1 == k2,
{
    let i1 = choose|i: usize| #[trigger] call_ensures(draws.kind_index, (m, c), i) && k1 == palette_entry(i);
    let i2 = choose|i: usize| #[trigger] call_ensures(draws.kind_index, (m, c), i) && k2 == palette_entry(i);
    assert(i1 == i2);
}

/// With deterministic draws, a re-typing has one outcome.
proof fn lemma_retyped_unique<K: Fn(u32, Cat) -> usize, P: Fn(u32) -> u32, N: Fn(u32, u32) -> u32>(
    draws: FloatDraws<K, P, N>,
    genes: Seq<Gene>,
    s: (u64, u64),
    a1: Seq<Gene>,
    s1: (u64, u64),
    a2: Seq<Gene>,
    s2: (u64, u64),
)
    requires
        draws.deterministic(),
        retyped(draws, genes, s, a1, s1),
        retyped(draws, genes, s, a2, s2),
    ensures
        a1 == a2,
        s1 == s2,
{
    if genes.len() > 1 {
        let idx = retype_index(genes, s);
        let t1 = xorshift_next(s);
        let t2 = xorshift_next(t1);
        if !(genes[idx].kind is Gate && drawn_chance(t2, HALF_ODDS)) {
            lemma_kind_drawn_unique(
                draws,
                unit_draw(t1),
                category(first_bond_kind(genes, idx, 0)),
                a1[idx].kind,
                a2[idx].kind,
            );
        }
    }
}

/// With deterministic draws, a parameter nudge has one outcome.
proof fn lemma_nudged_unique<K: Fn(u32, Cat) -> usize, P: Fn(u32) -> u32, N: Fn(u32, u32) -> u32>(
    draws: FloatDraws<K, P, N>,
    genes: Seq<Gene>,
    s: (u64, u64),
    a1: Seq<Gene>,
    s1: (u64, u64),
    a2: Seq<Gene>,
    s2: (u64, u64),
)
    requires
        draws.deterministic(),
        nudged(draws, genes, s, a1, s1),
        nudged(draws, genes, s, a2, s2),
    ensures
        a1 == a2,
        s1 == s2,
{
    let idx = xorshift_output(s) as int % genes.len() as int;
    let m = unit_draw(xorshift_next(s));
    assert(call_ensures(draws.nudge, (m, genes[idx].param_bits), a1[idx].param_bits));
    assert(call_ensures(draws.nudge, (m, genes[idx].param_bits), a2[idx].param_bits));
}

/// With deterministic draws, growth is deterministic: one growth step from a
/// genome and a generator state has exactly one outcome.
pub proof fn lemma_growth_deterministic<K: Fn(u32, Cat) -> usize, P: Fn(u32) -> u32, N: Fn(u32, u32) -> u32>(
    draws: FloatDraws<K, P, N>,
    genes: Seq<Gene>,
    s: (u64, u64),
    a1: Seq<Gene>,
    s1: (u64, u64),
    a2: Seq<Gene>,
    s2: (u64, u64),
)
    requires
        draws.deterministic(),
        grown(draws, genes, s, a1, s1),
        grown(draws, genes, s, a2, s2),
    ensures
        a1 == a2,
        s1 == s2,
{
    let sites = growth_sites(genes);
    if sites.len() > 0 {
        let site = sites[xorshift_output(s) as int % sites.len() as int];
        let t1 = xorshift_next(s);
        let t2 = xorshift_next(t1);
        let x1 = a1.last();
        let x2 = a2.last();
        lemma_kind_drawn_unique(draws, unit_draw(t1), category(genes[site.0 as int].kind), x1.kind, x2.kind);
        let t3 = after_facing(x1.kind, site.1, t2);
        if x1.kind == AtomKind::Battery {
            assert(call_ensures(draws.battery_param, (unit_draw(t3),), x1.param_bits));
            assert(call_ensures(draws.battery_param, (unit_draw(t3),), x2.param_bits));
        }
        assert(x1 == x2);
    }
}

/// Two runs of growth steps from the same start agree step by step.
proof fn lemma_runs_agree<K: Fn(u32, Cat) -> usize, P: Fn(u32) -> u32, N: Fn(u32, u32) -> u32>(
    draws: FloatDraws<K, P, N>,
    gs1: Seq<Seq<Gene>>,
    ss1: Seq<(u64, u64)>,
    gs2: Seq<Seq<Gene>>,
    ss2: Seq<(u64, u64)>,
    i: int,
)
    requires
        draws.deterministic(),
        growth_run(draws, gs1, ss1),
        growth_run(draws, gs2, ss2),
        gs1.len() == gs2.len(),
        gs1[0] == gs2[0],
        ss1[0] == ss2[0],
        0 <= i < gs1.len(),
    ensures
        gs1[i] == gs2[i],
        ss1[i] == ss2[i],
    decreases i,
{
    if i > 0 {
        let j = i - 1;
        lemma_runs_agree(draws, gs1, ss1, gs2, ss2, j);
        assert(grown(draws, gs1[j], ss1[j], gs1[j + 1], ss1[j + 1]));
        assert(grown(draws, gs2[j], ss2[j], gs2[j + 1], ss2[j + 1]));
        lemma_growth_deterministic(draws, gs1[j], ss1[j], gs1[j + 1], ss1[j + 1], gs2[j + 1], ss2[j + 1]);
    }
}

/// With deterministic draws, a run of growth steps is deterministic: `n`
/// growth steps from a genome and a generator state have exactly one outcome
/// (so `Genome::random` gives one genome for each seed).
pub proof fn lemma_growth_run_deterministic<K: Fn(u32, Cat) -> usize, P: Fn(u32) -> u32, N: Fn(u32, u32) -> u32>(
    draws: FloatDraws<K, P, N>,
    genes: Seq<Gene>,
    s: (u64, u64),
    n: nat,
    a1: Seq<Gene>,
    s1: (u64, u64),
    a2: Seq<Gene>,
    s2: (u64, u64),
)
    requires
        draws.deterministic(),
        grown_times(draws, genes, s, n, a1, s1),
        grown_times(draws, genes, s, n, a2, s2),
    ensures
        a1 == a2,
        s1 == s2,
{
    let (gs1, ss1) = choose|gs: Seq<Seq<Gene>>, ss: Seq<(u64, u64)>|
        #[trigger] growth_run(draws, gs, ss) && gs.len() == n + 1 && gs[0] == genes && ss[0] == s && gs.last()
            == a1 && ss.last() == s1;
    let (gs2, ss2) = choose|gs: Seq<Seq<Gene>>, ss: Seq<(u64, u64)>|
        #[trigger] growth_run(draws, gs, ss) && gs.len() == n + 1 && gs[0] == genes && ss[0] == s && gs.last()
            == a2 && ss.last() == s2;
    lemma_runs_agree(draws, gs1, ss1, gs2, ss2, n as int);
}

/// With deterministic draws, mutation is deterministic: from a genome and a
/// generator state, `Genome::mutate` has exactly one outcome, so a simulation
/// replays exactly from its seed.
pub proof fn lemma_mutation_deterministic<K: Fn(u32, Cat) -> usize, P: Fn(u32) -> u32, N: Fn(u32, u32) -> u32>(
    draws: FloatDraws<K, P, N>,
    g0: Seq<Gene>,
    s0: (u64, u64),
    ga: Seq<Gene>,
    ta: (u64, u64),
    gb: Seq<Gene>,
    tb: (u64, u64),
)
    requires
        draws.deterministic(),
        mutated(draws, g0, s0, ga, ta),
        mutated(draws, g0, s0, gb, tb),
    ensures
        ga == gb,
        ta == tb,
{
    let (a1, at1, a2, at2, a3, at3, a4, at4) = choose|
        a1: Seq<Gene>,
        at1: (u64, u64),
        a2: Seq<Gene>,
        at2: (u64, u64),
        a3: Seq<Gene>,
        at3: (u64, u64),
        a4: Seq<Gene>,
        at4: (u64, u64),
    | #[trigger] mutation_steps(draws, g0, s0, a1, at1, a2, at2, a3, at3, a4, at4, ga, ta);
    let (b1, bt1, b2, bt2, b3, bt3, b4, bt4) = choose|
        b1: Seq<Gene>,
        bt1: (u64, u64),
        b2: Seq<Gene>,
        bt2: (u64, u64),
        b3: Seq<Gene>,
        bt3: (u64, u64),
        b4: Seq<Gene>,
        bt4: (u64, u64),
    | #[trigger] mutation_steps(draws, g0, s0, b1, bt1, b2, bt2, b3, bt3, b4, bt4, gb, tb);
    if drawn_chance(s0, MUT_POINT_ODDS) {
        lemma_retyped_unique(draws, g0, xorshift_next(s0), a1, at1, b1, bt1);
    }
    assert(a1 == b1 && at1 == bt1);
    assert(a2 == b2 && at2 == bt2);
    if drawn_chance(at2, MUT_PARAM_ODDS) {
        lemma_nudged_unique(draws, a2, xorshift_next(at2), a3, at3, b3, bt3);
    }
    assert(a3 == b3 && at3 == bt3);
    if drawn_chance(at3, MUT_ADD_ODDS) && a3.len() < MAX_ATOMS {
        lemma_growth_deterministic(draws, a3, xorshift_next(at3), a4, at4, b4, bt4);
    }
    assert(a4 == b4 && at4 == bt4);
}

impl Genome {
    /// Map of occupied cells (by `cell_key`) to the index of the gene there.
    fn occupied(&self) -> (m: FxHashMap<u64, usize>)
        ensures
            forall|k: u64|
                #![trigger m@.contains_key(k)]
                m@.contains_key(k) <==> occupant(self.genes@, key_cell(k)) is Some,
            forall|k: u64|
                #![trigger m@[k]]
                m@.contains_key(k) ==> m@[k] == occupant(self.genes@, key_cell(k))->0,
    {
        let mut m = fx_map_new();
        let n = self.genes.len();
        let mut i: usize = 0;
        while i < n
            invariant
                n == self.genes@.len(),
                i <= n,
                forall|k: u64|
                    #![trigger m@.contains_key(k)]
                    m@.contains_key(k) <==> occupant(self.genes@.take(i as int), key_cell(k)) is Some,
                forall|k: u64|
                    #![trigger m@[k]]
                    m@.contains_key(k) ==> m@[k] == occupant(self.genes@.take(i as int), key_cell(k))->0,
            decreases n - i,
        {
            let c = self.genes[i].coord;
            let key = key_of(c);
            fx_map_insert(&mut m, key, i);
            proof {
                let prev = self.genes@.take(i as int);
                let next = self.genes@.take(i + 1);
                assert(next.drop_last() =~= prev);
                assert forall|k: u64| #[trigger] m@.contains_key(k) <==> occupant(next, key_cell(k)) is Some by {
                    lemma_cell_key_inverse(k);
                    lemma_key_cell_inverse(c);
                }
                assert forall|k: u64| #[trigger] m@.contains_key(k) implies m@[k] == occupant(next, key_cell(k))->0 by {
                    lemma_cell_key_inverse(k);
                    lemma_key_cell_inverse(c);
                }
            }
            i = i + 1;
        }
        assert(self.genes@.take(n as int) =~= self.genes@);
        m
    }

    /// Pick the place for one new atom: all free cells next to the existing
    /// atoms are listed (`growth_sites`) and one is drawn uniformly. `None`,
    /// without drawing, when the structure has no exposed edge.
    pub fn grow_site(&self, rng: &mut Rng) -> (site: Option<(usize, Dir, Axial)>)
        requires
            coords_interior(self.genes@),
        ensures
            growth_sites(self.genes@).len() == 0 ==> site is None && final(rng)@ == old(rng)@,
            growth_sites(self.genes@).len() > 0 ==> {
                &&& site == Some(
                    growth_sites(self.genes@)[xorshift_output(old(rng)@) as int % growth_sites(
                        self.genes@,
                    ).len() as int],
                )
                &&& final(rng)@ == xorshift_next(old(rng)@)
            },
            site matches Some(s) ==> is_growth_site(self.genes@, s),
    {
        let ghost g = self.genes@;
        let occ = self.occupied();
        let n = self.genes.len();
        let mut cands: Vec<(usize, Dir, Axial)> = Vec::new();
        let mut i: usize = 0;
        while i < n
            invariant
                g == self.genes@,
                n == g.len(),
                i <= n,
                coords_interior(g),
                forall|k: u64|
                    #![trigger occ@.contains_key(k)]
                    occ@.contains_key(k) <==> occupant(g, key_cell(k)) is Some,
                cands@ == sites_upto(g, i as int),
            decreases n - i,
        {
            let c = self.genes[i].coord;
            proof {
                assert(g[i as int].coord.interior());
            }
            let ghost base = cands@;
            let mut k: usize = 0;
            while k < 6
                invariant
                    g == self.genes@,
                    n == g.len(),
                    i < n,
                    c == g[i as int].coord,
                    c.interior(),
                    k <= 6,
                    forall|kk: u64|
                        #![trigger occ@.contains_key(kk)]
                        occ@.contains_key(kk) <==> occupant(g, key_cell(kk)) is Some,
                    cands@ == base + dir_sites(g, i as int, k as int),
                decreases 6 - k,
            {
                let d = Dir::from_index(k);
                let cell = c.step(d);
                proof {
                    lemma_key_cell_inverse(cell);
                }
                if fx_map_get(&occ, key_of(cell)).is_none() {
                    cands.push((i, d, cell));
                }
                proof {
                    assert(cands@ =~= base + dir_sites(g, i as int, k + 1));
                }
                k = k + 1;
            }
            i = i + 1;
        }
        proof {
            lemma_growth_sites(g);
        }
        if cands.len() == 0 {
            return None;
        }
        let pick = rng.below(cands.len());
        Some(cands[pick])
    }

    /// Sensible default facing for a freshly placed atom of `kind`, given the
    /// direction `d` from its parent to its cell: `fixed_facing` where it
    /// applies, otherwise a uniformly drawn direction.
    pub fn choose_facing(rng: &mut Rng, kind: AtomKind, d: Dir) -> (f: Dir)
        ensures
            fixed_facing(kind, d) matches Some(x) ==> f == x && final(rng)@ == old(rng)@,
            fixed_facing(kind, d) is None ==> f == drawn_facing(old(rng)@) && final(rng)@
                == xorshift_next(old(rng)@),
    {
        match kind {
            AtomKind::Thruster | AtomKind::Sensor | AtomKind::Eater => d,
            AtomKind::Gate(_) | AtomKind::Battery => d.opposite(),
            _ => Dir::from_index(rng.below(6)),
        }
    }

    /// A lone seed at the origin with a drawn facing: the start of every random
    /// genome.
    pub fn seed(rng: &mut Rng) -> (g: Genome)
        ensures
            g.genes@ == seq![Gene { coord: Axial { q: 0, r: 0 }, kind: AtomKind::Seed, facing: drawn_facing(old(rng)@), param_bits: 0 }],
            final(rng)@ == xorshift_next(old(rng)@),
    {
        let facing = Dir::from_index(rng.below(6));
        let mut genes: Vec<Gene> = Vec::new();
        genes.push(Gene { coord: Axial::origin(), kind: AtomKind::Seed, facing, param_bits: 0 });
        Genome { genes }
    }

    /// The number of atoms a random genome grows to: uniform in `min..=max`.
    pub fn growth_target(rng: &mut Rng, min: usize, max: usize) -> (n: usize)
        requires
            min <= max < usize::MAX,
        ensures
            n == min + xorshift_output(old(rng)@) as int % (max - min + 1),
            min <= n <= max,
            final(rng)@ == xorshift_next(old(rng)@),
    {
        min + rng.below(max - min + 1)
    }

    /// A three-atom rocket: seed at the origin, a thruster above it and an
    /// eater above that, each with a drawn facing (`min` and `max` are
    /// ignored).
    pub fn rocket(rng: &mut Rng, min: usize, max: usize) -> (g: Genome)
        ensures
            ({
                let s0 = old(rng)@;
                let s1 = xorshift_next(s0);
                let s2 = xorshift_next(s1);
                &&& g.genes@ == seq![
                    Gene { coord: Axial { q: 0, r: 0 }, kind: AtomKind::Seed, facing: drawn_facing(s0), param_bits: 0 },
                    Gene { coord: Axial { q: 0, r: 1 }, kind: AtomKind::Thruster, facing: drawn_facing(s1), param_bits: 0 },
                    Gene { coord: Axial { q: 0, r: 2 }, kind: AtomKind::Eater, facing: drawn_facing(s2), param_bits: 0 },
                ]
                &&& final(rng)@ == xorshift_next(s2)
            }),
    {
        let f0 = Dir::from_index(rng.below(6));
        let f1 = Dir::from_index(rng.below(6));
        let f2 = Dir::from_index(rng.below(6));
        let mut genes: Vec<Gene> = Vec::new();
        genes.push(Gene { coord: Axial::origin(), kind: AtomKind::Seed, facing: f0, param_bits: 0 });
        genes.push(Gene { coord: Axial::new(0, 1), kind: AtomKind::Thruster, facing: f1, param_bits: 0 });
        genes.push(Gene { coord: Axial::new(0, 2), kind: AtomKind::Eater, facing: f2, param_bits: 0 });
        Genome { genes }
    }

    /// The kind that biases a re-typing of gene `idx`: that of the first gene
    /// bonded to it (directions in index order), or a conductor if none is.
    pub fn bias_parent(&self, idx: usize) -> (k: AtomKind)
        requires
            idx < self.genes@.len(),
            self.genes@[idx as int].coord.interior(),
        ensures
            k == first_bond_kind(self.genes@, idx as int, 0),
    {
        let ghost g = self.genes@;
        let here = self.genes[idx].coord;
        let occ = self.occupied();
        let mut k: usize = 0;
        while k < 6
            invariant
                g == self.genes@,
                idx < g.len(),
                here == g[idx as int].coord,
                here.interior(),
                k <= 6,
                forall|kk: u64|
                    #![trigger occ@.contains_key(kk)]
                    occ@.contains_key(kk) <==> occupant(g, key_cell(kk)) is Some,
                forall|kk: u64|
                    #![trigger occ@[kk]]
                    occ@.contains_key(kk) ==> occ@[kk] == occupant(g, key_cell(kk))->0,
                first_bond_kind(g, idx as int, 0) == first_bond_kind(g, idx as int, k as int),
            decreases 6 - k,
        {
            let cell = here.step(Dir::from_index(k));
            proof {
                lemma_key_cell_inverse(cell);
                lemma_occupant(g, cell);
            }
            match fx_map_get(&occ, key_of(cell)) {
                Some(j) => {
                    return self.genes[j].kind;
                },
                None => {},
            }
            k = k + 1;
        }
        AtomKind::Conductor
    }

    /// The genome left after the atoms at the indices in `victims` are removed
    /// (a set of indices: repeats count once, indices out of range are
    /// ignored) and the islands this creates are pruned; `None` if fewer than
    /// two atoms survive.
    pub fn after_removal(&self, victims: &Vec<usize>) -> (r: Option<Genome>)
        requires
            reachable_interior(select(self.genes@, |j: int| !victims@.contains(j as usize))),
        ensures
            ({
                let rest = connected_part(select(self.genes@, |j: int| !victims@.contains(j as usize)));
                &&& rest.len() < 2 ==> r is None
                &&& rest.len() >= 2 ==> (r matches Some(h) && h.genes@ == rest)
            }),
    {
        let ghost g = self.genes@;
        let ghost p = |j: int| !victims@.contains(j as usize);
        let n = self.genes.len();
        let mut kept: Vec<Gene> = Vec::new();
        let mut i: usize = 0;
        while i < n
            invariant
                g == self.genes@,
                n == g.len(),
                i <= n,
                p == (|j: int| !victims@.contains(j as usize)),
                kept@ == select(g.take(i as int), p),
            decreases n - i,
        {
            let mut hit = false;
            let mut v: usize = 0;
            while v < victims.len()
                invariant
                    v <= victims@.len(),
                    hit == exists|w: int| 0 <= w < v && victims@[w] == i,
                decreases victims@.len() - v,
            {
                if victims[v] == i {
                    hit = true;
                }
                v = v + 1;
            }
            proof {
                let t1 = g.take(i + 1);
                assert(t1.drop_last() =~= g.take(i as int));
                assert(t1.last() == g[i as int]);
                assert(hit == victims@.contains(i));
                assert(p(i as int) == !hit);
            }
            if !hit {
                kept.push(self.genes[i]);
            }
            i = i + 1;
        }
        assert(g.take(n as int) =~= g);
        let mut h = Genome { genes: kept };
        assert(h.genes@ == select(g, |j: int| !victims@.contains(j as usize)));
        h.prune_disconnected();
        if h.genes.len() < 2 {
            None
        } else {
            Some(h)
        }
    }

    /// Attach one new atom to a free neighbouring cell: the site is drawn
    /// (`grow_site`), then the kind (biased by the parent's kind), the facing
    /// (`choose_facing`) and the parameter. Returns false, changing nothing,
    /// if the structure has no exposed edge.
    pub fn grow_one<K: Fn(u32, Cat) -> usize, P: Fn(u32) -> u32, N: Fn(u32, u32) -> u32>(
        &mut self,
        rng: &mut Rng,
        draws: &FloatDraws<K, P, N>,
    ) -> (grew: bool)
        requires
            coords_interior(old(self).genes@),
            draws.callable(),
        ensures
            grew == (growth_sites(old(self).genes@).len() > 0),
            grown(*draws, old(self).genes@, old(rng)@, final(self).genes@, final(rng)@),
            grew ==> AtomKind::palette_seq().contains(final(self).genes@.last().kind),
            single_seed(old(self).genes@) ==> single_seed(final(self).genes@),
            distinct_cells(old(self).genes@) ==> distinct_cells(final(self).genes@),
            distinct_cells(old(self).genes@) && connected(old(self).genes@) ==> connected(
                final(self).genes@,
            ),
            forall|b: int|
                coords_within(old(self).genes@, b) ==> #[trigger] coords_within(final(self).genes@, b + 1),
    {
        let ghost g0 = self.genes@;
        match self.grow_site(rng) {
            None => false,
            Some(site) => {
                let (pi, d, cell) = site;
                let parent_kind = self.genes[pi].kind;
                let kind = draws.choose_kind(rng, parent_kind);
                let facing = Self::choose_facing(rng, kind, d);
                let param_bits = draws.default_param(rng, kind);
                let gene = Gene { coord: cell, kind, facing, param_bits };
                self.genes.push(gene);
                proof {
                    assert(self.genes@.last() == gene);
                    assert(self.genes@ == g0.push(gene));
                    if distinct_cells(g0) {
                        lemma_attach_at_growth_site(g0, site, gene);
                    }
                    assert forall|b: int| coords_within(g0, b) implies #[trigger] coords_within(self.genes@, b + 1) by {
                        assert(g0[pi as int].coord == self.genes@[pi as int].coord);
                        assert forall|i: int| 0 <= i < self.genes@.len() implies -(b + 1) <= (
                        #[trigger] self.genes@[i]).coord.q <= b + 1 && -(b + 1) <= self.genes@[i].coord.r <= b
                            + 1 by {
                            if i < g0.len() {
                                assert(self.genes@[i] == g0[i]);
                            }
                        }
                    }
                }
                true
            },
        }
    }

    /// Grow a random genome of `min..=max` atoms (at least the seed) around a
    /// single seed at the origin, one atom at a time.
    pub fn random<K: Fn(u32, Cat) -> usize, P: Fn(u32) -> u32, N: Fn(u32, u32) -> u32>(
        rng: &mut Rng,
        min: usize,
        max: usize,
        draws: &FloatDraws<K, P, N>,
    ) -> (g: Genome)
        requires
            min <= max < 0x7fff_ffff,
            draws.callable(),
        ensures
            ({
                let s1 = xorshift_next(old(rng)@);
                let target: int = min + xorshift_output(s1) as int % (max - min + 1);
                &&& g.genes@.len() == if target > 1 { target } else { 1 }
            }),
            g.genes@[0] == (Gene { coord: Axial { q: 0, r: 0 }, kind: AtomKind::Seed, facing: drawn_facing(old(rng)@), param_bits: 0 }),
            grown_times(
                *draws,
                seq![Gene { coord: Axial { q: 0, r: 0 }, kind: AtomKind::Seed, facing: drawn_facing(old(rng)@), param_bits: 0 }],
                xorshift_next(xorshift_next(old(rng)@)),
                (g.genes@.len() - 1) as nat,
                g.genes@,
                final(rng)@,
            ),
            forall|i: int| 1 <= i < g.genes@.len() ==> AtomKind::palette_seq().contains(#[trigger] g.genes@[i].kind),
            distinct_cells(g.genes@),
            connected(g.genes@),
            coords_within(g.genes@, g.genes@.len() - 1),
    {
        let mut g = Genome::seed(rng);
        let ghost seed_gene = g.genes@[0];
        let ghost start = g.genes@;
        let target = Genome::growth_target(rng, min, max);
        let ghost s_start = rng@;
        let ghost mut gs: Seq<Seq<Gene>> = seq![start];
        let ghost mut ss: Seq<(u64, u64)> = seq![s_start];
        proof {
            let p0 = seq![0int];
            assert(p0.last() == 0);
            assert(is_bond_path(g.genes@, p0));
            assert(reachable(g.genes@, 0));
        }
        while g.genes.len() < target
            invariant
                1 <= g.genes@.len(),
                g.genes@.len() <= if target > 1 { target } else { 1 },
                target <= max + 1,
                max < 0x7fff_ffff,
                g.genes@[0] == seed_gene,
                draws.callable(),
                growth_run(*draws, gs, ss),
                gs.len() == g.genes@.len(),
                gs[0] == start,
                ss[0] == s_start,
                gs.last() == g.genes@,
                ss.last() == rng@,
                forall|i: int| 1 <= i < g.genes@.len() ==> AtomKind::palette_seq().contains(#[trigger] g.genes@[i].kind),
                distinct_cells(g.genes@),
                connected(g.genes@),
                coords_within(g.genes@, g.genes@.len() - 1),
            decreases target - g.genes@.len(),
        {
            let ghost before = g.genes@;
            let ghost s_before = rng@;
            proof {
                assert forall|i: int| 0 <= i < before.len() implies (#[trigger] before[i]).coord.interior() by {
                    assert(-(before.len() - 1) <= before[i].coord.q <= before.len() - 1);
                }
                lemma_growth_possible(before);
            }
            let grew = g.grow_one(rng, draws);
            assert(grew);
            proof {
                assert(grown(*draws, before, s_before, g.genes@, rng@));
                let gs0 = gs;
                let ss0 = ss;
                gs = gs.push(g.genes@);
                ss = ss.push(rng@);
                assert forall|i: int| 0 <= i < gs.len() - 1 implies #[trigger] grown(*draws, gs[i], ss[i], gs[i + 1], ss[i + 1]) by {
                    if i < gs0.len() - 1 {
                        assert(gs[i] == gs0[i] && gs[i + 1] == gs0[i + 1] && ss[i] == ss0[i] && ss[i + 1] == ss0[i + 1]);
                    }
                }
            }
            assert forall|i: int| 1 <= i < g.genes@.len() implies AtomKind::palette_seq().contains(#[trigger] g.genes@[i].kind) by {
                if i < before.len() {
                    assert(g.genes@[i] == before[i]);
                }
            }
            assert(g.genes@[0] == before[0]);
            assert(coords_within(g.genes@, (before.len() - 1) + 1));
        }
        assert(growth_run(*draws, gs, ss));
        g
    }

    /// Re-type a random non-seed atom (mutation step one of `mutate`); with a
    /// single atom nothing changes and nothing is drawn.
    fn mutate_kind<K: Fn(u32, Cat) -> usize, P: Fn(u32) -> u32, N: Fn(u32, u32) -> u32>(
        &mut self,
        rng: &mut Rng,
        draws: &FloatDraws<K, P, N>,
    )
        requires
            coords_interior(old(self).genes@),
            draws.callable(),
        ensures
            retyped(*draws, old(self).genes@, old(rng)@, final(self).genes@, final(rng)@),
            final(self).genes@.len() == old(self).genes@.len(),
            forall|i: int| 0 <= i < old(self).genes@.len() ==> #[trigger] final(self).genes@[i].coord == old(self).genes@[i].coord,
            old(self).genes@.len() > 0 ==> final(self).genes@[0] == old(self).genes@[0],
            single_seed(old(self).genes@) ==> single_seed(final(self).genes@),
    {
        let ghost g = self.genes@;
        let ghost s = rng@;
        let n = self.genes.len();
        if n > 1 {
            let idx = 1 + rng.below(n - 1);
            let parent = self.bias_parent(idx);
            let mut k = draws.choose_kind(rng, parent);
            match self.genes[idx].kind {
                AtomKind::Gate(_) => {
                    if rng.chance_odds(HALF_ODDS) {
                        let j = rng.below(6);
                        k = AtomKind::Gate(GateOp::ALL[j]);
                        proof {
                            assert(GateOp::ALL@[j as int] == gate_at(j as int));
                        }
                    }
                },
                _ => {},
            }
            let mut gene = self.genes[idx];
            gene.kind = k;
            self.genes.set(idx, gene);
            proof {
                assert(gene == with_kind(g[idx as int], k));
                assert(self.genes@[idx as int].kind == k);
                assert(idx as int == retype_index(g, s));
            }
        }
    }

    /// Turn a random atom (mutation step two of `mutate`).
    fn mutate_facing(&mut self, rng: &mut Rng)
        requires
            old(self).genes@.len() > 0,
        ensures
            final(self).genes@ == turned(old(self).genes@, old(rng)@),
            final(rng)@ == xorshift_next(xorshift_next(old(rng)@)),
            final(self).genes@.len() == old(self).genes@.len(),
            forall|i: int| 0 <= i < old(self).genes@.len() ==> #[trigger] final(self).genes@[i].coord == old(self).genes@[i].coord,
            forall|i: int| 0 <= i < old(self).genes@.len() ==> #[trigger] final(self).genes@[i].kind == old(self).genes@[i].kind,
    {
        let idx = rng.below(self.genes.len());
        let facing = Dir::from_index(rng.below(6));
        let mut gene = self.genes[idx];
        gene.facing = facing;
        self.genes.set(idx, gene);
        proof {
            assert(gene == with_facing(old(self).genes@[idx as int], facing));
        }
    }

    /// Nudge a random atom's parameter (mutation step three of `mutate`).
    fn mutate_param<K: Fn(u32, Cat) -> usize, P: Fn(u32) -> u32, N: Fn(u32, u32) -> u32>(
        &mut self,
        rng: &mut Rng,
        draws: &FloatDraws<K, P, N>,
    )
        requires
            old(self).genes@.len() > 0,
            draws.callable(),
        ensures
            nudged(*draws, old(self).genes@, old(rng)@, final(self).genes@, final(rng)@),
            final(self).genes@.len() == old(self).genes@.len(),
            forall|i: int| 0 <= i < old(self).genes@.len() ==> #[trigger] final(self).genes@[i].kind == old(self).genes@[i].kind,
            forall|i: int| 0 <= i < old(self).genes@.len() ==> #[trigger] final(self).genes@[i].coord == old(self).genes@[i].coord,
    {
        let idx = rng.below(self.genes.len());
        let bits = draws.nudge_param(rng, self.genes[idx].param_bits);
        let mut gene = self.genes[idx];
        gene.param_bits = bits;
        self.genes.set(idx, gene);
        proof {
            assert(gene == with_param(old(self).genes@[idx as int], bits));
            assert(final(self).genes@[idx as int].param_bits == bits);
        }
    }

    /// Remove a random non-seed atom and prune the islands this leaves
    /// (mutation step five of `mutate`).
    fn mutate_remove(&mut self, rng: &mut Rng)
        requires
            old(self).genes@.len() > 2,
            coords_interior(old(self).genes@),
        ensures
            final(self).genes@ == removed(old(self).genes@, old(rng)@),
            final(rng)@ == xorshift_next(old(rng)@),
            final(self).genes@.len() >= 1,
            final(self).genes@.len() < old(self).genes@.len(),
            final(self).genes@[0] == old(self).genes@[0],
            distinct_cells(old(self).genes@) ==> distinct_cells(final(self).genes@) && connected(
                final(self).genes@,
            ),
            forall|b: int| coords_within(old(self).genes@, b) ==> #[trigger] coords_within(final(self).genes@, b),
            single_seed(old(self).genes@) ==> single_seed(final(self).genes@),
    {
        let ghost g3 = self.genes@;
        let idx = 1 + rng.below(self.genes.len() - 1);
        self.genes.remove(idx);
        let ghost g4 = self.genes@;
        proof {
            assert(g4 == g3.remove(idx as int));
            assert forall|i: int| 0 <= i < g4.len() implies (#[trigger] g4[i]).coord.interior() by {
                if i < idx {
                    assert(g4[i] == g3[i]);
                } else {
                    assert(g4[i] == g3[i + 1]);
                }
            }
            assert forall|b: int| coords_within(g3, b) implies #[trigger] coords_within(g4, b) by {
                assert forall|i: int| 0 <= i < g4.len() implies -b <= (#[trigger] g4[i]).coord.q <= b && -b
                    <= g4[i].coord.r <= b by {
                    if i < idx {
                        assert(g4[i] == g3[i]);
                    } else {
                        assert(g4[i] == g3[i + 1]);
                    }
                }
            }
            if distinct_cells(g3) {
                assert forall|i: int, j: int|
                    0 <= i < g4.len() && 0 <= j < g4.len() && i != j implies (#[trigger] g4[i]).coord
                    != (#[trigger] g4[j]).coord by {
                    let ii = if i < idx { i } else { i + 1 };
                    let jj = if j < idx { j } else { j + 1 };
                    assert(g4[i] == g3[ii] && g4[j] == g3[jj]);
                }
            }
            assert(g4[0] == g3[0]);
        }
        self.prune_disconnected();
        proof {
            lemma_prune_keeps_seed(g4);
            if single_seed(g3) {
                assert(single_seed(g4)) by {
                    assert forall|i: int| 1 <= i < g4.len() implies (#[trigger] g4[i]).kind != AtomKind::Seed by {
                        if i < idx {
                            assert(g4[i] == g3[i]);
                        } else {
                            assert(g4[i] == g3[i + 1]);
                        }
                    }
                }
                lemma_select_single_seed(g4, |j: int| reachable(g4, j));
            }
            assert forall|b: int| coords_within(g3, b) implies #[trigger] coords_within(self.genes@, b) by {
                lemma_select_within(g4, |j: int| reachable(g4, j), b);
            }
            lemma_select_within(g4, |j: int| reachable(g4, j), 0);
            if distinct_cells(g4) {
                lemma_select_distinct(g4, |j: int| reachable(g4, j));
                lemma_pruned_is_connected(g4);
            }
        }
    }

    /// Apply reproduction-time mutations; each operator fires independently,
    /// in this order: re-type a random non-seed atom (biased by a bonded
    /// neighbour, or for a gate sometimes just a new operator), turn a random
    /// atom, nudge a random atom's parameter, grow a new atom (below
    /// `MAX_ATOMS`), and remove a random non-seed atom (above two atoms) and
    /// prune the islands this leaves. An empty genome is left empty, as long as
    /// neither the turn nor the nudge fires (they need an atom to act on).
    pub fn mutate<K: Fn(u32, Cat) -> usize, P: Fn(u32) -> u32, N: Fn(u32, u32) -> u32>(
        &mut self,
        rng: &mut Rng,
        draws: &FloatDraws<K, P, N>,
    )
        requires
            old(self).genes@.len() >= 1 || (!drawn_chance(xorshift_next(old(rng)@), MUT_ROTATE_ODDS)
                && !drawn_chance(xorshift_next(xorshift_next(old(rng)@)), MUT_PARAM_ODDS)),
            coords_mutable(old(self).genes@),
            draws.callable(),
        ensures
            mutated(*draws, old(self).genes@, old(rng)@, final(self).genes@, final(rng)@),
            old(self).genes@.len() == 0 ==> final(self).genes@.len() == 0,
            old(self).genes@.len() >= 1 ==> {
                &&& final(self).genes@.len() >= 1
                &&& final(self).genes@[0].coord == old(self).genes@[0].coord
                &&& final(self).genes@[0].kind == old(self).genes@[0].kind
            },
            final(self).genes@.len() <= old(self).genes@.len() + 1,
            old(self).genes@.len() >= MAX_ATOMS ==> final(self).genes@.len() <= old(self).genes@.len(),
            single_seed(old(self).genes@) ==> single_seed(final(self).genes@),
            distinct_cells(old(self).genes@) ==> distinct_cells(final(self).genes@),
            distinct_cells(old(self).genes@) && connected(old(self).genes@) ==> connected(
                final(self).genes@,
            ),
            forall|b: int|
                coords_within(old(self).genes@, b) ==> #[trigger] coords_within(final(self).genes@, b + 1),
    {
        let ghost g0 = self.genes@;
        let ghost s0 = rng@;
        proof {
            assert forall|i: int| 0 <= i < g0.len() implies (#[trigger] g0[i]).coord.interior() by {}
        }
        if rng.chance_odds(MUT_POINT_ODDS) {
            self.mutate_kind(rng, draws);
        }
        let ghost g1 = self.genes@;
        let ghost t1 = rng@;
        if rng.chance_odds(MUT_ROTATE_ODDS) {
            self.mutate_facing(rng);
        }
        let ghost g2 = self.genes@;
        let ghost t2 = rng@;
        if rng.chance_odds(MUT_PARAM_ODDS) {
            self.mutate_param(rng, draws);
        }
        let ghost g3 = self.genes@;
        let ghost t3 = rng@;
        proof {
            lemma_same_cells(g0, g1);
            lemma_same_cells(g1, g2);
            lemma_same_cells(g2, g3);
            lemma_same_cells(g0, g3);
            assert(coords_interior(g3));
            if single_seed(g0) {
                assert(single_seed(g2));
                assert forall|i: int| 1 <= i < g3.len() implies (#[trigger] g3[i]).kind != AtomKind::Seed by {
                    assert(g2[i].kind != AtomKind::Seed);
                }
            }
        }
        if rng.chance_odds(MUT_ADD_ODDS) && self.genes.len() < MAX_ATOMS {
            let ghost sg = rng@;
            self.grow_one(rng, draws);
            proof {
                lemma_grow_stays_interior(*draws, g0, g3, sg, self.genes@, rng@);
            }
        }
        let ghost g4 = self.genes@;
        let ghost t4 = rng@;
        if rng.chance_odds(MUT_REMOVE_ODDS) && self.genes.len() > 2 {
            self.mutate_remove(rng);
        }
        proof {
            assert forall|b: int| coords_within(g0, b) implies #[trigger] coords_within(self.genes@, b + 1) by {
                assert(coords_within(g3, b));
                assert(coords_within(g4, b + 1));
            }
            assert(mutation_steps(*draws, g0, s0, g1, t1, g2, t2, g3, t3, g4, t4, self.genes@, rng@));
        }
    }

    /// Keep only atoms connected to the seed by bonds; drop islands created by
    /// a removal so the molecule stays a single construct. The kept genes keep
    /// their order.
    pub fn prune_disconnected(&mut self)
        requires
            reachable_interior(old(self).genes@),
        ensures
            final(self).genes@ == connected_part(old(self).genes@),
    {
        let ghost g = self.genes@;
        let n = self.genes.len();
        if n == 0 {
            assert(connected_part(g) =~= g);
            return;
        }
        let occ = self.occupied();
        let mut keep: FxHashSet<usize> = fx_set_new();
        let mut queue: VecDeque<usize> = VecDeque::new();
        fx_set_insert(&mut keep, 0);
        queue.push_back(0);
        proof {
            assert(queue@[0] == 0);
            assert(keep@ == Set::<usize>::empty().insert(0));
            let p0 = seq![0int];
            assert(p0.last() == 0);
            assert(is_bond_path(g, p0));
        }
        loop
            invariant
                g == self.genes@,
                n == g.len(),
                n > 0,
                reachable_interior(g),
                forall|k: u64|
                    #![trigger occ@.contains_key(k)]
                    occ@.contains_key(k) <==> occupant(g, key_cell(k)) is Some,
                forall|k: u64|
                    #![trigger occ@[k]]
                    occ@.contains_key(k) ==> occ@[k] == occupant(g, key_cell(k))->0,
                keep@.finite(),
                keep@.contains(0),
                forall|j: usize| #[trigger] keep@.contains(j) ==> j < n && reachable(g, j as int),
                forall|t: int| 0 <= t < queue@.len() ==> keep@.contains(#[trigger] queue@[t]),
                forall|j: usize|
                    #[trigger] keep@.contains(j) ==> queue@.contains(j) || bonds_within(g, keep@, j as int),
                keep@.len() <= n,
            ensures
                queue@.len() == 0,
                keep@.finite(),
                keep@.contains(0),
                forall|j: usize| #[trigger] keep@.contains(j) ==> j < n && reachable(g, j as int),
                forall|j: usize|
                    #[trigger] keep@.contains(j) ==> queue@.contains(j) || bonds_within(g, keep@, j as int),
            decreases 2 * (n - keep@.len()) + queue@.len(),
        {
            let ghost qpre = queue@;
            let popped = queue.pop_front();
            match popped {
                None => {
                    break;
                },
                Some(i) => {
                    let ghost keep0 = keep@;
                    let ghost q0 = queue@;
                    assert(keep0.contains(i));
                    let c = self.genes[i].coord;
                    let mut k: usize = 0;
                    while k < 6
                        invariant
                            g == self.genes@,
                            n == g.len(),
                            reachable_interior(g),
                            forall|kk: u64|
                                #![trigger occ@.contains_key(kk)]
                                occ@.contains_key(kk) <==> occupant(g, key_cell(kk)) is Some,
                            forall|kk: u64|
                                #![trigger occ@[kk]]
                                occ@.contains_key(kk) ==> occ@[kk] == occupant(g, key_cell(kk))->0,
                            i < n,
                            c == g[i as int].coord,
                            reachable(g, i as int),
                            k <= 6,
                            keep@.finite(),
                            keep0.subset_of(keep@),
                            keep@.contains(0),
                            forall|j: usize| #[trigger] keep@.contains(j) ==> j < n && reachable(g, j as int),
                            forall|t: int| 0 <= t < queue@.len() ==> keep@.contains(#[trigger] queue@[t]),
                            forall|j: usize|
                                #[trigger] keep@.contains(j) && !keep0.contains(j) ==> queue@.contains(j),
                            queue@.len() + keep0.len() == q0.len() + keep@.len(),
                            queue@.len() >= q0.len(),
                            forall|t: int| 0 <= t < q0.len() ==> queue@[t] == q0[t],
                            forall|kk: int|
                                #![trigger c.stepped(Dir::nth(kk))]
                                0 <= kk < k ==> match occupant(g, c.stepped(Dir::nth(kk))) {
                                    Some(m) => keep@.contains(m as usize),
                                    None => true,
                                },
                        decreases 6 - k,
                    {
                        let d = Dir::from_index(k);
                        proof {
                            assert(g[i as int].coord.interior());
                        }
                        let cell = c.step(d);
                        let key = key_of(cell);
                        proof {
                            lemma_key_cell_inverse(cell);
                        }
                        match fx_map_get(&occ, key) {
                            Some(j) => {
                                proof {
                                    lemma_occupant(g, cell);
                                    lemma_reachable_step(g, i as int, j as int, k as int);
                                }
                                let ghost before = queue@;
                                let ghost keep_before = keep@;
                                if fx_set_insert(&mut keep, j) {
                                    queue.push_back(j);
                                    proof {
                                        assert(queue@[queue@.len() - 1] == j);
                                        assert forall|x: usize|
                                            #[trigger] keep@.contains(x) && !keep0.contains(x) implies queue@.contains(x) by {
                                            if x != j {
                                                assert(keep_before.contains(x));
                                                assert(before.contains(x));
                                                let t = choose|t: int| 0 <= t < before.len() && before[t] == x;
                                                assert(queue@[t] == x);
                                            }
                                        }
                                        assert forall|t: int| 0 <= t < queue@.len() implies keep@.contains(#[trigger] queue@[t]) by {
                                            if t < before.len() {
                                                assert(queue@[t] == before[t]);
                                            }
                                        }
                                    }
                                }
                            },
                            None => {},
                        }
                        k = k + 1;
                    }
                    proof {
                        assert(bonds_within(g, keep@, i as int));
                        assert forall|j: usize| #[trigger] keep@.contains(j) implies queue@.contains(j)
                            || bonds_within(g, keep@, j as int) by {
                            if j != i && keep0.contains(j) {
                                if qpre.contains(j) {
                                    let t = choose|t: int| 0 <= t < qpre.len() && qpre[t] == j;
                                    assert(t > 0);
                                    assert(q0[t - 1] == j);
                                    assert(queue@[t - 1] == j);
                                } else {
                                    assert(bonds_within(g, keep0, j as int));
                                    assert forall|kk: int| 0 <= kk < 6 implies match occupant(
                                        g,
                                        #[trigger] g[j as int].coord.stepped(Dir::nth(kk)),
                                    ) {
                                        Some(m) => keep@.contains(m as usize),
                                        None => true,
                                    } by {
                                        match occupant(g, g[j as int].coord.stepped(Dir::nth(kk))) {
                                            Some(m) => {
                                                assert(keep0.contains(m as usize));
                                            },
                                            None => {},
                                        }
                                    }
                                }
                            }
                        }
                        assert forall|x: usize| #[trigger] keep@.contains(x) implies x < n by {}
                        lemma_index_set(keep@, n);
                    }
                },
            }
        }
        proof {
            assert forall|j: usize| #[trigger] keep@.contains(j) implies j < n && bonds_within(g, keep@, j as int) by {
                if queue@.contains(j) {
                    let t = choose|t: int| 0 <= t < queue@.len() && queue@[t] == j;
                }
            }
            assert forall|j: int| 0 <= j < n implies (reachable(g, j) <==> #[trigger] keep@.contains(j as usize)) by {
                if reachable(g, j) {
                    let path = choose|path: Seq<int>| is_bond_path(g, path) && path[0] == 0 && #[trigger] path.last() == j;
                    lemma_closed_holds_reachable(g, keep@, path);
                }
            }
            lemma_select_ext(g, |j: int| reachable(g, j), |j: int| keep@.contains(j as usize));
        }
        let count = fx_set_len(&keep);
        if count != n {
            let mut kept: Vec<Gene> = Vec::new();
            let mut i: usize = 0;
            while i < n
                invariant
                    g == self.genes@,
                    n == g.len(),
                    i <= n,
                    kept@ == select(g.take(i as int), |j: int| keep@.contains(j as usize)),
                decreases n - i,
            {
                proof {
                    assert(g.take(i + 1).drop_last() =~= g.take(i as int));
                }
                if fx_set_contains(&keep, i) {
                    kept.push(self.genes[i]);
                }
                i = i + 1;
            }
            assert(g.take(n as int) =~= g);
            self.genes = kept;
        } else {
            proof {
                assert forall|x: usize| #[trigger] keep@.contains(x) implies x < n by {}
                lemma_index_set(keep@, n);
                lemma_select_all(g, |j: int| keep@.contains(j as usize));
            }
        }
    }
}

} // verus!
