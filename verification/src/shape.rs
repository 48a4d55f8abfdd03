//! The shape of a genome: which cells its atoms occupy, which atoms are
//! bonded, which are connected to the seed, and what pruning keeps.
//!
//! Atoms on neighbouring cells are bonded. A gene is connected when a chain of
//! bonds links it to the seed (gene 0). Pruning keeps exactly the connected
//! genes, in order; the laws here say that the result is one connected body on
//! distinct cells, that the seed stays first, and that pruning twice is pruning
//! once.

use crate::genome::Gene;
use crate::hex_grid::{Axial, Dir};
use vstd::prelude::*;

verus! {

/// Every gene sits where a step in any direction stays inside `i32`.
pub open spec fn coords_interior(genes: Seq<Gene>) -> bool {
    forall|i: int| 0 <= i < genes.len() ==> (#[trigger] genes[i]).coord.interior()
}

/// No two genes share a cell.
pub open spec fn distinct_cells(genes: Seq<Gene>) -> bool {
    forall|i: int, j: int|
        0 <= i < genes.len() && 0 <= j < genes.len() && i != j ==> (#[trigger] genes[i]).coord
            != (#[trigger] genes[j]).coord
}

/// The gene that occupies cell `c`: the last gene placed there, if any.
pub open spec fn occupant(genes: Seq<Gene>, c: Axial) -> Option<int>
    decreases genes.len(),
{
    if genes.len() == 0 {
        None
    } else if genes.last().coord == c {
        Some(genes.len() - 1)
    } else {
        occupant(genes.drop_last(), c)
    }
}

/// What `occupant` says of a cell: the index is in range, holds the cell, and
/// no later gene holds it; `None` exactly when no gene holds the cell.
pub proof fn lemma_occupant(genes: Seq<Gene>, c: Axial)
    ensures
        match occupant(genes, c) {
            Some(i) => {
                &&& 0 <= i < genes.len()
                &&& genes[i].coord == c
                &&& forall|j: int| i < j < genes.len() ==> genes[j].coord != c
            },
            None => forall|j: int| 0 <= j < genes.len() ==> genes[j].coord != c,
        },
    decreases genes.len(),
{
    if genes.len() > 0 {
        let rest = genes.drop_last();
        lemma_occupant(rest, c);
        assert(forall|j: int| 0 <= j < rest.len() ==> rest[j] == genes[j]);
    }
}

/// With distinct cells, the occupant of a gene's own cell is that gene.
pub proof fn lemma_occupant_distinct(genes: Seq<Gene>, i: int)
    requires
        distinct_cells(genes),
        0 <= i < genes.len(),
    ensures
        occupant(genes, genes[i].coord) == Some(i),
{
    lemma_occupant(genes, genes[i].coord);
    match occupant(genes, genes[i].coord) {
        Some(j) => {
            if j != i {
                assert(genes[j].coord == genes[i].coord);
            }
        },
        None => {
            assert(genes[i].coord == genes[i].coord);
        },
    }
}

/// Gene `i` is bonded to gene `j`: `j` occupies one of the six cells around `i`.
pub open spec fn bonded(genes: Seq<Gene>, i: int, j: int) -> bool {
    exists|k: int| 0 <= k < 6 && occupant(genes, #[trigger] genes[i].coord.stepped(Dir::nth(k))) == Some(j)
}

/// `path` is a chain of bonded genes.
pub open spec fn is_bond_path(genes: Seq<Gene>, path: Seq<int>) -> bool {
    &&& path.len() >= 1
    &&& forall|k: int| 0 <= k < path.len() ==> 0 <= #[trigger] path[k] < genes.len()
    &&& forall|k: int| 0 <= k < path.len() - 1 ==> bonded(genes, #[trigger] path[k], path[k + 1])
}

/// Gene `j` is connected to the seed (gene 0) by a chain of bonds.
pub open spec fn reachable(genes: Seq<Gene>, j: int) -> bool {
    exists|path: Seq<int>|
        is_bond_path(genes, path) && path[0] == 0 && #[trigger] path.last() == j
}

/// The genes of `genes` whose index satisfies `keep`, in their order.
pub open spec fn select(genes: Seq<Gene>, keep: spec_fn(int) -> bool) -> Seq<Gene>
    decreases genes.len(),
{
    if genes.len() == 0 {
        Seq::empty()
    } else {
        let rest = select(genes.drop_last(), keep);
        if keep(genes.len() - 1) {
            rest.push(genes.last())
        } else {
            rest
        }
    }
}

/// The genes still connected to the seed, in their order; empty for an empty
/// genome.
pub open spec fn connected_part(genes: Seq<Gene>) -> Seq<Gene> {
    select(genes, |j: int| reachable(genes, j))
}

/// Every gene connected to the seed sits where a step in any direction stays
/// inside `i32`.
pub open spec fn reachable_interior(genes: Seq<Gene>) -> bool {
    forall|j: int| 0 <= j < genes.len() && #[trigger] reachable(genes, j) ==> genes[j].coord.interior()
}

/// Every neighbour (by bond) of gene `j` is a member of `keep`.
pub open spec fn bonds_within(genes: Seq<Gene>, keep: Set<usize>, j: int) -> bool {
    forall|k: int|
        #![trigger genes[j].coord.stepped(Dir::nth(k))]
        0 <= k < 6 ==> match occupant(genes, genes[j].coord.stepped(Dir::nth(k))) {
            Some(m) => keep.contains(m as usize),
            None => true,
        }
}

/// A gene bonded to a gene connected to the seed is itself connected.
pub(crate) proof fn lemma_reachable_step(genes: Seq<Gene>, i: int, j: int, k: int)
    requires
        reachable(genes, i),
        0 <= k < 6,
        occupant(genes, genes[i].coord.stepped(Dir::nth(k))) == Some(j),
    ensures
        reachable(genes, j),
{
    lemma_occupant(genes, genes[i].coord.stepped(Dir::nth(k)));
    let path = choose|path: Seq<int>| is_bond_path(genes, path) && path[0] == 0 && #[trigger] path.last() == i;
    let p2 = path.push(j);
    assert(bonded(genes, i, j));
    assert forall|t: int| 0 <= t < p2.len() - 1 implies bonded(genes, #[trigger] p2[t], p2[t + 1]) by {
        if t < path.len() - 1 {
            assert(p2[t] == path[t] && p2[t + 1] == path[t + 1]);
        } else {
            assert(p2[t] == i && p2[t + 1] == j);
        }
    }
    assert(p2.last() == j);
    assert(is_bond_path(genes, p2));
}

/// A set of genes that holds the seed and every bond neighbour of each of its
/// members holds every gene connected to the seed.
pub(crate) proof fn lemma_closed_holds_reachable(genes: Seq<Gene>, keep: Set<usize>, path: Seq<int>)
    requires
        genes.len() <= usize::MAX,
        keep.contains(0),
        forall|j: usize| #[trigger] keep.contains(j) ==> j < genes.len() && bonds_within(genes, keep, j as int),
        is_bond_path(genes, path),
        path[0] == 0,
    ensures
        keep.contains(path.last() as usize),
    decreases path.len(),
{
    if path.len() > 1 {
        let prefix = path.drop_last();
        assert(is_bond_path(genes, prefix)) by {
            assert forall|t: int| 0 <= t < prefix.len() - 1 implies bonded(genes, #[trigger] prefix[t], prefix[t + 1]) by {
                assert(prefix[t] == path[t] && prefix[t + 1] == path[t + 1]);
            }
            assert forall|t: int| 0 <= t < prefix.len() implies 0 <= #[trigger] prefix[t] < genes.len() by {
                assert(prefix[t] == path[t]);
            }
        }
        lemma_closed_holds_reachable(genes, keep, prefix);
        let a = prefix.last();
        let b = path.last();
        assert(a == path[path.len() - 2]);
        assert(bonded(genes, a, b));
        let k = choose|k: int| 0 <= k < 6 && occupant(genes, #[trigger] genes[a].coord.stepped(Dir::nth(k))) == Some(b);
        assert(keep.contains(a as usize));
        assert(bonds_within(genes, keep, a));
        assert(genes[a].coord.stepped(Dir::nth(k)) == genes[a].coord.stepped(Dir::nth(k)));
    }
}

/// `select` looks only at the predicate on the indices in range.
pub(crate) proof fn lemma_select_ext(genes: Seq<Gene>, p: spec_fn(int) -> bool, q: spec_fn(int) -> bool)
    requires
        forall|i: int| 0 <= i < genes.len() ==> #[trigger] p(i) == q(i),
    ensures
        select(genes, p) == select(genes, q),
    decreases genes.len(),
{
    if genes.len() > 0 {
        lemma_select_ext(genes.drop_last(), p, q);
    }
}

/// Selecting with a predicate that holds on every index keeps everything.
pub(crate) proof fn lemma_select_all(genes: Seq<Gene>, p: spec_fn(int) -> bool)
    requires
        forall|i: int| 0 <= i < genes.len() ==> #[trigger] p(i),
    ensures
        select(genes, p) == genes,
    decreases genes.len(),
{
    if genes.len() > 0 {
        lemma_select_all(genes.drop_last(), p);
        assert(genes.drop_last().push(genes.last()) =~= genes);
    }
}

/// The set of `usize` values below `n`.
pub open spec fn below_set(n: usize) -> Set<usize> {
    Set::new(|x: usize| x < n)
}

pub(crate) proof fn lemma_below_set(n: usize)
    ensures
        below_set(n).finite(),
        below_set(n).len() == n,
    decreases n,
{
    if n == 0 {
        assert(below_set(0) =~= Set::<usize>::empty());
    } else {
        lemma_below_set((n - 1) as usize);
        assert(below_set((n - 1) as usize).insert((n - 1) as usize) =~= below_set(n));
    }
}

/// A finite set of indices below `n` has at most `n` members, and holds every
/// index below `n` when it has exactly `n`.
pub(crate) proof fn lemma_index_set(s: Set<usize>, n: usize)
    requires
        s.finite(),
        forall|x: usize| #[trigger] s.contains(x) ==> x < n,
    ensures
        s.len() <= n,
        s.len() == n ==> forall|x: usize| x < n ==> #[trigger] s.contains(x),
{
    lemma_below_set(n);
    assert(s.subset_of(below_set(n)));
    vstd::set_lib::lemma_len_subset(s, below_set(n));
    if s.len() == n {
        vstd::set_lib::lemma_subset_equality(s, below_set(n));
    }
}

/// Selecting keeps only genes it was given, so it keeps coordinates
/// interior.
pub proof fn lemma_select_interior(genes: Seq<Gene>, p: spec_fn(int) -> bool)
    requires
        coords_interior(genes),
    ensures
        coords_interior(select(genes, p)),
    decreases genes.len(),
{
    if genes.len() > 0 {
        let rest = genes.drop_last();
        assert(coords_interior(rest)) by {
            assert forall|t: int| 0 <= t < rest.len() implies (#[trigger] rest[t]).coord.interior() by {
                assert(rest[t] == genes[t]);
            }
        }
        lemma_select_interior(rest, p);
        let r = select(rest, p);
        if p(genes.len() - 1) {
            let s = r.push(genes.last());
            assert forall|t: int| 0 <= t < s.len() implies (#[trigger] s[t]).coord.interior() by {
                if t < r.len() {
                    assert(s[t] == r[t]);
                }
            }
        }
    }
}

/// The position gene `i` takes among the genes kept by `p`.
pub open spec fn rank(genes: Seq<Gene>, p: spec_fn(int) -> bool, i: int) -> int {
    select(genes.take(i), p).len() as int
}

pub(crate) proof fn lemma_select_rank(genes: Seq<Gene>, p: spec_fn(int) -> bool, i: int)
    requires
        0 <= i < genes.len(),
        p(i),
    ensures
        rank(genes, p, i) < select(genes, p).len(),
        select(genes, p)[rank(genes, p, i)] == genes[i],
    decreases genes.len(),
{
    let n = genes.len();
    let rest = genes.drop_last();
    if i == n - 1 {
        assert(genes.take(i) =~= rest);
    } else {
        lemma_select_rank(rest, p, i);
        assert(rest.take(i) =~= genes.take(i));
        assert(rest[i] == genes[i]);
    }
}

pub(crate) proof fn lemma_select_source(genes: Seq<Gene>, p: spec_fn(int) -> bool, t: int)
    requires
        0 <= t < select(genes, p).len(),
    ensures
        exists|i: int| 0 <= i < genes.len() && p(i) && #[trigger] rank(genes, p, i) == t,
    decreases genes.len(),
{
    let n = genes.len();
    let rest = genes.drop_last();
    if t < select(rest, p).len() {
        lemma_select_source(rest, p, t);
        let i = choose|i: int| 0 <= i < rest.len() && p(i) && #[trigger] rank(rest, p, i) == t;
        assert(rest.take(i) =~= genes.take(i));
        assert(rank(genes, p, i) == t);
    } else {
        assert(genes.take(n - 1) =~= rest);
        assert(rank(genes, p, n - 1) == t);
    }
}

/// Selecting from genes on distinct cells leaves genes on distinct cells.
pub proof fn lemma_select_distinct(genes: Seq<Gene>, p: spec_fn(int) -> bool)
    requires
        distinct_cells(genes),
    ensures
        distinct_cells(select(genes, p)),
{
    let r = select(genes, p);
    assert forall|t1: int, t2: int|
        0 <= t1 < r.len() && 0 <= t2 < r.len() && t1 != t2 implies (#[trigger] r[t1]).coord
        != (#[trigger] r[t2]).coord by {
        lemma_select_source(genes, p, t1);
        lemma_select_source(genes, p, t2);
        let i1 = choose|i: int| 0 <= i < genes.len() && p(i) && #[trigger] rank(genes, p, i) == t1;
        let i2 = choose|i: int| 0 <= i < genes.len() && p(i) && #[trigger] rank(genes, p, i) == t2;
        lemma_select_rank(genes, p, i1);
        lemma_select_rank(genes, p, i2);
        assert(genes[i1] == r[t1] && genes[i2] == r[t2]);
    }
}

/// Bonds between kept genes survive selection (for genes on distinct cells).
pub(crate) proof fn lemma_bond_kept(genes: Seq<Gene>, p: spec_fn(int) -> bool, a: int, b: int)
    requires
        distinct_cells(genes),
        0 <= a < genes.len(),
        0 <= b < genes.len(),
        p(a),
        p(b),
        bonded(genes, a, b),
    ensures
        bonded(select(genes, p), rank(genes, p, a), rank(genes, p, b)),
{
    let r = select(genes, p);
    let k = choose|k: int| 0 <= k < 6 && occupant(genes, #[trigger] genes[a].coord.stepped(Dir::nth(k))) == Some(b);
    let cell = genes[a].coord.stepped(Dir::nth(k));
    lemma_occupant(genes, cell);
    lemma_select_rank(genes, p, a);
    lemma_select_rank(genes, p, b);
    lemma_select_distinct(genes, p);
    lemma_occupant_distinct(r, rank(genes, p, b));
    assert(r[rank(genes, p, a)].coord.stepped(Dir::nth(k)) == cell);
    assert(occupant(r, r[rank(genes, p, a)].coord.stepped(Dir::nth(k))) == Some(rank(genes, p, b)));
}

/// Every gene on a bond path from the seed is itself connected to the seed.
pub(crate) proof fn lemma_path_members_reachable(genes: Seq<Gene>, path: Seq<int>, s: int)
    requires
        is_bond_path(genes, path),
        path[0] == 0,
        0 <= s < path.len(),
    ensures
        reachable(genes, path[s]),
{
    let pre = path.take(s + 1);
    assert forall|t: int| 0 <= t < pre.len() - 1 implies bonded(genes, #[trigger] pre[t], pre[t + 1]) by {
        assert(pre[t] == path[t] && pre[t + 1] == path[t + 1]);
    }
    assert forall|t: int| 0 <= t < pre.len() implies 0 <= #[trigger] pre[t] < genes.len() by {
        assert(pre[t] == path[t]);
    }
    assert(is_bond_path(genes, pre));
    assert(pre.last() == path[s]);
}

/// After pruning, the genes still sit on distinct cells within the `i32`
/// range, and the seed (gene 0) stays first.
pub proof fn lemma_prune_keeps_shape(genes: Seq<Gene>)
    requires
        coords_interior(genes),
        distinct_cells(genes),
    ensures
        coords_interior(connected_part(genes)),
        distinct_cells(connected_part(genes)),
        genes.len() > 0 ==> connected_part(genes).len() > 0 && connected_part(genes)[0] == genes[0],
{
    let p = |j: int| reachable(genes, j);
    lemma_select_interior(genes, p);
    lemma_select_distinct(genes, p);
    if genes.len() > 0 {
        let p0 = seq![0int];
        assert(p0.last() == 0);
        assert(is_bond_path(genes, p0));
        assert(p(0));
        lemma_select_rank(genes, p, 0);
        assert(genes.take(0) =~= Seq::<Gene>::empty());
    }
}

/// After pruning, the molecule is a single construct: every kept gene is
/// connected to the seed by bonds among the kept genes.
pub proof fn lemma_pruned_is_connected(genes: Seq<Gene>)
    requires
        coords_interior(genes),
        distinct_cells(genes),
    ensures
        forall|t: int| 0 <= t < connected_part(genes).len() ==> #[trigger] reachable(connected_part(genes), t),
{
    let p = |j: int| reachable(genes, j);
    let r = connected_part(genes);
    assert forall|t: int| 0 <= t < r.len() implies #[trigger] reachable(r, t) by {
        lemma_select_source(genes, p, t);
        let i = choose|i: int| 0 <= i < genes.len() && p(i) && #[trigger] rank(genes, p, i) == t;
        let path = choose|path: Seq<int>| is_bond_path(genes, path) && path[0] == 0 && #[trigger] path.last() == i;
        let mapped = Seq::new(path.len(), |s: int| rank(genes, p, path[s]));
        assert forall|s: int| 0 <= s < mapped.len() implies 0 <= #[trigger] mapped[s] < r.len() by {
            lemma_path_members_reachable(genes, path, s);
            lemma_select_rank(genes, p, path[s]);
        }
        assert forall|s: int| 0 <= s < mapped.len() - 1 implies bonded(r, #[trigger] mapped[s], mapped[s + 1]) by {
            lemma_path_members_reachable(genes, path, s);
            lemma_path_members_reachable(genes, path, s + 1);
            lemma_bond_kept(genes, p, path[s], path[s + 1]);
        }
        assert(genes.take(0) =~= Seq::<Gene>::empty());
        assert(mapped[0] == 0);
        assert(mapped.last() == t);
        assert(is_bond_path(r, mapped));
    }
}

/// Pruning twice is pruning once.
pub proof fn lemma_prune_idempotent(genes: Seq<Gene>)
    requires
        coords_interior(genes),
        distinct_cells(genes),
    ensures
        connected_part(connected_part(genes)) == connected_part(genes),
{
    let r = connected_part(genes);
    lemma_pruned_is_connected(genes);
    lemma_select_all(r, |j: int| reachable(r, j));
}

/// Every gene lies in the square `[-b, b] x [-b, b]` of axial coordinates.
pub open spec fn coords_within(genes: Seq<Gene>, b: int) -> bool {
    forall|i: int|
        0 <= i < genes.len() ==> -b <= (#[trigger] genes[i]).coord.q <= b && -b <= genes[i].coord.r
            <= b
}

/// Every gene is connected to the seed: the molecule is a single construct.
pub open spec fn connected(genes: Seq<Gene>) -> bool {
    forall|j: int| 0 <= j < genes.len() ==> #[trigger] reachable(genes, j)
}

/// Selecting keeps every gene inside a square that held them all, and never
/// lengthens the genome.
pub proof fn lemma_select_within(genes: Seq<Gene>, p: spec_fn(int) -> bool, b: int)
    ensures
        select(genes, p).len() <= genes.len(),
        coords_within(genes, b) ==> coords_within(select(genes, p), b),
    decreases genes.len(),
{
    if genes.len() > 0 {
        let rest = genes.drop_last();
        lemma_select_within(rest, p, b);
        if coords_within(genes, b) {
            assert(coords_within(rest, b)) by {
                assert forall|t: int| 0 <= t < rest.len() implies -b <= (#[trigger] rest[t]).coord.q <= b
                    && -b <= rest[t].coord.r <= b by {
                    assert(rest[t] == genes[t]);
                }
            }
            let r = select(rest, p);
            if p(genes.len() - 1) {
                let s = r.push(genes.last());
                assert forall|t: int| 0 <= t < s.len() implies -b <= (#[trigger] s[t]).coord.q <= b && -b
                    <= s[t].coord.r <= b by {
                    if t < r.len() {
                        assert(s[t] == r[t]);
                    }
                }
            }
        }
    }
}

/// The seed is always connected to itself, so the genes kept by pruning start
/// with gene 0.
pub proof fn lemma_prune_keeps_seed(genes: Seq<Gene>)
    requires
        genes.len() > 0,
    ensures
        connected_part(genes).len() > 0,
        connected_part(genes)[0] == genes[0],
{
    let p = |j: int| reachable(genes, j);
    let p0 = seq![0int];
    assert(p0.last() == 0);
    assert(is_bond_path(genes, p0));
    assert(p(0));
    lemma_select_rank(genes, p, 0);
    assert(genes.take(0) =~= Seq::<Gene>::empty());
}

pub(crate) proof fn lemma_same_cells_occupant(g1: Seq<Gene>, g2: Seq<Gene>, c: Axial)
    requires
        g1.len() == g2.len(),
        forall|i: int| 0 <= i < g1.len() ==> #[trigger] g1[i].coord == g2[i].coord,
    ensures
        occupant(g1, c) == occupant(g2, c),
    decreases g1.len(),
{
    if g1.len() > 0 {
        let r1 = g1.drop_last();
        let r2 = g2.drop_last();
        assert forall|i: int| 0 <= i < r1.len() implies #[trigger] r1[i].coord == r2[i].coord by {
            assert(r1[i] == g1[i] && r2[i] == g2[i]);
        }
        lemma_same_cells_occupant(r1, r2, c);
    }
}

/// Connectivity and distinctness depend only on where the genes sit: changing
/// kinds, facings or parameters leaves them as they were.
pub proof fn lemma_same_cells(g1: Seq<Gene>, g2: Seq<Gene>)
    requires
        g1.len() == g2.len(),
        forall|i: int| 0 <= i < g1.len() ==> #[trigger] g1[i].coord == g2[i].coord,
    ensures
        distinct_cells(g1) == distinct_cells(g2),
        connected(g1) == connected(g2),
        forall|b: int| coords_within(g1, b) == #[trigger] coords_within(g2, b),
        coords_interior(g1) == coords_interior(g2),
{
    assert forall|c: Axial| occupant(g1, c) == #[trigger] occupant(g2, c) by {
        lemma_same_cells_occupant(g1, g2, c);
    }
    assert forall|i: int, j: int| 0 <= i < g1.len() implies bonded(g1, i, j) == #[trigger] bonded(g2, i, j) by {
        assert(g1[i].coord == g2[i].coord);
        if bonded(g1, i, j) {
            let k = choose|k: int| 0 <= k < 6 && occupant(g1, #[trigger] g1[i].coord.stepped(Dir::nth(k))) == Some(j);
            assert(occupant(g2, g2[i].coord.stepped(Dir::nth(k))) == Some(j));
        }
        if bonded(g2, i, j) {
            let k = choose|k: int| 0 <= k < 6 && occupant(g2, #[trigger] g2[i].coord.stepped(Dir::nth(k))) == Some(j);
            assert(occupant(g1, g1[i].coord.stepped(Dir::nth(k))) == Some(j));
        }
    }
    assert forall|path: Seq<int>| is_bond_path(g1, path) == #[trigger] is_bond_path(g2, path) by {
        if is_bond_path(g1, path) {
            assert forall|t: int| 0 <= t < path.len() - 1 implies bonded(g2, #[trigger] path[t], path[t + 1]) by {
                assert(bonded(g1, path[t], path[t + 1]));
                assert(0 <= path[t] < g1.len());
            }
        }
        if is_bond_path(g2, path) {
            assert forall|t: int| 0 <= t < path.len() - 1 implies bonded(g1, #[trigger] path[t], path[t + 1]) by {
                assert(bonded(g2, path[t], path[t + 1]));
                assert(0 <= path[t] < g1.len());
            }
        }
    }
    assert forall|j: int| reachable(g1, j) == #[trigger] reachable(g2, j) by {
        if reachable(g1, j) {
            let path = choose|path: Seq<int>| is_bond_path(g1, path) && path[0] == 0 && #[trigger] path.last() == j;
            assert(is_bond_path(g2, path));
        }
        if reachable(g2, j) {
            let path = choose|path: Seq<int>| is_bond_path(g2, path) && path[0] == 0 && #[trigger] path.last() == j;
            assert(is_bond_path(g1, path));
        }
    }
    assert(connected(g1) == connected(g2)) by {
        if connected(g1) {
            assert forall|j: int| 0 <= j < g2.len() implies #[trigger] reachable(g2, j) by {
                assert(reachable(g1, j));
            }
        }
        if connected(g2) {
            assert forall|j: int| 0 <= j < g1.len() implies #[trigger] reachable(g1, j) by {
                assert(reachable(g2, j));
            }
        }
    }
    assert(distinct_cells(g1) == distinct_cells(g2)) by {
        if distinct_cells(g1) {
            assert forall|i: int, j: int|
                0 <= i < g2.len() && 0 <= j < g2.len() && i != j implies (#[trigger] g2[i]).coord
                != (#[trigger] g2[j]).coord by {
                assert(g1[i].coord != g1[j].coord);
            }
        }
        if distinct_cells(g2) {
            assert forall|i: int, j: int|
                0 <= i < g1.len() && 0 <= j < g1.len() && i != j implies (#[trigger] g1[i]).coord
                != (#[trigger] g1[j]).coord by {
                assert(g2[i].coord != g2[j].coord);
            }
        }
    }
    assert forall|b: int| coords_within(g1, b) == #[trigger] coords_within(g2, b) by {
        if coords_within(g1, b) {
            assert forall|i: int| 0 <= i < g2.len() implies -b <= (#[trigger] g2[i]).coord.q <= b && -b
                <= g2[i].coord.r <= b by {
                assert(g1[i].coord == g2[i].coord);
            }
        }
        if coords_within(g2, b) {
            assert forall|i: int| 0 <= i < g1.len() implies -b <= (#[trigger] g1[i]).coord.q <= b && -b
                <= g1[i].coord.r <= b by {
                assert(g1[i].coord == g2[i].coord);
            }
        }
    }
    assert(coords_interior(g1) == coords_interior(g2)) by {
        if coords_interior(g1) {
            assert forall|i: int| 0 <= i < g2.len() implies (#[trigger] g2[i]).coord.interior() by {
                assert(g1[i].coord == g2[i].coord);
            }
        }
        if coords_interior(g2) {
            assert forall|i: int| 0 <= i < g1.len() implies (#[trigger] g1[i]).coord.interior() by {
                assert(g1[i].coord == g2[i].coord);
            }
        }
    }
}

/// Removing atoms other than the seed, then pruning, keeps the seed first.
pub proof fn lemma_removal_keeps_seed(genes: Seq<Gene>, victims: Seq<usize>)
    requires
        genes.len() > 0,
        !victims.contains(0),
    ensures
        ({
            let rest = select(genes, |j: int| !victims.contains(j as usize));
            &&& rest.len() > 0
            &&& rest[0] == genes[0]
            &&& connected_part(rest).len() > 0
            &&& connected_part(rest)[0] == genes[0]
        }),
{
    let p = |j: int| !victims.contains(j as usize);
    assert(p(0));
    lemma_select_rank(genes, p, 0);
    assert(genes.take(0) =~= Seq::<Gene>::empty());
    lemma_prune_keeps_seed(select(genes, p));
}

} // verus!
