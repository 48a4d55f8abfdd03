//! Where a genome can grow: the free cells next to its atoms.
//!
//! Growth is organic: atoms are added one at a time onto free neighbouring
//! cells. The laws here say that every listed site is such a cell, that a
//! non-empty body always has one, and that attaching an atom there keeps the
//! atoms on distinct cells and a connected body connected.

use crate::genome::Gene;
use crate::hex_grid::{Axial, Dir};
use crate::shape::{
    bonded, coords_interior, distinct_cells, is_bond_path, lemma_occupant, occupant, reachable,
};
use vstd::prelude::*;

verus! {

/// Free cells around gene `i`, over the first `k` directions in order, as
/// `(parent index, direction, cell)`.
pub open spec fn dir_sites(genes: Seq<Gene>, i: int, k: int) -> Seq<(usize, Dir, Axial)>
    decreases k,
{
    if k <= 0 {
        Seq::empty()
    } else {
        let rest = dir_sites(genes, i, k - 1);
        let d = Dir::nth(k - 1);
        let c = genes[i].coord.stepped(d);
        if occupant(genes, c) is None {
            rest.push((i as usize, d, c))
        } else {
            rest
        }
    }
}

/// Free cells around the first `n` genes, gene by gene, direction by direction.
pub open spec fn sites_upto(genes: Seq<Gene>, n: int) -> Seq<(usize, Dir, Axial)>
    decreases n,
{
    if n <= 0 {
        Seq::empty()
    } else {
        sites_upto(genes, n - 1) + dir_sites(genes, n - 1, 6)
    }
}

/// Every place a new atom can attach: each free cell next to each gene, listed
/// per gene in gene order and per gene in direction order (a cell next to two
/// genes is listed once for each).
pub open spec fn growth_sites(genes: Seq<Gene>) -> Seq<(usize, Dir, Axial)> {
    sites_upto(genes, genes.len() as int)
}

/// A growth site is a free cell one step from its parent gene.
pub open spec fn is_growth_site(genes: Seq<Gene>, s: (usize, Dir, Axial)) -> bool {
    &&& s.0 < genes.len()
    &&& s.2 == genes[s.0 as int].coord.stepped(s.1)
    &&& forall|j: int| 0 <= j < genes.len() ==> genes[j].coord != s.2
}

pub(crate) proof fn lemma_dir_sites(genes: Seq<Gene>, i: int, k: int)
    requires
        0 <= i < genes.len() <= usize::MAX,
    ensures
        forall|t: int| 0 <= t < dir_sites(genes, i, k).len() ==> is_growth_site(genes, #[trigger] dir_sites(genes, i, k)[t]),
    decreases k,
{
    if k > 0 {
        lemma_dir_sites(genes, i, k - 1);
        let c = genes[i].coord.stepped(Dir::nth(k - 1));
        lemma_occupant(genes, c);
        let rest = dir_sites(genes, i, k - 1);
        if occupant(genes, c) is None {
            let s = rest.push((i as usize, Dir::nth(k - 1), c));
            assert forall|t: int| 0 <= t < s.len() implies is_growth_site(genes, #[trigger] s[t]) by {
                if t < rest.len() {
                    assert(s[t] == rest[t]);
                }
            }
        }
    }
}

pub(crate) proof fn lemma_sites_upto(genes: Seq<Gene>, n: int)
    requires
        0 <= n <= genes.len() <= usize::MAX,
    ensures
        forall|t: int| 0 <= t < sites_upto(genes, n).len() ==> is_growth_site(genes, #[trigger] sites_upto(genes, n)[t]),
    decreases n,
{
    if n > 0 {
        lemma_sites_upto(genes, n - 1);
        lemma_dir_sites(genes, n - 1, 6);
        let a = sites_upto(genes, n - 1);
        let b = dir_sites(genes, n - 1, 6);
        assert forall|t: int| 0 <= t < (a + b).len() implies is_growth_site(genes, #[trigger] (a + b)[t]) by {
            if t < a.len() {
                assert((a + b)[t] == a[t]);
            } else {
                assert((a + b)[t] == b[t - a.len()]);
            }
        }
    }
}

/// Every listed growth site is a free cell one step from its parent.
pub proof fn lemma_growth_sites(genes: Seq<Gene>)
    requires
        genes.len() <= usize::MAX,
    ensures
        forall|t: int| 0 <= t < growth_sites(genes).len() ==> is_growth_site(genes, #[trigger] growth_sites(genes)[t]),
{
    lemma_sites_upto(genes, genes.len() as int);
}

pub(crate) proof fn lemma_dir_sites_len(genes: Seq<Gene>, i: int, k: int)
    ensures
        k >= 0 ==> dir_sites(genes, i, k).len() <= dir_sites(genes, i, k + 1).len(),
    decreases k,
{
}

pub(crate) proof fn lemma_dir_sites_grow(genes: Seq<Gene>, i: int, k: int, m: int)
    requires
        0 <= k <= m,
    ensures
        dir_sites(genes, i, k).len() <= dir_sites(genes, i, m).len(),
    decreases m - k,
{
    if k < m {
        lemma_dir_sites_len(genes, i, m - 1);
        lemma_dir_sites_grow(genes, i, k, m - 1);
    }
}

pub(crate) proof fn lemma_sites_upto_grow(genes: Seq<Gene>, n: int, m: int)
    requires
        0 <= n <= m,
    ensures
        sites_upto(genes, n).len() <= sites_upto(genes, m).len(),
    decreases m - n,
{
    if n < m {
        lemma_sites_upto_grow(genes, n, m - 1);
    }
}

pub(crate) proof fn lemma_max_q(genes: Seq<Gene>) -> (i: int)
    requires
        genes.len() > 0,
    ensures
        0 <= i < genes.len(),
        forall|j: int| 0 <= j < genes.len() ==> #[trigger] genes[j].coord.q <= genes[i].coord.q,
    decreases genes.len(),
{
    if genes.len() == 1 {
        0
    } else {
        let rest = genes.drop_last();
        let k = lemma_max_q(rest);
        assert forall|j: int| 0 <= j < rest.len() implies #[trigger] genes[j].coord.q <= rest[k].coord.q by {
            assert(rest[j] == genes[j]);
        }
        if genes.last().coord.q > rest[k].coord.q {
            genes.len() - 1
        } else {
            k
        }
    }
}

/// A non-empty body always has an exposed edge: the cell east of its
/// easternmost atom is free, so growth never runs out of places.
pub proof fn lemma_growth_possible(genes: Seq<Gene>)
    requires
        genes.len() > 0,
        coords_interior(genes),
    ensures
        growth_sites(genes).len() > 0,
{
    let i = lemma_max_q(genes);
    let c = genes[i].coord.stepped(Dir::East);
    assert(genes[i].coord.interior());
    lemma_occupant(genes, c);
    assert(Dir::nth(2) == Dir::East);
    assert(dir_sites(genes, i, 3).len() == dir_sites(genes, i, 2).len() + 1);
    lemma_dir_sites_grow(genes, i, 3, 6);
    lemma_sites_upto_grow(genes, i + 1, genes.len() as int);
}

/// Attaching a new atom at a growth site keeps every atom on its own cell,
/// bonds the new atom to its parent, and keeps a connected body connected.
pub proof fn lemma_attach_at_growth_site(genes: Seq<Gene>, site: (usize, Dir, Axial), gene: Gene)
    requires
        distinct_cells(genes),
        is_growth_site(genes, site),
        gene.coord == site.2,
    ensures
        distinct_cells(genes.push(gene)),
        bonded(genes.push(gene), site.0 as int, genes.len() as int),
        (forall|j: int| 0 <= j < genes.len() ==> #[trigger] reachable(genes, j)) ==> (forall|j: int|
            0 <= j < genes.len() + 1 ==> #[trigger] reachable(genes.push(gene), j)),
{
    let g2 = genes.push(gene);
    let n = genes.len() as int;
    assert forall|i: int, j: int|
        0 <= i < g2.len() && 0 <= j < g2.len() && i != j implies (#[trigger] g2[i]).coord
        != (#[trigger] g2[j]).coord by {
        if i < n && j < n {
            assert(g2[i] == genes[i] && g2[j] == genes[j]);
        } else if i == n {
            assert(g2[j] == genes[j]);
        } else {
            assert(g2[i] == genes[i]);
        }
    }
    // Cells occupied before the attachment keep their occupant.
    assert forall|c: Axial| occupant(genes, c) is Some implies #[trigger] occupant(g2, c) == occupant(genes, c) by {
        lemma_occupant(genes, c);
        assert(g2.drop_last() =~= genes);
    }
    let p = site.0 as int;
    let k = site.1.idx();
    crate::hex_grid::lemma_index_roundtrip(site.1, 0);
    assert(g2.drop_last() =~= genes);
    assert(g2[p] == genes[p]);
    assert(g2[p].coord.stepped(Dir::nth(k)) == gene.coord);
    assert(occupant(g2, g2[p].coord.stepped(Dir::nth(k))) == Some(n));
    assert(bonded(g2, p, n));
    if forall|j: int| 0 <= j < genes.len() ==> #[trigger] reachable(genes, j) {
        assert forall|a: int, b: int| 0 <= a < n && bonded(genes, a, b) implies bonded(g2, a, b) by {
            let kk = choose|kk: int| 0 <= kk < 6 && occupant(genes, #[trigger] genes[a].coord.stepped(Dir::nth(kk))) == Some(b);
            assert(g2[a] == genes[a]);
            assert(occupant(g2, g2[a].coord.stepped(Dir::nth(kk))) == Some(b));
        }
        assert forall|j: int| 0 <= j < genes.len() + 1 implies #[trigger] reachable(g2, j) by {
            let target = if j < n { j } else { p };
            assert(reachable(genes, target));
            let path = choose|path: Seq<int>| is_bond_path(genes, path) && path[0] == 0 && #[trigger] path.last() == target;
            assert forall|t: int| 0 <= t < path.len() - 1 implies bonded(g2, #[trigger] path[t], path[t + 1]) by {
                assert(bonded(genes, path[t], path[t + 1]));
            }
            if j < n {
                assert(is_bond_path(g2, path));
            } else {
                let p2 = path.push(n);
                assert forall|t: int| 0 <= t < p2.len() - 1 implies bonded(g2, #[trigger] p2[t], p2[t + 1]) by {
                    if t < path.len() - 1 {
                        assert(p2[t] == path[t] && p2[t + 1] == path[t + 1]);
                    } else {
                        assert(p2[t] == p && p2[t + 1] == n);
                    }
                }
                assert(p2.last() == n);
                assert(is_bond_path(g2, p2));
            }
        }
    }
}

} // verus!
