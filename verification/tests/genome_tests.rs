use evo2::atom::{AtomKind, GateOp};
use evo2::genome::{Gene, Genome};
use evo2::hex_grid::{Axial, Dir};
use evo2::rng::Rng;

fn gene(q: i32, r: i32, kind: AtomKind) -> Gene {
    Gene { coord: Axial::new(q, r), kind, facing: Dir::East, param_bits: 0 }
}

fn coords(g: &Genome) -> Vec<(i32, i32)> {
    g.genes.iter().map(|x| (x.coord.q, x.coord.r)).collect()
}

#[test]
fn seed_genome_is_a_lone_seed_at_the_origin() {
    let mut r = Rng::new(0);
    let g = Genome::seed(&mut r);
    assert_eq!(g.genes.len(), 1);
    assert_eq!(g.genes[0].coord, Axial::origin());
    assert_eq!(g.genes[0].kind, AtomKind::Seed);
    assert_eq!(g.genes[0].facing, Dir::SouthEast);
    assert_eq!(g.genes[0].param_bits, 0);
}

#[test]
fn growth_target_formula() {
    let mut r = Rng::new(0);
    // 5 + 7255456701419393109 % 26
    assert_eq!(Genome::growth_target(&mut r, 5, 30), 24);
    let mut r = Rng::new(0);
    // min == max: the only size is min
    assert_eq!(Genome::growth_target(&mut r, 4, 4), 4);
    let mut r = Rng::new(0);
    // 7255456701419393109 % 7 == 6
    assert_eq!(Genome::growth_target(&mut r, 10, 16), 16);
}

#[test]
fn rocket_layout() {
    let mut r = Rng::new(0);
    let g = Genome::rocket(&mut r, 5, 30);
    assert_eq!(coords(&g), vec![(0, 0), (0, 1), (0, 2)]);
    let kinds: Vec<AtomKind> = g.genes.iter().map(|x| x.kind).collect();
    assert_eq!(kinds, vec![AtomKind::Seed, AtomKind::Thruster, AtomKind::Eater]);
    let facings: Vec<Dir> = g.genes.iter().map(|x| x.facing).collect();
    assert_eq!(facings, vec![Dir::SouthEast, Dir::West, Dir::SouthEast]);
}

#[test]
fn grow_site_on_a_lone_seed() {
    let mut r = Rng::new(0);
    let g = Genome { genes: vec![gene(0, 0, AtomKind::Seed)] };
    // six free cells; the draw picks 7255456701419393109 % 6 == 3
    let site = g.grow_site(&mut r).unwrap();
    assert_eq!(site, (0, Dir::SouthEast, Axial::new(1, -1)));
}

#[test]
fn grow_site_is_free_and_adjacent() {
    let mut r = Rng::new(99);
    let mut g = Genome { genes: vec![gene(0, 0, AtomKind::Seed)] };
    for _ in 0..40 {
        let (p, d, c) = g.grow_site(&mut r).unwrap();
        assert_eq!(g.genes[p].coord.step(d), c);
        assert!(g.genes.iter().all(|x| x.coord != c));
        g.genes.push(gene(c.q, c.r, AtomKind::Conductor));
    }
    // Growth keeps a single connected body.
    let before = g.genes.clone();
    g.prune_disconnected();
    assert_eq!(g.genes, before);
}

#[test]
fn choose_facing_rules() {
    let mut r = Rng::new(0);
    assert_eq!(Genome::choose_facing(&mut r, AtomKind::Thruster, Dir::East), Dir::East);
    assert_eq!(Genome::choose_facing(&mut r, AtomKind::Sensor, Dir::West), Dir::West);
    assert_eq!(Genome::choose_facing(&mut r, AtomKind::Eater, Dir::NorthEast), Dir::NorthEast);
    assert_eq!(Genome::choose_facing(&mut r, AtomKind::Gate(GateOp::And), Dir::East), Dir::West);
    assert_eq!(Genome::choose_facing(&mut r, AtomKind::Battery, Dir::NorthWest), Dir::SouthEast);
    // No draw so far; a conductor draws its facing.
    assert_eq!(Genome::choose_facing(&mut r, AtomKind::Conductor, Dir::East), Dir::SouthEast);
}

#[test]
fn bias_parent_takes_the_first_bonded_neighbour() {
    let g = Genome {
        genes: vec![gene(0, 0, AtomKind::Seed), gene(1, 0, AtomKind::Battery), gene(0, 1, AtomKind::Solar)],
    };
    // Around (1,0): NW is (0,1) (the solar) before W (0,0) (the seed).
    assert_eq!(g.bias_parent(1), AtomKind::Solar);
    // Around (0,0): NE (0,1) comes before E (1,0).
    assert_eq!(g.bias_parent(0), AtomKind::Solar);
    let lone = Genome { genes: vec![gene(0, 0, AtomKind::Seed), gene(5, 5, AtomKind::Eater)] };
    assert_eq!(lone.bias_parent(1), AtomKind::Conductor);
}

#[test]
fn prune_drops_islands_and_keeps_order() {
    let mut g = Genome {
        genes: vec![
            gene(0, 0, AtomKind::Seed),
            gene(1, 0, AtomKind::Conductor),
            gene(5, 5, AtomKind::Eater),
            gene(0, 1, AtomKind::Thruster),
            gene(5, 6, AtomKind::Sensor),
            gene(2, 0, AtomKind::Battery),
        ],
    };
    g.prune_disconnected();
    assert_eq!(coords(&g), vec![(0, 0), (1, 0), (0, 1), (2, 0)]);
    // Pruning again changes nothing.
    let once = g.genes.clone();
    g.prune_disconnected();
    assert_eq!(g.genes, once);
}

#[test]
fn prune_empty_and_lone_seed() {
    let mut e = Genome { genes: vec![] };
    e.prune_disconnected();
    assert!(e.genes.is_empty());
    let mut s = Genome { genes: vec![gene(3, 3, AtomKind::Seed)] };
    s.prune_disconnected();
    assert_eq!(coords(&s), vec![(3, 3)]);
}

#[test]
fn removal_that_cuts_the_body() {
    let g = Genome {
        genes: vec![gene(0, 0, AtomKind::Seed), gene(1, 0, AtomKind::Conductor), gene(2, 0, AtomKind::Eater)],
    };
    // Removing the middle leaves the seed alone: not a molecule any more.
    assert!(g.after_removal(&vec![1]).is_none());
    // Removing the tip leaves two atoms.
    let h = g.after_removal(&vec![2]).unwrap();
    assert_eq!(coords(&h), vec![(0, 0), (1, 0)]);
    // Out-of-range indices are ignored.
    let k = g.after_removal(&vec![9]).unwrap();
    assert_eq!(coords(&k), vec![(0, 0), (1, 0), (2, 0)]);
}

#[test]
fn pruning_drops_an_island_at_the_edge_of_the_plane() {
    let mut g = Genome {
        genes: vec![
            Gene { coord: Axial::origin(), kind: AtomKind::Seed, facing: Dir::East, param_bits: 0 },
            Gene { coord: Axial::new(1, 0), kind: AtomKind::Conductor, facing: Dir::East, param_bits: 0 },
            Gene { coord: Axial::new(i32::MAX, 0), kind: AtomKind::Solar, facing: Dir::East, param_bits: 0 },
        ],
    };
    g.prune_disconnected();
    assert_eq!(g.genes.len(), 2);
    assert_eq!(g.genes[1].coord, Axial::new(1, 0));
}
