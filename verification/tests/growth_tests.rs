use evo2::atom::{AtomKind, Cat};
use evo2::config::{MUT_ADD_ODDS, MUT_PARAM_ODDS, MUT_POINT_ODDS, MUT_ROTATE_ODDS};
use evo2::genome::{FloatDraws, Gene, Genome};
use evo2::hex_grid::{Axial, Dir};
use evo2::rng::Rng;

/// Palette index straight from the unit draw, whatever the parent.
fn plain_kind_index(m: u32, _parent: Cat) -> usize {
    (m % 10) as usize
}

fn plain_battery_param(_m: u32) -> u32 {
    0.25f32.to_bits()
}

fn plain_nudge(_m: u32, param_bits: u32) -> u32 {
    param_bits ^ 1
}

type PlainDraws = FloatDraws<fn(u32, Cat) -> usize, fn(u32) -> u32, fn(u32, u32) -> u32>;

/// Draws that choose by integer arithmetic only, so tests can predict them.
fn plain_draws() -> PlainDraws {
    FloatDraws { kind_index: plain_kind_index, battery_param: plain_battery_param, nudge: plain_nudge }
}

fn distinct(g: &Genome) -> bool {
    for i in 0..g.genes.len() {
        for j in 0..i {
            if g.genes[i].coord == g.genes[j].coord {
                return false;
            }
        }
    }
    true
}

fn connected(g: &Genome) -> bool {
    let mut h = g.clone();
    h.prune_disconnected();
    h.genes == g.genes
}

#[test]
fn grow_one_attaches_to_the_drawn_site() {
    let mut g = Genome { genes: vec![Gene { coord: Axial::origin(), kind: AtomKind::Seed, facing: Dir::East, param_bits: 0 }] };
    let mut r = Rng::new(0);
    assert!(g.grow_one(&mut r, &plain_draws()));
    assert_eq!(g.genes.len(), 2);
    // The first draw (7255456701419393109 % 6 == 3) picks the south-east cell.
    assert_eq!(g.genes[1].coord, Axial::new(1, -1));
    let k = g.genes[1].kind;
    match k {
        AtomKind::Thruster | AtomKind::Sensor | AtomKind::Eater => assert_eq!(g.genes[1].facing, Dir::SouthEast),
        AtomKind::Gate(_) | AtomKind::Battery => assert_eq!(g.genes[1].facing, Dir::NorthWest),
        _ => {}
    }
}

#[test]
fn random_genomes_reach_their_target_and_stay_whole() {
    for seed in 0..20u64 {
        let mut r = Rng::new(seed);
        let mut probe = Rng::new(seed);
        probe.next_u64();
        let target = Genome::growth_target(&mut probe, 5, 30);
        let g = Genome::random(&mut r, 5, 30, &plain_draws());
        assert_eq!(g.genes.len(), target);
        assert_eq!(g.genes[0].coord, Axial::origin());
        assert_eq!(g.genes[0].kind, AtomKind::Seed);
        assert!(distinct(&g));
        assert!(connected(&g));
    }
}

#[test]
fn random_with_zero_target_is_a_lone_seed() {
    let mut r = Rng::new(3);
    let g = Genome::random(&mut r, 0, 0, &plain_draws());
    // The only size in 0..=0 is 0, and the seed is always there.
    assert!(g.genes.len() == 1);
}

#[test]
fn mutation_keeps_the_seed_and_a_single_body() {
    let mut r = Rng::new(11);
    let mut g = Genome::random(&mut r, 10, 20, &plain_draws());
    for _ in 0..500 {
        let before = g.genes.len();
        g.mutate(&mut r, &plain_draws());
        assert!(!g.genes.is_empty());
        assert!(g.genes.len() <= before + 1);
        if before >= evo2::config::MAX_ATOMS {
            assert!(g.genes.len() <= before);
        }
        assert_eq!(g.genes[0].coord, Axial::origin());
        assert_eq!(g.genes[0].kind, AtomKind::Seed);
        assert!(distinct(&g));
        assert!(connected(&g));
    }
}

#[test]
fn chance_odds_thresholds() {
    // The first top-24-bit draw of seed 7 is 7325334.
    let mut r = Rng::new(7);
    assert!(!r.chance_odds(7325334));
    let mut r = Rng::new(7);
    assert!(r.chance_odds(7325335));
    let mut r = Rng::new(7);
    assert!(!r.chance_odds(0));
}

#[test]
fn kind_choice_is_keyed_on_the_parent_category() {
    let draws = FloatDraws {
        kind_index: |_m: u32, c: Cat| if c == Cat::Solar { 5 } else { 6 },
        battery_param: |_m: u32| 0u32,
        nudge: |_m: u32, b: u32| b,
    };
    let mut r = Rng::new(4);
    assert_eq!(draws.choose_kind(&mut r, AtomKind::Solar), AtomKind::Battery);
    assert_eq!(draws.choose_kind(&mut r, AtomKind::Seed), AtomKind::Thruster);
    assert_eq!(draws.choose_kind(&mut r, AtomKind::Conductor), AtomKind::Thruster);
}

#[test]
fn kind_index_past_the_palette_gives_its_last_entry() {
    let draws = FloatDraws { kind_index: |_m: u32, _c: Cat| 99usize, battery_param: |_m: u32| 0u32, nudge: |_m: u32, b: u32| b };
    let mut r = Rng::new(4);
    assert_eq!(draws.choose_kind(&mut r, AtomKind::Solar), AtomKind::Conductor);
}

#[test]
fn kind_choice_hands_over_the_unit_draw() {
    let draws = FloatDraws { kind_index: |m: u32, _c: Cat| (m % 10) as usize, battery_param: |_m: u32| 0u32, nudge: |_m: u32, b: u32| b };
    let mut r = Rng::new(7);
    // The first top-24-bit draw of seed 7 is 7325334, and 7325334 % 10 == 4.
    assert_eq!(draws.choose_kind(&mut r, AtomKind::Solar), AtomKind::palette()[4]);
    let mut probe = Rng::new(7);
    probe.next_u64();
    assert_eq!(r.next_u64(), probe.next_u64());
}

#[test]
fn default_param_draws_only_for_batteries() {
    let draws = FloatDraws { kind_index: |_m: u32, _c: Cat| 0usize, battery_param: |m: u32| m, nudge: |_m: u32, b: u32| b };
    let mut r = Rng::new(7);
    assert_eq!(draws.default_param(&mut r, AtomKind::Battery), 7325334);
    let mut probe = Rng::new(7);
    probe.next_u64();
    assert_eq!(draws.default_param(&mut r, AtomKind::Solar), 0);
    assert_eq!(r.next_u64(), probe.next_u64());
}

#[test]
fn nudge_param_hands_over_the_draw_and_the_old_bits() {
    let draws = FloatDraws { kind_index: |_m: u32, _c: Cat| 0usize, battery_param: |m: u32| m, nudge: |m: u32, b: u32| m ^ b };
    let mut r = Rng::new(7);
    assert_eq!(draws.nudge_param(&mut r, 1), 7325334 ^ 1);
}

#[test]
fn grown_atom_takes_the_drawn_kind_and_parameter() {
    let mut g = Genome { genes: vec![Gene { coord: Axial::origin(), kind: AtomKind::Seed, facing: Dir::East, param_bits: 0 }] };
    let mut r = Rng::new(0);
    let mut probe = Rng::new(0);
    probe.next_u64();
    let m = probe.next_unit_bits();
    assert!(g.grow_one(&mut r, &plain_draws()));
    let k = AtomKind::palette()[(m % 10) as usize];
    assert_eq!(g.genes[1].kind, k);
    if k == AtomKind::Battery {
        assert_eq!(g.genes[1].param_bits, 0.25f32.to_bits());
    } else {
        assert_eq!(g.genes[1].param_bits, 0);
    }
}

#[test]
fn random_genomes_hold_one_seed_and_palette_kinds() {
    let palette = AtomKind::palette();
    for seed in 0..20u64 {
        let mut r = Rng::new(seed);
        let g = Genome::random(&mut r, 5, 30, &plain_draws());
        for gene in &g.genes[1..] {
            assert!(palette.contains(&gene.kind));
        }
    }
}

#[test]
fn mutation_never_adds_a_seed() {
    let mut r = Rng::new(5);
    let mut g = Genome::random(&mut r, 10, 20, &plain_draws());
    for _ in 0..500 {
        g.mutate(&mut r, &plain_draws());
        for gene in &g.genes[1..] {
            assert_ne!(gene.kind, AtomKind::Seed);
        }
    }
}

#[test]
fn same_seed_gives_the_same_genomes() {
    let mut a = Rng::new(21);
    let mut b = Rng::new(21);
    let mut ga = Genome::random(&mut a, 5, 30, &plain_draws());
    let mut gb = Genome::random(&mut b, 5, 30, &plain_draws());
    for _ in 0..200 {
        ga.mutate(&mut a, &plain_draws());
        gb.mutate(&mut b, &plain_draws());
        assert!(ga.genes == gb.genes);
    }
}

#[test]
fn mutation_retypes_to_the_drawn_kind() {
    let mut found = false;
    for seed in 0..5000u64 {
        let mut probe = Rng::new(seed);
        if !probe.chance_odds(MUT_POINT_ODDS) {
            continue;
        }
        // Two atoms: the index draw can only pick atom 1, then the kind draw.
        probe.next_u64();
        let m = probe.next_unit_bits();
        if probe.chance_odds(MUT_ROTATE_ODDS) || probe.chance_odds(MUT_PARAM_ODDS) || probe.chance_odds(MUT_ADD_ODDS) {
            continue;
        }
        let mut g = Genome {
            genes: vec![
                Gene { coord: Axial::origin(), kind: AtomKind::Seed, facing: Dir::East, param_bits: 0 },
                Gene { coord: Axial::new(1, 0), kind: AtomKind::Solar, facing: Dir::East, param_bits: 0 },
            ],
        };
        let mut r = Rng::new(seed);
        g.mutate(&mut r, &plain_draws());
        assert_eq!(g.genes.len(), 2);
        assert_eq!(g.genes[1].kind, AtomKind::palette()[(m % 10) as usize]);
        found = true;
        break;
    }
    assert!(found);
}
