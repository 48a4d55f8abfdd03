use evo2::config::{AMBIENT_FOOD_TARGET, FOOD_SPAWN_PER_STEP, MAX_FOOD, MAX_MOLECULES};
use evo2::world::{ambient_rain, fate_of, food_room, settle, BiteClaims, Fate, Outcome};

#[test]
fn food_is_eaten_exactly_when_its_atom_is_claimed() {
    assert_eq!(fate_of(true, &vec![0]), Fate::Eaten);
    assert_eq!(fate_of(true, &vec![]), Fate::Untouched);
    assert_eq!(fate_of(true, &vec![3]), Fate::Untouched);
}

#[test]
fn losing_the_seed_is_fatal() {
    assert_eq!(fate_of(false, &vec![4, 0, 2]), Fate::SeedLost);
}

#[test]
fn losing_other_atoms_means_a_rebuild() {
    assert_eq!(fate_of(false, &vec![4, 2]), Fate::Bitten);
}

#[test]
fn an_unclaimed_molecule_is_untouched() {
    assert_eq!(fate_of(false, &vec![]), Fate::Untouched);
}

#[test]
fn a_victim_is_claimed_once_and_only_by_a_fast_biter() {
    let mut c = BiteClaims::new();
    assert!(!c.try_claim((2, 0), false));
    assert!(!c.is_claimed(2, 0));
    assert!(c.try_claim((2, 0), true));
    assert!(!c.try_claim((2, 0), true));
    assert!(c.try_claim((2, 1), true));
    assert!(c.try_claim((5, 3), true));
    assert!(c.is_claimed(2, 0));
    assert_eq!(c.victims_of(2, 10), vec![0, 1]);
    assert_eq!(c.victims_of(5, 10), vec![3]);
    assert_eq!(c.victims_of(5, 3), Vec::<usize>::new());
    assert_eq!(c.victims_of(7, 10), Vec::<usize>::new());
}

#[test]
fn food_room_stops_at_the_food_cap() {
    assert_eq!(food_room(0, 5), 5);
    assert_eq!(food_room(MAX_FOOD - 2, 5), 2);
    assert_eq!(food_room(MAX_FOOD, 5), 0);
    assert_eq!(food_room(MAX_FOOD + 7, 5), 0);
}

#[test]
fn ambient_rain_tops_up_below_the_target() {
    assert_eq!(ambient_rain(0), FOOD_SPAWN_PER_STEP);
    assert_eq!(ambient_rain(AMBIENT_FOOD_TARGET - 1), FOOD_SPAWN_PER_STEP);
    assert_eq!(ambient_rain(AMBIENT_FOOD_TARGET), 0);
}

#[test]
fn settle_decides_deaths_births_and_the_living_count() {
    let fates = vec![Fate::Untouched, Fate::Eaten, Fate::SeedLost, Fate::Bitten, Fate::Bitten, Fate::Untouched, Fate::Untouched];
    let is_food = vec![false, true, false, false, false, false, true];
    let rebuilt_ok = vec![false, false, false, false, true, false, false];
    let starved = vec![false, false, false, false, false, true, false];
    let ripe = vec![true, false, false, false, true, false, false];
    let (outs, alive) = settle(&fates, &is_food, &rebuilt_ok, &starved, &ripe, 5);
    assert_eq!(
        outs,
        vec![
            Outcome::Reproduces,
            Outcome::Consumed,
            Outcome::Dissolves,
            Outcome::Dissolves,
            Outcome::Reproduces,
            Outcome::Dissolves,
            Outcome::Stays,
        ]
    );
    // Two births, three deaths.
    assert_eq!(alive, 4);
}

#[test]
fn births_stop_at_the_population_cap() {
    let n = MAX_MOLECULES + 5;
    let fates = vec![Fate::Untouched; n];
    let is_food = vec![false; n];
    let no = vec![false; n];
    let ripe = vec![true; n];
    let (outs, alive) = settle(&fates, &is_food, &no, &no, &ripe, n);
    // Each birth adds the parent and its child to the population count.
    let births = outs.iter().filter(|o| **o == Outcome::Reproduces).count();
    assert_eq!(births, MAX_MOLECULES / 2);
    assert!(outs[..MAX_MOLECULES / 2].iter().all(|o| *o == Outcome::Reproduces));
    assert!(outs[MAX_MOLECULES / 2..].iter().all(|o| *o == Outcome::Stays));
    assert_eq!(alive, n + births);
}
