//! The integer rules of a world step: who gets each bitten atom, what bites
//! do to a molecule, who dies and who reproduces, and how much food the world
//! admits.
//!
//! Bites are decided closest first, and a bitten atom goes to the first bite
//! that claims it, if its biter moves fast enough. What a molecule loses
//! decides its fate: a food pellet is eaten when its single atom (atom 0) is
//! claimed, losing the seed is fatal, and a molecule that loses other atoms is
//! rebuilt from what stays connected to its seed. Births stop at the
//! population cap, and food stops at the food cap.

use crate::config::{AMBIENT_FOOD_TARGET, FOOD_SPAWN_PER_STEP, MAX_FOOD, MAX_MOLECULES};
use crate::fx::{fx_pair_set_contains, fx_pair_set_insert, fx_pair_set_new};
use fxhash::FxHashSet;
use vstd::prelude::*;

verus! {

/// What the bites of one step do to a molecule.
#[derive(Copy, Clone, Debug, PartialEq, Eq, Structural)]
pub enum Fate {
    /// Nothing of it was claimed, or it is food whose atom was not claimed.
    Untouched,
    /// It is food and its atom was claimed.
    Eaten,
    /// Its seed (atom 0) was claimed: it dies.
    SeedLost,
    /// Some of its atoms, not the seed, were claimed: it is rebuilt without
    /// them.
    Bitten,
}

/// The fate of a molecule (`is_food` for a food pellet) whose claimed atoms
/// are `claimed`.
pub open spec fn fate_spec(is_food: bool, claimed: Seq<usize>) -> Fate {
    if is_food {
        if claimed.contains(0) {
            Fate::Eaten
        } else {
            Fate::Untouched
        }
    } else if claimed.len() == 0 {
        Fate::Untouched
    } else if claimed.contains(0) {
        Fate::SeedLost
    } else {
        Fate::Bitten
    }
}

/// What bites do to a molecule: food is eaten exactly when its atom (atom 0)
/// is among the claimed ones; a living molecule dies exactly when its seed
/// (atom 0) is among them, wherever it stands in the list, is rebuilt when
/// atoms were claimed but not the seed, and is untouched when none were.
pub proof fn lemma_fate_meaning(is_food: bool, claimed: Seq<usize>)
    ensures
        fate_spec(is_food, claimed) == Fate::Eaten <==> is_food && exists|j: int|
            0 <= j < claimed.len() && claimed[j] == 0,
        fate_spec(is_food, claimed) == Fate::SeedLost <==> !is_food && exists|j: int|
            0 <= j < claimed.len() && claimed[j] == 0,
        fate_spec(is_food, claimed) == Fate::Bitten <==> !is_food && claimed.len() > 0 && forall|j: int|
            0 <= j < claimed.len() ==> claimed[j] != 0,
        fate_spec(is_food, claimed) == Fate::Untouched <==> if is_food {
            forall|j: int| 0 <= j < claimed.len() ==> claimed[j] != 0
        } else {
            claimed.len() == 0
        },
{
}

/// The fate of a molecule depends only on which atoms were claimed: lists
/// with the same members, in any order and with any repeats, give the same
/// fate.
pub proof fn lemma_fate_ignores_order(is_food: bool, a: Seq<usize>, b: Seq<usize>)
    requires
        forall|x: usize| a.contains(x) <==> b.contains(x),
    ensures
        fate_spec(is_food, a) == fate_spec(is_food, b),
{
    if a.len() > 0 {
        assert(a.contains(a[0]));
    }
    if b.len() > 0 {
        assert(b.contains(b[0]));
    }
}

/// Decide what the claimed atoms `claimed` do to a molecule.
pub fn fate_of(is_food: bool, claimed: &Vec<usize>) -> (f: Fate)
    ensures
        f == fate_spec(is_food, claimed@),
{
    let mut seed_hit = false;
    let mut i: usize = 0;
    while i < claimed.len()
        invariant
            i <= claimed@.len(),
            seed_hit == exists|j: int| 0 <= j < i && claimed@[j] == 0,
        decreases claimed@.len() - i,
    {
        if claimed[i] == 0 {
            seed_hit = true;
        }
        i = i + 1;
    }
    proof {
        assert(seed_hit == claimed@.contains(0));
    }
    if is_food {
        if seed_hit {
            Fate::Eaten
        } else {
            Fate::Untouched
        }
    } else if claimed.len() == 0 {
        Fate::Untouched
    } else if seed_hit {
        Fate::SeedLost
    } else {
        Fate::Bitten
    }
}

/// What a step does to one molecule once its bites are settled.
#[derive(Copy, Clone, Debug, PartialEq, Eq, Structural)]
pub enum Outcome {
    /// It stays (rebuilt without its lost atoms if it was bitten).
    Stays,
    /// It is food and was eaten: it is gone.
    Consumed,
    /// It dies (seed lost, nothing left after a bite, or starved) and
    /// dissolves into food.
    Dissolves,
    /// It stays and splits off a mutated child.
    Reproduces,
}

/// The outcome of a molecule of fate `fate` (`is_food` for a food pellet),
/// whose rebuild after a bite leaves a molecule (`rebuilt_ok`), whose pool is
/// empty (`starved`) or above the reproduction threshold (`ripe`), when the
/// living population counted before it is `population`.
pub open spec fn outcome_of(
    fate: Fate,
    is_food: bool,
    rebuilt_ok: bool,
    starved: bool,
    ripe: bool,
    population: int,
) -> Outcome {
    if is_food {
        if fate == Fate::Eaten {
            Outcome::Consumed
        } else {
            Outcome::Stays
        }
    } else if fate == Fate::SeedLost || (fate == Fate::Bitten && !rebuilt_ok) || starved {
        Outcome::Dissolves
    } else if ripe && population < MAX_MOLECULES {
        Outcome::Reproduces
    } else {
        Outcome::Stays
    }
}

/// How many of `outs` are `o`.
pub open spec fn count_of(outs: Seq<Outcome>, o: Outcome) -> int
    decreases outs.len(),
{
    if outs.len() == 0 {
        0
    } else {
        count_of(outs.drop_last(), o) + if outs.last() == o { 1int } else { 0int }
    }
}

/// How many of the molecules with outcomes `outs` are living molecules that
/// stay (reproducing or not).
pub open spec fn living_kept(outs: Seq<Outcome>, is_food: Seq<bool>) -> int
    decreases outs.len(),
{
    if outs.len() == 0 {
        0
    } else {
        let i = outs.len() - 1;
        living_kept(outs.drop_last(), is_food) + if !is_food[i] && (outs[i] == Outcome::Stays
            || outs[i] == Outcome::Reproduces) {
            1int
        } else {
            0int
        }
    }
}

/// The living population after the molecules with outcomes `outs`: those
/// that stay, and the children born.
pub open spec fn population(outs: Seq<Outcome>, is_food: Seq<bool>) -> int {
    living_kept(outs, is_food) + count_of(outs, Outcome::Reproduces)
}

/// The outcomes of the first `n` molecules, settled in order.
pub open spec fn settled(
    fates: Seq<Fate>,
    is_food: Seq<bool>,
    rebuilt_ok: Seq<bool>,
    starved: Seq<bool>,
    ripe: Seq<bool>,
    n: nat,
) -> Seq<Outcome>
    decreases n,
{
    if n == 0 {
        Seq::empty()
    } else {
        let prev = settled(fates, is_food, rebuilt_ok, starved, ripe, (n - 1) as nat);
        let i = n - 1;
        prev.push(outcome_of(fates[i], is_food[i], rebuilt_ok[i], starved[i], ripe[i], population(prev, is_food)))
    }
}

/// The count of living molecules after the outcomes `outs`, from `alive`: one
/// more per birth, one fewer per death.
pub open spec fn alive_after(alive: int, outs: Seq<Outcome>) -> int {
    alive + count_of(outs, Outcome::Reproduces) - count_of(outs, Outcome::Dissolves)
}

proof fn lemma_counts_bounded(outs: Seq<Outcome>, is_food: Seq<bool>, o: Outcome)
    ensures
        0 <= count_of(outs, o) <= outs.len(),
        0 <= living_kept(outs, is_food) <= outs.len(),
    decreases outs.len(),
{
    if outs.len() > 0 {
        lemma_counts_bounded(outs.drop_last(), is_food, o);
    }
}

/// The outcomes settled for `n` molecules begin with those settled for the
/// first `i`.
proof fn lemma_settled_prefix(
    fates: Seq<Fate>,
    is_food: Seq<bool>,
    rebuilt_ok: Seq<bool>,
    starved: Seq<bool>,
    ripe: Seq<bool>,
    n: nat,
    i: nat,
)
    requires
        i <= n,
    ensures
        settled(fates, is_food, rebuilt_ok, starved, ripe, n).len() == n,
        settled(fates, is_food, rebuilt_ok, starved, ripe, n).take(i as int) == settled(
            fates,
            is_food,
            rebuilt_ok,
            starved,
            ripe,
            i,
        ),
    decreases n,
{
    if n > 0 {
        lemma_settled_prefix(fates, is_food, rebuilt_ok, starved, ripe, (n - 1) as nat, if i < n { i } else { (n - 1) as nat });
        let prev = settled(fates, is_food, rebuilt_ok, starved, ripe, (n - 1) as nat);
        let all = settled(fates, is_food, rebuilt_ok, starved, ripe, n);
        if i < n {
            assert(all.take(i as int) =~= prev.take(i as int));
        } else {
            assert(all.take(i as int) =~= all);
        }
    }
}

/// How many of the first `k` molecules are not food.
pub open spec fn living_inputs(is_food: Seq<bool>, k: int) -> int
    decreases k,
{
    if k <= 0 {
        0
    } else {
        living_inputs(is_food, k - 1) + if !is_food[k - 1] { 1int } else { 0int }
    }
}

proof fn lemma_settled_counts(
    fates: Seq<Fate>,
    is_food: Seq<bool>,
    rebuilt_ok: Seq<bool>,
    starved: Seq<bool>,
    ripe: Seq<bool>,
    k: nat,
)
    ensures
        count_of(settled(fates, is_food, rebuilt_ok, starved, ripe, k), Outcome::Dissolves) <= living_inputs(
            is_food,
            k as int,
        ),
        0 <= count_of(settled(fates, is_food, rebuilt_ok, starved, ripe, k), Outcome::Dissolves),
        0 <= count_of(settled(fates, is_food, rebuilt_ok, starved, ripe, k), Outcome::Reproduces) <= k,
    decreases k,
{
    if k > 0 {
        lemma_settled_counts(fates, is_food, rebuilt_ok, starved, ripe, (k - 1) as nat);
        let prev = settled(fates, is_food, rebuilt_ok, starved, ripe, (k - 1) as nat);
        let all = settled(fates, is_food, rebuilt_ok, starved, ripe, k);
        assert(all.drop_last() == prev);
    }
}

proof fn lemma_living_inputs_monotone(is_food: Seq<bool>, k: int, n: int)
    requires
        0 <= k <= n,
    ensures
        0 <= living_inputs(is_food, k) <= living_inputs(is_food, n),
    decreases n,
{
    if n > k {
        lemma_living_inputs_monotone(is_food, k, n - 1);
    } else if k > 0 {
        lemma_living_inputs_monotone(is_food, k - 1, k - 1);
    }
}

/// A count of living molecules that covers every living molecule, with room
/// for one birth per molecule, stays in range however the step settles: this
/// is what `settle` needs.
pub proof fn lemma_alive_stays_in_range(
    fates: Seq<Fate>,
    is_food: Seq<bool>,
    rebuilt_ok: Seq<bool>,
    starved: Seq<bool>,
    ripe: Seq<bool>,
    alive_count: int,
)
    requires
        alive_count >= living_inputs(is_food, fates.len() as int),
        alive_count + fates.len() <= usize::MAX,
    ensures
        forall|k: nat|
            k <= fates.len() ==> 0 <= #[trigger] alive_after(
                alive_count,
                settled(fates, is_food, rebuilt_ok, starved, ripe, k),
            ) <= usize::MAX,
{
    assert forall|k: nat| k <= fates.len() implies 0 <= #[trigger] alive_after(
        alive_count,
        settled(fates, is_food, rebuilt_ok, starved, ripe, k),
    ) <= usize::MAX by {
        lemma_settled_counts(fates, is_food, rebuilt_ok, starved, ripe, k);
        lemma_living_inputs_monotone(is_food, k as int, fates.len() as int);
    }
}

/// How the living population grows as molecules are settled: it starts at
/// zero; a food pellet (kept or eaten) never counts; a living molecule that
/// stays counts once, one that reproduces counts twice (itself and its
/// child), one that dies not at all.
pub proof fn lemma_population_counts(outs: Seq<Outcome>, is_food: Seq<bool>, o: Outcome)
    ensures
        population(Seq::<Outcome>::empty(), is_food) == 0,
        is_food[outs.len() as int] && (o == Outcome::Stays || o == Outcome::Consumed) ==> population(
            outs.push(o),
            is_food,
        ) == population(outs, is_food),
        !is_food[outs.len() as int] && o == Outcome::Stays ==> population(outs.push(o), is_food)
            == population(outs, is_food) + 1,
        !is_food[outs.len() as int] && o == Outcome::Reproduces ==> population(outs.push(o), is_food)
            == population(outs, is_food) + 2,
        o == Outcome::Dissolves ==> population(outs.push(o), is_food) == population(outs, is_food),
{
    assert(outs.push(o).drop_last() == outs);
}

/// Counting outcomes: none among no outcomes; one more outcome counts once
/// where it is the one counted and not at all otherwise.
pub proof fn lemma_count_of_steps(outs: Seq<Outcome>, o: Outcome, x: Outcome)
    ensures
        count_of(Seq::<Outcome>::empty(), o) == 0,
        count_of(outs.push(x), o) == count_of(outs, o) + if x == o { 1int } else { 0int },
{
    assert(outs.push(x).drop_last() == outs);
}

/// How one molecule is settled, given the molecules settled before it: a
/// food pellet is consumed exactly when eaten and otherwise stays; a living
/// molecule dies when its seed was lost, when nothing of it is left after a
/// bite, or when it starved; otherwise it reproduces exactly when it is ripe
/// and the living population counted before it is below `MAX_MOLECULES`, and
/// stays if not.
pub proof fn lemma_settle_rules(
    fates: Seq<Fate>,
    is_food: Seq<bool>,
    rebuilt_ok: Seq<bool>,
    starved: Seq<bool>,
    ripe: Seq<bool>,
    n: nat,
    i: int,
)
    requires
        0 <= i < n,
    ensures
        ({
            let outs = settled(fates, is_food, rebuilt_ok, starved, ripe, n);
            let dies = fates[i] == Fate::SeedLost || (fates[i] == Fate::Bitten && !rebuilt_ok[i])
                || starved[i];
            &&& outs.len() == n
            &&& is_food[i] ==> outs[i] == if fates[i] == Fate::Eaten {
                Outcome::Consumed
            } else {
                Outcome::Stays
            }
            &&& !is_food[i] && dies ==> outs[i] == Outcome::Dissolves
            &&& !is_food[i] && !dies ==> {
                &&& outs[i] == Outcome::Reproduces <==> ripe[i] && population(outs.take(i), is_food)
                    < MAX_MOLECULES
                &&& outs[i] != Outcome::Reproduces ==> outs[i] == Outcome::Stays
            }
        }),
{
    lemma_settled_prefix(fates, is_food, rebuilt_ok, starved, ripe, n, i as nat);
    lemma_settled_prefix(fates, is_food, rebuilt_ok, starved, ripe, n, (i + 1) as nat);
    let outs = settled(fates, is_food, rebuilt_ok, starved, ripe, n);
    let pre1 = settled(fates, is_food, rebuilt_ok, starved, ripe, (i + 1) as nat);
    assert(pre1[i] == outs.take(i + 1)[i]);
}

/// `k` kept food pellets followed by `outs`.
pub open spec fn after_pellets(k: nat, outs: Seq<Outcome>) -> Seq<Outcome> {
    Seq::new(k, |j: int| Outcome::Stays) + outs
}

proof fn lemma_population_after_pellets(k: nat, outs: Seq<Outcome>, food_pre: Seq<bool>, is_food: Seq<bool>)
    requires
        food_pre.len() == k,
        outs.len() <= is_food.len(),
        forall|j: int| 0 <= j < k ==> food_pre[j],
    ensures
        population(after_pellets(k, outs), food_pre + is_food) == population(outs, is_food),
    decreases outs.len(),
{
    let all = food_pre + is_food;
    if outs.len() == 0 {
        lemma_population_of_pellets(k, food_pre, is_food);
        assert(after_pellets(k, outs) =~= Seq::new(k, |j: int| Outcome::Stays));
    } else {
        let rest = outs.drop_last();
        lemma_population_after_pellets(k, rest, food_pre, is_food);
        assert(after_pellets(k, outs) =~= after_pellets(k, rest).push(outs.last()));
        assert(after_pellets(k, outs).drop_last() == after_pellets(k, rest));
        assert(all[(k + rest.len()) as int] == is_food[rest.len() as int]);
    }
}

proof fn lemma_population_of_pellets(k: nat, food_pre: Seq<bool>, is_food: Seq<bool>)
    requires
        food_pre.len() == k,
        forall|j: int| 0 <= j < k ==> food_pre[j],
    ensures
        population(Seq::new(k, |j: int| Outcome::Stays), food_pre + is_food) == 0,
    decreases k,
{
    let all = food_pre + is_food;
    let outs = Seq::new(k, |j: int| Outcome::Stays);
    if k > 0 {
        let shorter = food_pre.drop_last();
        lemma_population_of_pellets((k - 1) as nat, shorter, food_pre.subrange(k - 1, k as int) + is_food);
        assert(shorter + (food_pre.subrange(k - 1, k as int) + is_food) =~= all);
        assert(outs.drop_last() =~= Seq::new((k - 1) as nat, |j: int| Outcome::Stays));
        assert(all[k - 1] == food_pre[k - 1]);
    }
}

/// Food pellets do not count toward the population cap: putting `k` kept
/// food pellets (never eaten) in front of the molecules of a step keeps them
/// and leaves the outcome of every other molecule unchanged.
pub proof fn lemma_food_does_not_count(
    fates: Seq<Fate>,
    is_food: Seq<bool>,
    rebuilt_ok: Seq<bool>,
    starved: Seq<bool>,
    ripe: Seq<bool>,
    n: nat,
    k: nat,
    fates_pre: Seq<Fate>,
    food_pre: Seq<bool>,
    rebuilt_pre: Seq<bool>,
    starved_pre: Seq<bool>,
    ripe_pre: Seq<bool>,
)
    requires
        fates_pre.len() == k,
        food_pre.len() == k,
        rebuilt_pre.len() == k,
        starved_pre.len() == k,
        ripe_pre.len() == k,
        forall|j: int| 0 <= j < k ==> food_pre[j] && fates_pre[j] != Fate::Eaten,
        fates.len() >= n,
        is_food.len() >= n,
        rebuilt_ok.len() >= n,
        starved.len() >= n,
        ripe.len() >= n,
    ensures
        settled(
            fates_pre + fates,
            food_pre + is_food,
            rebuilt_pre + rebuilt_ok,
            starved_pre + starved,
            ripe_pre + ripe,
            k + n,
        ) == after_pellets(k, settled(fates, is_food, rebuilt_ok, starved, ripe, n)),
    decreases n,
{
    let f2 = fates_pre + fates;
    let i2 = food_pre + is_food;
    let o2 = rebuilt_pre + rebuilt_ok;
    let s2 = starved_pre + starved;
    let r2 = ripe_pre + ripe;
    if n == 0 {
        lemma_pellets_settle(f2, i2, o2, s2, r2, k, k);
        assert(after_pellets(k, Seq::<Outcome>::empty()) =~= Seq::new(k, |j: int| Outcome::Stays));
    } else {
        let m = (n - 1) as nat;
        lemma_food_does_not_count(
            fates,
            is_food,
            rebuilt_ok,
            starved,
            ripe,
            m,
            k,
            fates_pre,
            food_pre,
            rebuilt_pre,
            starved_pre,
            ripe_pre,
        );
        let small = settled(fates, is_food, rebuilt_ok, starved, ripe, m);
        let big = settled(f2, i2, o2, s2, r2, k + m);
        lemma_settled_prefix(fates, is_food, rebuilt_ok, starved, ripe, m, m);
        lemma_population_after_pellets(k, small, food_pre, is_food);
        assert(((k + n) - 1) as nat == k + m);
        assert(f2[(k + m) as int] == fates[m as int]);
        assert(i2[(k + m) as int] == is_food[m as int]);
        assert(o2[(k + m) as int] == rebuilt_ok[m as int]);
        assert(s2[(k + m) as int] == starved[m as int]);
        assert(r2[(k + m) as int] == ripe[m as int]);
        let small1 = settled(fates, is_food, rebuilt_ok, starved, ripe, n);
        assert(after_pellets(k, small1) =~= after_pellets(k, small).push(small1.last()));
    }
}

proof fn lemma_pellets_settle(
    fates: Seq<Fate>,
    is_food: Seq<bool>,
    rebuilt_ok: Seq<bool>,
    starved: Seq<bool>,
    ripe: Seq<bool>,
    k: nat,
    j: nat,
)
    requires
        j <= k,
        k <= is_food.len(),
        forall|t: int| 0 <= t < k ==> is_food[t] && fates[t] != Fate::Eaten,
    ensures
        settled(fates, is_food, rebuilt_ok, starved, ripe, j) == Seq::new(j, |t: int| Outcome::Stays),
    decreases j,
{
    if j > 0 {
        lemma_pellets_settle(fates, is_food, rebuilt_ok, starved, ripe, k, (j - 1) as nat);
        assert(settled(fates, is_food, rebuilt_ok, starved, ripe, j) =~= Seq::new(j, |t: int| Outcome::Stays));
    }
}

/// Settle the molecules of a step in order, given for each its fate, whether
/// it is food, whether its rebuild after a bite leaves a molecule, and whether
/// its pool is empty or above the reproduction threshold. A molecule
/// reproduces only while the living population counted so far (molecules
/// kept and children born) is below `MAX_MOLECULES`. Returns the outcomes and
/// the count of living molecules, `alive_count` plus the births minus the
/// deaths.
pub fn settle(
    fates: &Vec<Fate>,
    is_food: &Vec<bool>,
    rebuilt_ok: &Vec<bool>,
    starved: &Vec<bool>,
    ripe: &Vec<bool>,
    alive_count: usize,
) -> (r: (Vec<Outcome>, usize))
    requires
        is_food@.len() == fates@.len(),
        rebuilt_ok@.len() == fates@.len(),
        starved@.len() == fates@.len(),
        ripe@.len() == fates@.len(),
        forall|k: nat|
            k <= fates@.len() ==> 0 <= #[trigger] alive_after(
                alive_count as int,
                settled(fates@, is_food@, rebuilt_ok@, starved@, ripe@, k),
            ) <= usize::MAX,
    ensures
        r.0@ == settled(fates@, is_food@, rebuilt_ok@, starved@, ripe@, fates@.len() as nat),
        r.1 == alive_after(alive_count as int, r.0@),
        forall|i: int|
            0 <= i < r.0@.len() && #[trigger] r.0@[i] == Outcome::Reproduces ==> population(
                r.0@.take(i),
                is_food@,
            ) < MAX_MOLECULES,
{
    let n = fates.len();
    let mut outs: Vec<Outcome> = Vec::new();
    let mut living: usize = 0;
    let mut born: usize = 0;
    let mut alive: usize = alive_count;
    let mut i: usize = 0;
    while i < n
        invariant
            n == fates@.len(),
            is_food@.len() == n,
            rebuilt_ok@.len() == n,
            starved@.len() == n,
            ripe@.len() == n,
            i <= n,
            outs@ == settled(fates@, is_food@, rebuilt_ok@, starved@, ripe@, i as nat),
            living == living_kept(outs@, is_food@),
            born == count_of(outs@, Outcome::Reproduces),
            alive == alive_after(alive_count as int, outs@),
            forall|k: nat|
                k <= fates@.len() ==> 0 <= #[trigger] alive_after(
                    alive_count as int,
                    settled(fates@, is_food@, rebuilt_ok@, starved@, ripe@, k),
                ) <= usize::MAX,
        decreases n - i,
    {
        proof {
            lemma_settled_prefix(fates@, is_food@, rebuilt_ok@, starved@, ripe@, i as nat, i as nat);
            lemma_counts_bounded(outs@, is_food@, Outcome::Reproduces);
            assert(alive_after(alive_count as int, settled(fates@, is_food@, rebuilt_ok@, starved@, ripe@, (i + 1) as nat)) <= usize::MAX);
            assert(alive_after(alive_count as int, settled(fates@, is_food@, rebuilt_ok@, starved@, ripe@, (i + 1) as nat)) >= 0);
        }
        let fate = fates[i];
        let o = if is_food[i] {
            if fate == Fate::Eaten {
                Outcome::Consumed
            } else {
                Outcome::Stays
            }
        } else if fate == Fate::SeedLost || (fate == Fate::Bitten && !rebuilt_ok[i]) || starved[i] {
            Outcome::Dissolves
        } else if ripe[i] && living < MAX_MOLECULES && born < MAX_MOLECULES - living {
            Outcome::Reproduces
        } else {
            Outcome::Stays
        };
        let ghost prev = outs@;
        outs.push(o);
        proof {
            assert(outs@.drop_last() == prev);
        }
        match o {
            Outcome::Reproduces => {
                living = living + 1;
                born = born + 1;
                alive = alive + 1;
            },
            Outcome::Dissolves => {
                alive = alive - 1;
            },
            Outcome::Stays => {
                if !is_food[i] {
                    living = living + 1;
                }
            },
            Outcome::Consumed => {},
        }
        i = i + 1;
    }
    proof {
        lemma_settled_prefix(fates@, is_food@, rebuilt_ok@, starved@, ripe@, n as nat, n as nat);
        assert forall|j: int|
            0 <= j < outs@.len() && #[trigger] outs@[j] == Outcome::Reproduces implies population(
                outs@.take(j),
                is_food@,
            ) < MAX_MOLECULES by {
            lemma_settled_prefix(fates@, is_food@, rebuilt_ok@, starved@, ripe@, n as nat, j as nat);
            lemma_settled_prefix(fates@, is_food@, rebuilt_ok@, starved@, ripe@, n as nat, (j + 1) as nat);
            let pre = settled(fates@, is_food@, rebuilt_ok@, starved@, ripe@, j as nat);
            let pre1 = settled(fates@, is_food@, rebuilt_ok@, starved@, ripe@, (j + 1) as nat);
            assert(pre1[j] == outs@.take(j + 1)[j]);
        }
    }
    (outs, alive)
}

/// The atoms claimed so far in one step, as `(molecule, atom)` pairs.
pub struct BiteClaims {
    claimed: FxHashSet<(usize, usize)>,
}

impl View for BiteClaims {
    type V = Set<(usize, usize)>;

    closed spec fn view(&self) -> Set<(usize, usize)> {
        self.claimed@
    }
}

impl BiteClaims {
    /// No atom claimed yet.
    pub fn new() -> (c: BiteClaims)
        ensures
            c@ == Set::<(usize, usize)>::empty(),
    {
        BiteClaims { claimed: fx_pair_set_new() }
    }

    /// Decide one bite on the atom `victim`, bites being decided closest
    /// first: it claims the atom when its biter is `fast` enough and no
    /// earlier bite claimed it. A claimed atom is never claimed again.
    pub fn try_claim(&mut self, victim: (usize, usize), fast: bool) -> (won: bool)
        ensures
            won == (fast && !old(self)@.contains(victim)),
            final(self)@ == if won {
                old(self)@.insert(victim)
            } else {
                old(self)@
            },
    {
        if fx_pair_set_contains(&self.claimed, victim) || !fast {
            return false;
        }
        fx_pair_set_insert(&mut self.claimed, victim);
        true
    }

    /// Whether atom `atom` of molecule `molecule` was claimed.
    pub fn is_claimed(&self, molecule: usize, atom: usize) -> (b: bool)
        ensures
            b == self@.contains((molecule, atom)),
    {
        fx_pair_set_contains(&self.claimed, (molecule, atom))
    }

    /// The claimed atoms of molecule `molecule` among its first `atoms`
    /// atoms, in increasing order.
    pub fn victims_of(&self, molecule: usize, atoms: usize) -> (v: Vec<usize>)
        ensures
            forall|a: usize| v@.contains(a) <==> a < atoms && self@.contains((molecule, a)),
            forall|i: int, j: int| 0 <= i < j < v@.len() ==> v@[i] < v@[j],
    {
        let mut v: Vec<usize> = Vec::new();
        let mut a: usize = 0;
        while a < atoms
            invariant
                a <= atoms,
                forall|x: usize| v@.contains(x) <==> x < a && self@.contains((molecule, x)),
                forall|i: int, j: int| 0 <= i < j < v@.len() ==> v@[i] < v@[j],
                forall|i: int| 0 <= i < v@.len() ==> v@[i] < a,
            decreases atoms - a,
        {
            let ghost before = v@;
            if fx_pair_set_contains(&self.claimed, (molecule, a)) {
                v.push(a);
            }
            proof {
                assert forall|x: usize| v@.contains(x) <==> x < a + 1 && self@.contains((molecule, x)) by {
                    if v@.contains(x) {
                        let i = choose|i: int| 0 <= i < v@.len() && v@[i] == x;
                        if i < before.len() {
                            assert(before[i] == x);
                            assert(before.contains(x));
                        }
                    }
                    if x < a && self@.contains((molecule, x)) {
                        assert(before.contains(x));
                        let i = choose|i: int| 0 <= i < before.len() && before[i] == x;
                        assert(v@[i] == x);
                    }
                    if x == a && self@.contains((molecule, x)) {
                        assert(v@[v@.len() - 1] == a);
                    }
                }
            }
            a = a + 1;
        }
        v
    }
}

/// How many of `offered` new food pellets the world admits when it holds
/// `food` pellets: none at the food cap, otherwise as many as fit below it.
pub open spec fn food_room_spec(food: int, offered: int) -> int {
    if food >= MAX_FOOD {
        0
    } else if offered < MAX_FOOD - food {
        offered
    } else {
        MAX_FOOD - food
    }
}

/// The food the world admits never takes it past the food cap and is as much
/// as the cap allows: every pellet offered, or exactly enough to reach the
/// cap; at or above the cap, none.
pub proof fn lemma_food_room_fills_to_cap(food: int, offered: int)
    requires
        food >= 0,
        offered >= 0,
    ensures
        0 <= food_room_spec(food, offered) <= offered,
        food < MAX_FOOD ==> food + food_room_spec(food, offered) <= MAX_FOOD,
        food < MAX_FOOD ==> food_room_spec(food, offered) == offered || food + food_room_spec(food, offered)
            == MAX_FOOD,
        food >= MAX_FOOD ==> food_room_spec(food, offered) == 0,
{
}

/// How many of `offered` new food pellets the world admits when it holds
/// `food` pellets.
pub fn food_room(food: usize, offered: usize) -> (k: usize)
    ensures
        k == food_room_spec(food as int, offered as int),
        k <= offered,
        food + k <= MAX_FOOD || k == 0,
{
    if food >= MAX_FOOD {
        0
    } else if offered < MAX_FOOD - food {
        offered
    } else {
        MAX_FOOD - food
    }
}

/// How many pellets the ambient food rain adds to a world holding `food`
/// pellets: a shower of `FOOD_SPAWN_PER_STEP` (as far as the food cap allows)
/// while it holds fewer than `AMBIENT_FOOD_TARGET`, otherwise none.
pub fn ambient_rain(food: usize) -> (k: usize)
    ensures
        k == if food < AMBIENT_FOOD_TARGET {
            food_room_spec(food as int, FOOD_SPAWN_PER_STEP as int)
        } else {
            0
        },
{
    if food < AMBIENT_FOOD_TARGET {
        food_room(food, FOOD_SPAWN_PER_STEP)
    } else {
        0
    }
}

} // verus!
