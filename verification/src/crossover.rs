//! Breeding a child from two parent squads.
//!
//! The child takes the head of the first parent and the tail of the second,
//! loses every player it then holds twice, and is filled up again with
//! players drawn from the first parent. If the outcome is not a squad the
//! game accepts, one of the parents is handed back unchanged.

use crate::model::{
    clone_team, distinct_elements, drawn_from, has_element, is_valid, lemma_drawn_from_trans,
    Config, Player, Ratio, SQUAD_SIZE,
};
use crate::random::{advance, chance_at, index_at, RandomSource};
use crate::validate::{contains_element, satisfies_constraints};
use vstd::prelude::*;

verus! {

/// The number of draws that filling up a child may take.
pub const REPAIR_LIMIT: usize = 400;

/// The first `split` members of `parent1` followed by all but the first
/// `split` members of `parent2`.
pub open spec fn spliced(parent1: Seq<Player>, parent2: Seq<Player>, split: int) -> Seq<Player> {
    parent1.take(split) + parent2.skip(split)
}

/// `team` with only the first member of every identifier kept.
pub open spec fn without_repeats(team: Seq<Player>) -> Seq<Player>
    decreases team.len(),
{
    if team.len() == 0 {
        team
    } else {
        let kept = without_repeats(team.drop_last());
        if has_element(kept, team.last().element) {
            kept
        } else {
            kept.push(team.last())
        }
    }
}

/// `child` with `candidate` appended, unless its identifier is taken.
pub open spec fn with_newcomer(child: Seq<Player>, candidate: Player) -> Seq<Player> {
    if has_element(child, candidate.element) {
        child
    } else {
        child.push(candidate)
    }
}

/// The squad that `child` becomes when up to `attempts` players are drawn
/// from `donor`, starting in `state`, and each newcomer among them is
/// appended until the squad is full; and the state afterwards.
pub open spec fn repaired(child: Seq<Player>, donor: Seq<Player>, state: u64, attempts: nat) -> (
    Seq<Player>,
    u64,
)
    decreases attempts,
{
    if child.len() >= SQUAD_SIZE || attempts == 0 || donor.len() == 0 {
        (child, state)
    } else {
        repaired(
            with_newcomer(child, donor[index_at(state, donor.len())]),
            donor,
            advance(state),
            (attempts - 1) as nat,
        )
    }
}

/// The odds of handing back the first rather than the second parent.
pub open spec fn even_odds() -> Ratio {
    Ratio { numerator: 1, denominator: 2 }
}

/// The child bred from `parent1` and `parent2` in `state`, and the state
/// afterwards.
pub open spec fn crossed(parent1: Seq<Player>, parent2: Seq<Player>, config: Config, state: u64) -> (
    Seq<Player>,
    u64,
) {
    let split = index_at(state, SQUAD_SIZE as nat);
    let (child, after) = repaired(
        without_repeats(spliced(parent1, parent2, split)),
        parent1,
        advance(state),
        REPAIR_LIMIT as nat,
    );
    if is_valid(child, config) {
        (child, after)
    } else if chance_at(after, even_odds()) {
        (parent1, advance(after))
    } else {
        (parent2, advance(after))
    }
}

/// Dropping repeats leaves no identifier twice, keeps only members of the
/// squad, and keeps every identifier of the squad.
pub proof fn lemma_without_repeats(team: Seq<Player>)
    ensures
        distinct_elements(without_repeats(team)),
        drawn_from(without_repeats(team), team),
        without_repeats(team).len() <= team.len(),
        forall|i: int|
            0 <= i < team.len() ==> has_element(
                without_repeats(team),
                (#[trigger] team[i]).element,
            ),
    decreases team.len(),
{
    if team.len() > 0 {
        let rest = team.drop_last();
        let kept = without_repeats(rest);
        let result = without_repeats(team);
        lemma_without_repeats(rest);
        assert forall|k: int| 0 <= k < result.len() implies team.contains(#[trigger] result[k]) by {
            if k < kept.len() {
                assert(rest.contains(kept[k]));
                let at = choose|at: int| 0 <= at < rest.len() && rest[at] == kept[k];
                assert(team[at] == kept[k]);
            } else {
                assert(team[team.len() - 1] == result[k]);
            }
        }
        assert forall|i: int| 0 <= i < team.len() implies has_element(
            result,
            (#[trigger] team[i]).element,
        ) by {
            if i < rest.len() {
                assert(has_element(kept, rest[i].element));
                let at = choose|at: int|
                    0 <= at < kept.len() && (#[trigger] kept[at]).element == rest[i].element;
                assert(result[at].element == team[i].element);
            } else if !has_element(kept, team.last().element) {
                assert(result[kept.len() as int].element == team[i].element);
            } else {
                let at = choose|at: int|
                    0 <= at < kept.len() && (#[trigger] kept[at]).element == team.last().element;
                assert(result[at].element == team[i].element);
            }
        }
        assert forall|a: int, b: int| 0 <= a < b < result.len() implies (#[trigger] result[a]).element
            != (#[trigger] result[b]).element by {
            if b < kept.len() {
                assert(kept[a].element != kept[b].element);
            }
        }
    }
}

/// Filling up a child only ever adds members of the donor.
pub proof fn lemma_repaired_members(
    child: Seq<Player>,
    donor: Seq<Player>,
    pool: Seq<Player>,
    state: u64,
    attempts: nat,
)
    requires
        drawn_from(child, pool),
        drawn_from(donor, pool),
    ensures
        drawn_from(repaired(child, donor, state, attempts).0, pool),
    decreases attempts,
{
    if !(child.len() >= SQUAD_SIZE || attempts == 0 || donor.len() == 0) {
        let candidate = donor[index_at(state, donor.len())];
        let grown = with_newcomer(child, candidate);
        assert forall|i: int| 0 <= i < grown.len() implies pool.contains(#[trigger] grown[i]) by {
            if i < child.len() {
                assert(pool.contains(child[i]));
            } else {
                assert(pool.contains(donor[index_at(state, donor.len())]));
            }
        }
        lemma_repaired_members(grown, donor, pool, advance(state), (attempts - 1) as nat);
    }
}

/// Whatever the draws, a child of two squads made of pool entries is made
/// of pool entries.
pub proof fn lemma_crossed_members(
    parent1: Seq<Player>,
    parent2: Seq<Player>,
    pool: Seq<Player>,
    config: Config,
    state: u64,
)
    requires
        parent1.len() == SQUAD_SIZE,
        parent2.len() == SQUAD_SIZE,
        drawn_from(parent1, pool),
        drawn_from(parent2, pool),
    ensures
        drawn_from(crossed(parent1, parent2, config, state).0, pool),
{
    let split = index_at(state, SQUAD_SIZE as nat);
    let joined = spliced(parent1, parent2, split);
    assert forall|i: int| 0 <= i < joined.len() implies pool.contains(#[trigger] joined[i]) by {
        if i < split {
            assert(joined[i] == parent1[i]);
            assert(pool.contains(parent1[i]));
        } else {
            assert(joined[i] == parent2[i]);
            assert(pool.contains(parent2[i]));
        }
    }
    lemma_without_repeats(joined);
    lemma_drawn_from_trans(without_repeats(joined), joined, pool);
    lemma_repaired_members(
        without_repeats(joined),
        parent1,
        pool,
        advance(state),
        REPAIR_LIMIT as nat,
    );
}

/// Joins the first `split` members of `parent1` and the members of
/// `parent2` from place `split` on.
pub fn splice(parent1: &Vec<Player>, parent2: &Vec<Player>, split: usize) -> (child: Vec<Player>)
    requires
        split <= parent1@.len(),
        split <= parent2@.len(),
    ensures
        child@ == spliced(parent1@, parent2@, split as int),
{
    let mut child: Vec<Player> = Vec::new();
    let mut i: usize = 0;
    while i < split
        invariant
            i <= split <= parent1@.len(),
            child@ == parent1@.take(i as int),
        decreases split - i,
    {
        child.push(parent1[i].clone());
        assert(parent1@.take(i as int + 1) =~= parent1@.take(i as int).push(parent1@[i as int]));
        i = i + 1;
    }
    let mut j: usize = split;
    while j < parent2.len()
        invariant
            split <= j <= parent2@.len(),
            child@ == parent1@.take(split as int) + parent2@.subrange(split as int, j as int),
        decreases parent2@.len() - j,
    {
        child.push(parent2[j].clone());
        assert(parent2@.subrange(split as int, j as int + 1) =~= parent2@.subrange(
            split as int,
            j as int,
        ).push(parent2@[j as int]));
        assert(child@ =~= parent1@.take(split as int) + parent2@.subrange(
            split as int,
            j as int + 1,
        ));
        j = j + 1;
    }
    assert(parent2@.subrange(split as int, parent2@.len() as int) =~= parent2@.skip(split as int));
    child
}

/// Drops every member whose identifier an earlier member already carries.
pub fn remove_duplicates(team: &Vec<Player>) -> (kept: Vec<Player>)
    ensures
        kept@ == without_repeats(team@),
        distinct_elements(kept@),
        drawn_from(kept@, team@),
        kept@.len() <= team@.len(),
{
    let mut kept: Vec<Player> = Vec::new();
    let mut i: usize = 0;
    assert(without_repeats(team@.take(0)) =~= kept@);
    while i < team.len()
        invariant
            i <= team.len(),
            kept@ == without_repeats(team@.take(i as int)),
        decreases team.len() - i,
    {
        assert(team@.take(i as int + 1).drop_last() =~= team@.take(i as int));
        if !contains_element(&kept, team[i].element) {
            kept.push(team[i].clone());
        }
        i = i + 1;
    }
    proof {
        assert(team@.take(team.len() as int) =~= team@);
        lemma_without_repeats(team@);
    }
    kept
}

/// Appends `candidate` to `child` unless a member already carries its
/// identifier.
pub fn add_newcomer(child: &mut Vec<Player>, candidate: &Player)
    ensures
        final(child)@ == with_newcomer(old(child)@, *candidate),
{
    if !contains_element(child, candidate.element) {
        child.push(candidate.clone());
    }
}

/// Fills `child` up from `donor`: draws up to `REPAIR_LIMIT` members of
/// `donor` and appends each newcomer among them, stopping once the child has
/// fifteen members.
pub fn repair(child: &mut Vec<Player>, donor: &Vec<Player>, rng: &mut RandomSource)
    ensures
        (final(child)@, final(rng)@) == repaired(
            old(child)@,
            donor@,
            old(rng)@,
            REPAIR_LIMIT as nat,
        ),
{
    let mut attempts: usize = REPAIR_LIMIT;
    if donor.len() == 0 {
        return ;
    }
    while child.len() < SQUAD_SIZE && attempts > 0
        invariant
            donor@.len() > 0,
            repaired(child@, donor@, rng@, attempts as nat) == repaired(
                old(child)@,
                donor@,
                old(rng)@,
                REPAIR_LIMIT as nat,
            ),
        decreases attempts,
    {
        let pick = rng.index_below(donor.len());
        add_newcomer(child, &donor[pick]);
        attempts = attempts - 1;
    }
}

/// The parent that is handed back when breeding fails: the first on
/// `first`, else the second.
pub fn fallback_parent(parent1: &Vec<Player>, parent2: &Vec<Player>, first: bool) -> (parent: Vec<
    Player,
>)
    ensures
        parent@ == if first {
            parent1@
        } else {
            parent2@
        },
{
    if first {
        clone_team(parent1)
    } else {
        clone_team(parent2)
    }
}

/// Whatever the draws, a child is a squad the game accepts or one of its
/// parents, member for member.
pub proof fn crossover_returns_valid_or_parent(
    parent1: Seq<Player>,
    parent2: Seq<Player>,
    config: Config,
    state: u64,
)
    ensures
        ({
            let child = crossed(parent1, parent2, config, state).0;
            is_valid(child, config) || child == parent1 || child == parent2
        }),
{
}

/// Breeds a child from two parents: splices them at a random place, drops
/// repeated players, fills the child up from `parent1`, and hands it back
/// if the validator accepts it; otherwise hands back a copy of `parent1` or
/// of `parent2`, each with even odds.
pub fn crossover(
    parent1: &Vec<Player>,
    parent2: &Vec<Player>,
    config: &Config,
    rng: &mut RandomSource,
) -> (child: Vec<Player>)
    requires
        parent1@.len() == SQUAD_SIZE,
        parent2@.len() == SQUAD_SIZE,
    ensures
        (child@, final(rng)@) == crossed(parent1@, parent2@, *config, old(rng)@),
        is_valid(child@, *config) || child@ == parent1@ || child@ == parent2@,
        is_valid(parent1@, *config) && is_valid(parent2@, *config) ==> is_valid(child@, *config),
        drawn_from(child@, parent1@ + parent2@),
{
    proof {
        let both = parent1@ + parent2@;
        assert forall|i: int| 0 <= i < parent1@.len() implies both.contains(
            #[trigger] parent1@[i],
        ) by {
            assert(both[i] == parent1@[i]);
        }
        assert forall|i: int| 0 <= i < parent2@.len() implies both.contains(
            #[trigger] parent2@[i],
        ) by {
            assert(both[parent1@.len() + i] == parent2@[i]);
        }
        lemma_crossed_members(parent1@, parent2@, both, *config, old(rng)@);
    }
    let split = rng.index_below(SQUAD_SIZE);
    let joined = splice(parent1, parent2, split);
    let mut child = remove_duplicates(&joined);
    repair(&mut child, parent1, rng);
    if satisfies_constraints(&child, config) {
        child
    } else {
        let first = rng.chance(Ratio { numerator: 1, denominator: 2 });
        fallback_parent(parent1, parent2, first)
    }
}

} // verus!
