//! Mutating a freshly bred squad.
//!
//! With the configured probability one member, chosen at random, is
//! replaced by a random entry of the pool, without looking at the limits.
//! A squad that the validator then rejects is thrown away and a new one is
//! drafted in its place.

use crate::generate::{generate_random_team, lemma_drafted_is_valid, random_team, DRAW_LIMIT};
use crate::model::{drawn_from, is_valid, Config, GaError, Player};
use crate::random::{advance, chance_at, index_at, RandomSource};
use crate::validate::satisfies_constraints;
use vstd::prelude::*;

verus! {

/// `team` after the random swap that a mutation in `state` makes, if it
/// makes one, and the state afterwards.
pub open spec fn perturbed(team: Seq<Player>, pool: Seq<Player>, config: Config, state: u64) -> (
    Seq<Player>,
    u64,
) {
    if chance_at(state, config.mutation_rate) && team.len() > 0 && pool.len() > 0 {
        let slot = index_at(advance(state), team.len());
        let pick = index_at(advance(advance(state)), pool.len());
        (team.update(slot, pool[pick]), advance(advance(advance(state))))
    } else {
        (team, advance(state))
    }
}

/// The squad that a mutation in `state` turns `team` into, unless a
/// replacement is needed and cannot be drafted, and the state afterwards.
pub open spec fn mutated(team: Seq<Player>, pool: Seq<Player>, config: Config, state: u64) -> (
    Option<Seq<Player>>,
    u64,
) {
    let (changed, after) = perturbed(team, pool, config, state);
    if is_valid(changed, config) {
        (Some(changed), after)
    } else {
        random_team(pool, config, after)
    }
}

/// Whatever the draws, a mutated squad is one the game accepts, and it is
/// made of pool entries if the squad it came from was.
pub proof fn lemma_mutated_is_valid(
    team: Seq<Player>,
    pool: Seq<Player>,
    config: Config,
    state: u64,
)
    ensures
        mutated(team, pool, config, state).0 matches Some(squad) ==> is_valid(squad, config) && (
        drawn_from(team, pool) ==> drawn_from(squad, pool)),
{
    let (changed, after) = perturbed(team, pool, config, state);
    if !is_valid(changed, config) {
        lemma_drafted_is_valid(pool, config, Seq::empty(), after, DRAW_LIMIT as nat);
    } else if drawn_from(team, pool) {
        assert forall|i: int| 0 <= i < changed.len() implies pool.contains(
            #[trigger] changed[i],
        ) by {
            if changed[i] != team[i] {
                assert(pool.contains(pool[index_at(advance(advance(state)), pool.len())]));
            } else {
                assert(pool.contains(team[i]));
            }
        }
    }
}

/// Puts a copy of `player` in place `slot` of `team`.
pub fn replace_member(team: &mut Vec<Player>, slot: usize, player: &Player)
    requires
        slot < old(team)@.len(),
    ensures
        final(team)@ == old(team)@.update(slot as int, *player),
{
    team.set(slot, player.clone());
}

/// Mutates `team`: with probability `config.mutation_rate` swaps one
/// random member for a random entry of `players`; then hands the squad back
/// if the validator accepts it, and drafts a new squad from `players`
/// otherwise.
///
/// A squad that is returned is always accepted by the validator. The error
/// comes exactly when a replacement had to be drafted and the draft failed.
pub fn mutate(team: Vec<Player>, players: &Vec<Player>, config: &Config, rng: &mut RandomSource) -> (result:
    Result<Vec<Player>, GaError>)
    requires
        config.mutation_rate.is_probability(),
    ensures
        final(rng)@ == mutated(team@, players@, *config, old(rng)@).1,
        (match result {
            Ok(squad) => mutated(team@, players@, *config, old(rng)@).0 == Some(squad@)
                && is_valid(squad@, *config) && (drawn_from(team@, players@) ==> drawn_from(
                squad@,
                players@,
            )),
            Err(error) => mutated(team@, players@, *config, old(rng)@).0 is None && error
                == GaError::InfeasibleConstraints,
        }),
        is_valid(team@, *config) && config.mutation_rate.numerator == 0 ==> result == Ok::<
            Vec<Player>,
            GaError,
        >(team),
{
    proof {
        lemma_mutated_is_valid(team@, players@, *config, old(rng)@);
    }
    let mut team = team;
    if rng.chance(config.mutation_rate) && team.len() > 0 && players.len() > 0 {
        let slot = rng.index_below(team.len());
        let pick = rng.index_below(players.len());
        replace_member(&mut team, slot, &players[pick]);
    }
    if satisfies_constraints(&team, config) {
        Ok(team)
    } else {
        generate_random_team(players, config, rng)
    }
}

} // verus!
