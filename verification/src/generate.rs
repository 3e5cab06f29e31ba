//! Drafting random squads from the pool.
//!
//! A squad is drafted by drawing entries of the pool one at a time and
//! keeping each entry that still fits. The number of draws is limited, so a
//! pool that cannot fill a squad is reported instead of being drawn from
//! for ever.

use crate::model::{
    all_drawn_from, all_valid, count_position, count_team, drawn_from, has_element, is_valid,
    lemma_push_counts, squads, sum_values, within_limits, Config, GaError, Player, Position,
    SQUAD_SIZE,
};
use crate::random::{advance, index_at, RandomSource};
use crate::validate::{contains_element, position_count, team_count, total_value};
use vstd::prelude::*;

verus! {

/// The number of draws from the pool that one squad may take.
pub const DRAW_LIMIT: usize = 10_000;

/// `candidate` still fits into the unfinished squad `team`: it is not a
/// member yet, its position and its team have room, and the budget covers
/// its value.
pub open spec fn can_join(team: Seq<Player>, candidate: Player, config: Config) -> bool {
    &&& !has_element(team, candidate.element)
    &&& count_position(team, candidate.position) < config.max_positions.cap(candidate.position)
    &&& count_team(team, candidate.team@) < config.max_players_per_team
    &&& sum_values(team) + candidate.value <= config.budget_cap
}

/// `team` after `candidate` was offered to it: with the candidate at its
/// end if it fits, unchanged if not.
pub open spec fn offered(team: Seq<Player>, candidate: Player, config: Config) -> Seq<Player> {
    if can_join(team, candidate, config) {
        team.push(candidate)
    } else {
        team
    }
}

/// The squad that grows out of `team` within `draws` further draws starting
/// in `state`, if it gets full, and the state after the last draw taken.
pub open spec fn drafted(
    pool: Seq<Player>,
    config: Config,
    team: Seq<Player>,
    state: u64,
    draws: nat,
) -> (Option<Seq<Player>>, u64)
    decreases draws,
{
    if team.len() >= SQUAD_SIZE {
        (Some(team), state)
    } else if draws == 0 || pool.len() == 0 {
        (None, state)
    } else {
        drafted(
            pool,
            config,
            offered(team, pool[index_at(state, pool.len())], config),
            advance(state),
            (draws - 1) as nat,
        )
    }
}

/// The squad drafted from `pool` starting in `state`, if the draw limit
/// suffices, and the state afterwards.
pub open spec fn random_team(pool: Seq<Player>, config: Config, state: u64) -> (
    Option<Seq<Player>>,
    u64,
) {
    drafted(pool, config, Seq::empty(), state, DRAW_LIMIT as nat)
}

/// The population that grows out of `squads_so_far` by drafting `count`
/// further squads starting in `state`, if every draft succeeds, and the
/// state afterwards.
pub open spec fn populated(
    pool: Seq<Player>,
    config: Config,
    squads_so_far: Seq<Seq<Player>>,
    state: u64,
    count: nat,
) -> (Option<Seq<Seq<Player>>>, u64)
    decreases count,
{
    if count == 0 {
        (Some(squads_so_far), state)
    } else {
        match random_team(pool, config, state) {
            (Some(team), next) => populated(
                pool,
                config,
                squads_so_far.push(team),
                next,
                (count - 1) as nat,
            ),
            (None, next) => (None, next),
        }
    }
}

/// The first population of a run that starts in `state`.
pub open spec fn initial_population(pool: Seq<Player>, config: Config, state: u64) -> (
    Option<Seq<Seq<Player>>>,
    u64,
) {
    populated(pool, config, Seq::empty(), state, config.population_size as nat)
}

/// A squad within its limits stays within them when a fitting player joins.
pub proof fn lemma_join_keeps_limits(team: Seq<Player>, candidate: Player, config: Config)
    requires
        within_limits(team, config),
        can_join(team, candidate, config),
    ensures
        within_limits(team.push(candidate), config),
{
    let grown = team.push(candidate);
    lemma_push_counts(team, candidate);
    assert forall|i: int, j: int| 0 <= i < j < grown.len() implies (#[trigger] grown[i]).element
        != (#[trigger] grown[j]).element by {
        if j < team.len() {
            assert(team[i].element != team[j].element);
        } else {
            assert(team[i].element != candidate.element);
        }
    }
    assert forall|position: Position| #[trigger]
        count_position(grown, position) <= config.max_positions.cap(position) by {
        assert(count_position(team, position) <= config.max_positions.cap(position));
    }
    assert forall|name: Seq<char>| #[trigger]
        count_team(grown, name) <= config.max_players_per_team by {
        assert(count_team(team, name) <= config.max_players_per_team);
    }
}

/// Whatever the draws, a drafted squad is one the game accepts and is made
/// of entries of the pool.
pub proof fn lemma_drafted_is_valid(
    pool: Seq<Player>,
    config: Config,
    team: Seq<Player>,
    state: u64,
    draws: nat,
)
    requires
        within_limits(team, config),
        drawn_from(team, pool),
        team.len() <= SQUAD_SIZE,
    ensures
        drafted(pool, config, team, state, draws).0 matches Some(squad) ==> is_valid(squad, config)
            && drawn_from(squad, pool),
        pool.len() == 0 && team.len() < SQUAD_SIZE ==> drafted(
            pool,
            config,
            team,
            state,
            draws,
        ).0 is None,
    decreases draws,
{
    if team.len() < SQUAD_SIZE && draws > 0 && pool.len() > 0 {
        let candidate = pool[index_at(state, pool.len())];
        if can_join(team, candidate, config) {
            lemma_join_keeps_limits(team, candidate, config);
            let grown = team.push(candidate);
            assert forall|i: int| 0 <= i < grown.len() implies pool.contains(#[trigger] grown[i]) by {
                if i < team.len() {
                    assert(pool.contains(team[i]));
                }
            }
            lemma_drafted_is_valid(pool, config, grown, advance(state), (draws - 1) as nat);
        } else {
            lemma_drafted_is_valid(pool, config, team, advance(state), (draws - 1) as nat);
        }
    }
}

/// From a pool that holds no squad the game accepts, nothing is drafted,
/// whatever the draws.
pub proof fn infeasible_pool_drafts_nothing(pool: Seq<Player>, config: Config, state: u64)
    requires
        forall|team: Seq<Player>| !(is_valid(team, config) && #[trigger] drawn_from(team, pool)),
    ensures
        random_team(pool, config, state).0 is None,
{
    lemma_drafted_is_valid(pool, config, Seq::empty(), state, DRAW_LIMIT as nat);
}

/// Tells whether `candidate` still fits into the unfinished squad `team`.
pub fn accepts(team: &Vec<Player>, candidate: &Player, config: &Config) -> (ok: bool)
    ensures
        ok == can_join(team@, *candidate, *config),
{
    let spent = total_value(team);
    assert(spent <= team.len() * 0xFFFF_FFFF);
    !contains_element(team, candidate.element) && position_count(team, candidate.position)
        < config.max_positions.limit(candidate.position) && team_count(team, &candidate.team)
        < config.max_players_per_team && spent + candidate.value as u128
        <= config.budget_cap as u128
}

/// Offers `candidate` to the unfinished squad `team`: appends a copy if it
/// still fits and says whether it did.
pub fn offer(team: &mut Vec<Player>, candidate: &Player, config: &Config) -> (joined: bool)
    ensures
        joined == can_join(old(team)@, *candidate, *config),
        final(team)@ == offered(old(team)@, *candidate, *config),
{
    let joined = accepts(team, candidate, config);
    if joined {
        team.push(candidate.clone());
    }
    joined
}

/// Drafts one squad: draws entries of `players` at random and keeps each
/// that still fits, until fifteen are kept or `DRAW_LIMIT` draws are spent.
///
/// The result is fixed by the state of `rng`. A squad that is returned is
/// accepted by the validator and made of pool entries; an empty pool, or
/// one that holds no acceptable squad, always ends in the error.
pub fn generate_random_team(players: &Vec<Player>, config: &Config, rng: &mut RandomSource) -> (result:
    Result<Vec<Player>, GaError>)
    ensures
        final(rng)@ == random_team(players@, *config, old(rng)@).1,
        (match result {
            Ok(team) => random_team(players@, *config, old(rng)@).0 == Some(team@) && is_valid(
                team@,
                *config,
            ) && drawn_from(team@, players@),
            Err(error) => random_team(players@, *config, old(rng)@).0 is None && error
                == GaError::InfeasibleConstraints,
        }),
        players@.len() == 0 ==> result is Err,
{
    let mut team: Vec<Player> = Vec::new();
    let mut draws: usize = DRAW_LIMIT;
    proof {
        lemma_drafted_is_valid(players@, *config, Seq::empty(), old(rng)@, DRAW_LIMIT as nat);
    }
    if players.len() == 0 {
        return Err(GaError::InfeasibleConstraints);
    }
    while team.len() < SQUAD_SIZE && draws > 0
        invariant
            players@.len() > 0,
            team@.len() <= SQUAD_SIZE,
            drafted(players@, *config, team@, rng@, draws as nat) == random_team(
                players@,
                *config,
                old(rng)@,
            ),
        decreases draws,
    {
        let pick = rng.index_below(players.len());
        offer(&mut team, &players[pick], config);
        draws = draws - 1;
    }
    if team.len() == SQUAD_SIZE {
        Ok(team)
    } else {
        Err(GaError::InfeasibleConstraints)
    }
}

/// Appending a squad to a population appends its members to the squads.
pub proof fn lemma_squads_push(population: Seq<Vec<Player>>, team: Vec<Player>)
    ensures
        squads(population.push(team)) == squads(population).push(team@),
{
    assert(squads(population.push(team)) =~= squads(population).push(team@));
}

/// Whatever the draws, every squad of a population that was filled by
/// drafting is accepted by the validator and made of pool entries, and the
/// population has the size asked for.
pub proof fn lemma_populated_is_valid(
    pool: Seq<Player>,
    config: Config,
    squads_so_far: Seq<Seq<Player>>,
    state: u64,
    count: nat,
)
    requires
        all_valid(squads_so_far, config),
        all_drawn_from(squads_so_far, pool),
    ensures
        populated(pool, config, squads_so_far, state, count).0 matches Some(population) ==> {
            &&& population.len() == squads_so_far.len() + count
            &&& all_valid(population, config)
            &&& all_drawn_from(population, pool)
        },
    decreases count,
{
    if count > 0 {
        lemma_drafted_is_valid(pool, config, Seq::empty(), state, DRAW_LIMIT as nat);
        match random_team(pool, config, state) {
            (Some(team), next) => {
                lemma_populated_is_valid(
                    pool,
                    config,
                    squads_so_far.push(team),
                    next,
                    (count - 1) as nat,
                );
            },
            (None, next) => {},
        }
    }
}

/// Nothing can be drafted from an empty pool.
pub proof fn lemma_empty_pool(pool: Seq<Player>, config: Config, state: u64)
    requires
        pool.len() == 0,
        config.population_size > 0,
    ensures
        random_team(pool, config, state).0 is None,
        initial_population(pool, config, state).0 is None,
{
    lemma_drafted_is_valid(pool, config, Seq::empty(), state, DRAW_LIMIT as nat);
}

/// Drafts the first population: `config.population_size` squads, one after
/// the other. Fails as soon as one draft fails.
pub fn create_initial_population(
    players: &Vec<Player>,
    config: &Config,
    rng: &mut RandomSource,
) -> (result: Result<Vec<Vec<Player>>, GaError>)
    ensures
        final(rng)@ == initial_population(players@, *config, old(rng)@).1,
        (match result {
            Ok(population) => {
                &&& initial_population(players@, *config, old(rng)@).0 == Some(
                    squads(population@),
                )
                &&& population@.len() == config.population_size
                &&& all_valid(squads(population@), *config)
                &&& all_drawn_from(squads(population@), players@)
            },
            Err(error) => initial_population(players@, *config, old(rng)@).0 is None && error
                == GaError::InfeasibleConstraints,
        }),
{
    let mut population: Vec<Vec<Player>> = Vec::new();
    proof {
        assert(squads(population@) =~= Seq::empty());
        lemma_populated_is_valid(
            players@,
            *config,
            Seq::empty(),
            old(rng)@,
            config.population_size as nat,
        );
    }
    while population.len() < config.population_size
        invariant
            population@.len() <= config.population_size,
            populated(
                players@,
                *config,
                squads(population@),
                rng@,
                (config.population_size - population@.len()) as nat,
            ) == initial_population(players@, *config, old(rng)@),
        decreases config.population_size - population@.len(),
    {
        match generate_random_team(players, config, rng) {
            Ok(team) => {
                proof {
                    lemma_squads_push(population@, team);
                }
                population.push(team);
            },
            Err(error) => {
                return Err(error);
            },
        }
    }
    Ok(population)
}

} // verus!
