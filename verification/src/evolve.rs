//! The evolution itself: breeding one generation from the last, and a whole
//! run from a seed to the best squad of the final generation.

use crate::crossover::{crossed, crossover, lemma_crossed_members};
use crate::fitness::{fitness, fitness_of};
use crate::generate::{
    create_initial_population, initial_population, lemma_empty_pool, lemma_populated_is_valid,
    lemma_squads_push,
};
use crate::model::{
    all_drawn_from, all_valid, clone_team, drawn_from, is_valid, squads, Config, GaError, Player,
    SQUAD_SIZE,
};
use crate::mutate::{lemma_mutated_is_valid, mutate, mutated};
use crate::random::{advance, index_at, RandomSource};
use crate::select::{fitnesses, lemma_selected, select_parents, selected};
use vstd::prelude::*;

verus! {

/// Every squad of `population` has exactly fifteen members.
pub open spec fn all_full(population: Seq<Seq<Player>>) -> bool {
    forall|i: int| 0 <= i < population.len() ==> (#[trigger] population[i]).len() == SQUAD_SIZE
}

/// The child bred in `state` from two parents drawn from `parents`, unless
/// its mutation fails, and the state afterwards.
pub open spec fn bred_child(
    parents: Seq<Seq<Player>>,
    pool: Seq<Player>,
    config: Config,
    state: u64,
) -> (Option<Seq<Player>>, u64) {
    let first = parents[index_at(state, parents.len())];
    let second = parents[index_at(advance(state), parents.len())];
    let (child, after) = crossed(first, second, config, advance(advance(state)));
    mutated(child, pool, config, after)
}

/// The generation that grows out of `children` by breeding `count` further
/// children in `state`, unless a mutation fails, and the state afterwards.
pub open spec fn bred(
    parents: Seq<Seq<Player>>,
    pool: Seq<Player>,
    config: Config,
    children: Seq<Seq<Player>>,
    state: u64,
    count: nat,
) -> (Option<Seq<Seq<Player>>>, u64)
    decreases count,
{
    if count == 0 {
        (Some(children), state)
    } else {
        match bred_child(parents, pool, config, state) {
            (Some(child), next) => bred(
                parents,
                pool,
                config,
                children.push(child),
                next,
                (count - 1) as nat,
            ),
            (None, next) => (None, next),
        }
    }
}

/// The generation that follows `population` in `state`, unless a mutation
/// fails, and the state afterwards.
pub open spec fn next_population(
    population: Seq<Seq<Player>>,
    pool: Seq<Player>,
    config: Config,
    state: u64,
) -> (Option<Seq<Seq<Player>>>, u64) {
    bred(
        selected(population, config),
        pool,
        config,
        Seq::empty(),
        state,
        config.population_size as nat,
    )
}

/// The population that `generations` generations of breeding turn
/// `population` into, starting in `state`, unless a mutation fails, and the
/// state afterwards.
pub open spec fn evolved(
    population: Seq<Seq<Player>>,
    pool: Seq<Player>,
    config: Config,
    state: u64,
    generations: nat,
) -> (Option<Seq<Seq<Player>>>, u64)
    decreases generations,
{
    if generations == 0 {
        (Some(population), state)
    } else {
        match next_population(population, pool, config, state) {
            (Some(next), after) => evolved(next, pool, config, after, (generations - 1) as nat),
            (None, after) => (None, after),
        }
    }
}

/// The place of the highest of `scores`; of the last one, if several are
/// equally high.
pub open spec fn best_index(scores: Seq<int>) -> int
    decreases scores.len(),
{
    if scores.len() <= 1 {
        0
    } else if scores.last() >= scores[best_index(scores.drop_last())] {
        scores.len() - 1
    } else {
        best_index(scores.drop_last())
    }
}

/// The squad of `population` with the highest fitness.
pub open spec fn fittest(population: Seq<Seq<Player>>, config: Config) -> Seq<Player> {
    population[best_index(fitnesses(population, config))]
}

/// The squad that a whole run from `seed` returns, unless a draft fails on
/// the way.
pub open spec fn best_team(pool: Seq<Player>, config: Config, seed: u64) -> Option<Seq<Player>> {
    match initial_population(pool, config, seed) {
        (Some(first), state) => match evolved(
            first,
            pool,
            config,
            state,
            config.generations as nat,
        ) {
            (Some(last), _) => Some(fittest(last, config)),
            (None, _) => None,
        },
        (None, _) => None,
    }
}

/// `best_index` points at an entry that no entry exceeds and that every
/// later entry falls short of.
pub proof fn lemma_best_index(scores: Seq<int>)
    requires
        scores.len() > 0,
    ensures
        0 <= best_index(scores) < scores.len(),
        forall|i: int| 0 <= i < scores.len() ==> #[trigger] scores[i] <= scores[best_index(scores)],
        forall|i: int|
            best_index(scores) < i < scores.len() ==> #[trigger] scores[i] < scores[best_index(
                scores,
            )],
    decreases scores.len(),
{
    if scores.len() > 1 {
        let rest = scores.drop_last();
        lemma_best_index(rest);
        assert forall|i: int| 0 <= i < scores.len() implies #[trigger] scores[i]
            <= scores[best_index(scores)] by {
            if i < rest.len() {
                assert(rest[i] <= rest[best_index(rest)]);
            }
        }
        assert forall|i: int| best_index(scores) < i < scores.len() implies #[trigger] scores[i]
            < scores[best_index(scores)] by {
            if i < rest.len() {
                assert(rest[i] < rest[best_index(rest)]);
            }
        }
    }
}

/// Breeds one child: draws two parents from `parents`, each at random and
/// the same one twice if it so happens, crosses them and mutates the outcome.
pub fn breed_child(
    parents: &Vec<Vec<Player>>,
    players: &Vec<Player>,
    config: &Config,
    rng: &mut RandomSource,
) -> (result: Result<Vec<Player>, GaError>)
    requires
        config.mutation_rate.is_probability(),
        parents@.len() > 0,
        all_full(squads(parents@)),
    ensures
        final(rng)@ == bred_child(squads(parents@), players@, *config, old(rng)@).1,
        (match result {
            Ok(child) => bred_child(squads(parents@), players@, *config, old(rng)@).0 == Some(
                child@,
            ) && is_valid(child@, *config) && (all_drawn_from(squads(parents@), players@)
                ==> drawn_from(child@, players@)),
            Err(error) => bred_child(squads(parents@), players@, *config, old(rng)@).0 is None
                && error == GaError::InfeasibleConstraints,
        }),
{
    let first = rng.index_below(parents.len());
    let second = rng.index_below(parents.len());
    assert(squads(parents@)[first as int] == parents@[first as int]@);
    assert(squads(parents@)[second as int] == parents@[second as int]@);
    let ghost state = rng@;
    let child = crossover(&parents[first], &parents[second], config, rng);
    proof {
        if all_drawn_from(squads(parents@), players@) {
            lemma_crossed_members(
                parents@[first as int]@,
                parents@[second as int]@,
                players@,
                *config,
                state,
            );
        }
    }
    mutate(child, players, config, rng)
}

/// Breeds the generation that follows `population`: keeps the better half
/// as parents and breeds `config.population_size` children from them.
///
/// Every squad of the new generation is accepted by the validator. The
/// error comes exactly when some mutation needed a replacement squad and
/// none could be drafted from `players`.
pub fn next_generation(
    population: &Vec<Vec<Player>>,
    players: &Vec<Player>,
    config: &Config,
    rng: &mut RandomSource,
) -> (result: Result<Vec<Vec<Player>>, GaError>)
    requires
        config.well_formed(),
        population@.len() > 0,
        all_full(squads(population@)),
    ensures
        final(rng)@ == next_population(squads(population@), players@, *config, old(rng)@).1,
        (match result {
            Ok(children) => {
                &&& next_population(squads(population@), players@, *config, old(rng)@).0 == Some(
                    squads(children@),
                )
                &&& children@.len() == config.population_size
                &&& all_valid(squads(children@), *config)
                &&& all_drawn_from(squads(population@), players@) ==> all_drawn_from(
                    squads(children@),
                    players@,
                )
            },
            Err(error) => next_population(squads(population@), players@, *config, old(rng)@).0
                is None && error == GaError::InfeasibleConstraints,
        }),
{
    proof {
        if all_drawn_from(squads(population@), players@) {
            lemma_next_population_is_sound(squads(population@), players@, *config, old(rng)@);
        }
    }
    let parents = select_parents(population, config);
    proof {
        assert forall|i: int| 0 <= i < parents@.len() implies (#[trigger] squads(
            parents@,
        )[i]).len() == SQUAD_SIZE by {
            let squad = squads(parents@)[i];
            assert(squads(population@).contains(squad));
            let at = choose|at: int|
                0 <= at < squads(population@).len() && squads(population@)[at] == squad;
            assert(squads(population@)[at].len() == SQUAD_SIZE);
        }
    }
    let mut children: Vec<Vec<Player>> = Vec::new();
    assert(squads(children@) =~= Seq::empty());
    while children.len() < config.population_size
        invariant
            config.well_formed(),
            parents@.len() > 0,
            all_full(squads(parents@)),
            children@.len() <= config.population_size,
            all_valid(squads(children@), *config),
            bred(
                squads(parents@),
                players@,
                *config,
                squads(children@),
                rng@,
                (config.population_size - children@.len()) as nat,
            ) == next_population(squads(population@), players@, *config, old(rng)@),
        decreases config.population_size - children@.len(),
    {
        match breed_child(&parents, players, config, rng) {
            Ok(child) => {
                proof {
                    lemma_squads_push(children@, child);
                }
                children.push(child);
            },
            Err(error) => {
                return Err(error);
            },
        }
    }
    Ok(children)
}

/// A copy of the squad of `population` with the highest fitness; of the
/// last such squad, if several are equally fit.
pub fn fittest_team(population: &Vec<Vec<Player>>, config: &Config) -> (team: Vec<Player>)
    requires
        population@.len() > 0,
    ensures
        team@ == fittest(squads(population@), *config),
        squads(population@).contains(team@),
        forall|i: int|
            0 <= i < population@.len() ==> fitness_of(#[trigger] population@[i]@, *config)
                <= fitness_of(team@, *config),
{
    let ghost scores = fitnesses(squads(population@), *config);
    let mut best: usize = 0;
    let mut best_score: i128 = fitness(&population[0], config);
    let mut i: usize = 1;
    while i < population.len()
        invariant
            1 <= i <= population@.len(),
            scores == fitnesses(squads(population@), *config),
            best == best_index(scores.take(i as int)),
            best < i,
            best_score == scores[best as int],
        decreases population@.len() - i,
    {
        assert(scores.take(i as int + 1).drop_last() =~= scores.take(i as int));
        let score = fitness(&population[i], config);
        assert(score == scores[i as int]);
        if score >= best_score {
            best = i;
            best_score = score;
        }
        i = i + 1;
    }
    proof {
        assert(scores.take(population@.len() as int) =~= scores);
        lemma_best_index(scores);
        assert(squads(population@)[best as int] == population@[best as int]@);
        assert forall|k: int| 0 <= k < population@.len() implies fitness_of(
            #[trigger] population@[k]@,
            *config,
        ) <= fitness_of(population@[best as int]@, *config) by {
            assert(scores[k] <= scores[best as int]);
        }
    }
    clone_team(&population[best])
}

/// Whatever the draws, a generation bred from full squads made of pool
/// entries consists of squads that the validator accepts and that are made
/// of pool entries.
pub proof fn lemma_bred_is_sound(
    parents: Seq<Seq<Player>>,
    pool: Seq<Player>,
    config: Config,
    children: Seq<Seq<Player>>,
    state: u64,
    count: nat,
)
    requires
        parents.len() > 0,
        all_full(parents),
        all_drawn_from(parents, pool),
        all_valid(children, config),
        all_drawn_from(children, pool),
    ensures
        bred(parents, pool, config, children, state, count).0 matches Some(generation) ==> {
            &&& generation.len() == children.len() + count
            &&& all_valid(generation, config)
            &&& all_drawn_from(generation, pool)
        },
    decreases count,
{
    if count > 0 {
        let first = parents[index_at(state, parents.len())];
        let second = parents[index_at(advance(state), parents.len())];
        let (child, after) = crossed(first, second, config, advance(advance(state)));
        lemma_crossed_members(first, second, pool, config, advance(advance(state)));
        lemma_mutated_is_valid(child, pool, config, after);
        match bred_child(parents, pool, config, state) {
            (Some(mutant), next) => {
                lemma_bred_is_sound(
                    parents,
                    pool,
                    config,
                    children.push(mutant),
                    next,
                    (count - 1) as nat,
                );
            },
            (None, next) => {},
        }
    }
}

/// Whatever the draws, the generation that follows a population of full
/// squads made of pool entries has `config.population_size` squads, all
/// accepted by the validator and made of pool entries.
pub proof fn lemma_next_population_is_sound(
    population: Seq<Seq<Player>>,
    pool: Seq<Player>,
    config: Config,
    state: u64,
)
    requires
        config.well_formed(),
        population.len() > 0,
        all_full(population),
        all_drawn_from(population, pool),
    ensures
        next_population(population, pool, config, state).0 matches Some(generation) ==> {
            &&& generation.len() == config.population_size
            &&& all_valid(generation, config)
            &&& all_drawn_from(generation, pool)
        },
{
    let parents = selected(population, config);
    lemma_selected(population, config);
    assert forall|k: int| 0 <= k < parents.len() implies (#[trigger] parents[k]).len()
        == SQUAD_SIZE && drawn_from(parents[k], pool) by {
        assert(population.contains(parents[k]));
        let at = choose|at: int| 0 <= at < population.len() && population[at] == parents[k];
        assert(population[at].len() == SQUAD_SIZE);
        assert(drawn_from(population[at], pool));
    }
    lemma_bred_is_sound(
        parents,
        pool,
        config,
        Seq::empty(),
        state,
        config.population_size as nat,
    );
}

/// Whatever the draws, breeding any number of generations from valid
/// squads made of pool entries ends with valid squads made of pool entries.
pub proof fn lemma_evolved_is_sound(
    population: Seq<Seq<Player>>,
    pool: Seq<Player>,
    config: Config,
    state: u64,
    generations: nat,
)
    requires
        config.well_formed(),
        population.len() > 0,
        all_valid(population, config),
        all_drawn_from(population, pool),
    ensures
        evolved(population, pool, config, state, generations).0 matches Some(last) ==> {
            &&& last.len() > 0
            &&& all_valid(last, config)
            &&& all_drawn_from(last, pool)
        },
    decreases generations,
{
    if generations > 0 {
        lemma_next_population_is_sound(population, pool, config, state);
        match next_population(population, pool, config, state) {
            (Some(next), after) => {
                lemma_evolved_is_sound(next, pool, config, after, (generations - 1) as nat);
            },
            (None, after) => {},
        }
    }
}

/// Whatever the seed, the squad that a run returns is accepted by the
/// validator and made of entries of the pool, and a run on an empty pool
/// returns none.
pub proof fn run_returns_valid_squad(pool: Seq<Player>, config: Config, seed: u64)
    requires
        config.well_formed(),
    ensures
        best_team(pool, config, seed) matches Some(team) ==> is_valid(team, config) && drawn_from(
            team,
            pool,
        ),
        pool.len() == 0 ==> best_team(pool, config, seed) is None,
{
    lemma_populated_is_valid(pool, config, Seq::empty(), seed, config.population_size as nat);
    if pool.len() == 0 {
        lemma_empty_pool(pool, config, seed);
    }
    match initial_population(pool, config, seed) {
        (Some(first), state) => {
            lemma_evolved_is_sound(first, pool, config, state, config.generations as nat);
            match evolved(first, pool, config, state, config.generations as nat) {
                (Some(last), _) => {
                    lemma_best_index(fitnesses(last, config));
                },
                (None, _) => {},
            }
        },
        (None, _) => {},
    }
}

/// Runs the whole optimisation: drafts the first population from
/// `players`, breeds `config.generations` generations, and returns a copy
/// of the fittest squad of the last one.
///
/// The outcome is fixed by `players`, `config` and `seed`: two runs on the
/// same three return the same squad. A squad that is returned is accepted
/// by the validator and made of entries of `players`. The error comes
/// exactly when some squad had to be drafted and could not be, within the
/// draw limit; on an empty pool it always comes.
pub fn select_best_team_ga(players: &Vec<Player>, config: &Config, seed: u64) -> (result: Result<
    Vec<Player>,
    GaError,
>)
    requires
        config.well_formed(),
    ensures
        (match result {
            Ok(team) => best_team(players@, *config, seed) == Some(team@) && is_valid(
                team@,
                *config,
            ) && drawn_from(team@, players@),
            Err(error) => best_team(players@, *config, seed) is None && error
                == GaError::InfeasibleConstraints,
        }),
        players@.len() == 0 ==> result is Err,
{
    proof {
        run_returns_valid_squad(players@, *config, seed);
    }
    let mut rng = RandomSource::new(seed);
    let mut population = match create_initial_population(players, config, &mut rng) {
        Ok(population) => population,
        Err(error) => {
            return Err(error);
        },
    };
    let ghost first = squads(population@);
    let ghost start = rng@;
    let mut generation: usize = 0;
    while generation < config.generations
        invariant
            config.well_formed(),
            generation <= config.generations,
            initial_population(players@, *config, seed) == (Some(first), start),
            population@.len() == config.population_size,
            all_valid(squads(population@), *config),
            evolved(
                squads(population@),
                players@,
                *config,
                rng@,
                (config.generations - generation) as nat,
            ) == evolved(first, players@, *config, start, config.generations as nat),
        decreases config.generations - generation,
    {
        let ghost before = rng@;
        let ghost parents = squads(population@);
        match next_generation(&population, players, config, &mut rng) {
            Ok(children) => {
                population = children;
            },
            Err(error) => {
                assert(evolved(
                    parents,
                    players@,
                    *config,
                    before,
                    (config.generations - generation) as nat,
                ).0 is None);
                return Err(error);
            },
        }
        assert(evolved(
            parents,
            players@,
            *config,
            before,
            (config.generations - generation) as nat,
        ) == evolved(
            squads(population@),
            players@,
            *config,
            rng@,
            (config.generations - generation - 1) as nat,
        ));
        generation = generation + 1;
    }
    Ok(fittest_team(&population, config))
}

} // verus!
