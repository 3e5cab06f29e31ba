//! Choosing the squads that breed the next generation: the better half of
//! the population by fitness.
//!
//! Squads are ranked by fitness, highest first; squads of equal fitness
//! keep the order they have in the population.

use crate::fitness::{fitness, fitness_of};
use crate::model::{all_valid, clone_team, squads, Config, Player};
use vstd::prelude::*;

verus! {

/// Entry `a` of `scores` is ranked ahead of entry `b`: it scores more, or
/// the same and comes first.
pub open spec fn ahead(scores: Seq<int>, a: int, b: int) -> bool {
    scores[a] > scores[b] || (scores[a] == scores[b] && a < b)
}

/// `order` with `index` put behind its last entry that scores at least as
/// much as `index` does.
pub open spec fn placed(order: Seq<int>, scores: Seq<int>, index: int) -> Seq<int>
    decreases order.len(),
{
    if order.len() == 0 || scores[order.last()] >= scores[index] {
        order.push(index)
    } else {
        placed(order.drop_last(), scores, index).push(order.last())
    }
}

/// The first `n` indices into `scores`, best first.
pub open spec fn ranking(scores: Seq<int>, n: nat) -> Seq<int>
    decreases n,
{
    if n == 0 {
        Seq::empty()
    } else {
        placed(ranking(scores, (n - 1) as nat), scores, n - 1)
    }
}

/// Fitness values as mathematical integers.
pub open spec fn score_values(scores: Seq<i128>) -> Seq<int> {
    scores.map_values(|score: i128| score as int)
}

/// Indices as mathematical integers.
pub open spec fn positions(order: Seq<usize>) -> Seq<int> {
    order.map_values(|index: usize| index as int)
}

/// Every entry of `order` is ranked ahead of all entries behind it.
pub open spec fn best_first(order: Seq<int>, scores: Seq<int>) -> bool {
    forall|a: int, b: int|
        0 <= a < b < order.len() ==> ahead(scores, #[trigger] order[a], #[trigger] order[b])
}

/// The fitness of every squad of `population`, in population order.
pub open spec fn fitnesses(population: Seq<Seq<Player>>, config: Config) -> Seq<int> {
    population.map_values(|team: Seq<Player>| fitness_of(team, config))
}

/// How many squads are kept for breeding.
pub open spec fn parent_count(population: Seq<Seq<Player>>, config: Config) -> nat {
    if config.population_size / 2 <= population.len() {
        (config.population_size / 2) as nat
    } else {
        population.len()
    }
}

/// The squads kept for breeding: the first `config.population_size / 2`
/// squads of `population` in order of fitness, best first.
pub open spec fn selected(population: Seq<Seq<Player>>, config: Config) -> Seq<Seq<Player>> {
    let order = ranking(fitnesses(population, config), population.len());
    Seq::new(parent_count(population, config), |k: int| population[order[k]])
}

/// Squad `i` of `population` is one of those kept for breeding.
pub open spec fn is_kept(population: Seq<Seq<Player>>, config: Config, i: int) -> bool {
    exists|k: int|
        0 <= k < parent_count(population, config) && #[trigger] ranking(
            fitnesses(population, config),
            population.len(),
        )[k] == i
}

/// Placing an index keeps a best-first order best-first and adds exactly
/// that index.
pub proof fn lemma_placed(order: Seq<int>, scores: Seq<int>, index: int)
    requires
        best_first(order, scores),
        forall|k: int| 0 <= k < order.len() ==> 0 <= #[trigger] order[k] < index,
    ensures
        placed(order, scores, index).len() == order.len() + 1,
        best_first(placed(order, scores, index), scores),
        placed(order, scores, index).contains(index),
        forall|k: int|
            0 <= k < order.len() ==> placed(order, scores, index).contains(#[trigger] order[k]),
        forall|k: int|
            0 <= k < placed(order, scores, index).len() ==> {
                let entry = #[trigger] placed(order, scores, index)[k];
                entry == index || order.contains(entry)
            },
    decreases order.len(),
{
    let result = placed(order, scores, index);
    if order.len() == 0 || scores[order.last()] >= scores[index] {
        assert(result[order.len() as int] == index);
        assert forall|k: int| 0 <= k < order.len() implies result.contains(#[trigger] order[k]) by {
            assert(result[k] == order[k]);
        }
        assert forall|a: int, b: int| 0 <= a < b < result.len() implies ahead(
            scores,
            #[trigger] result[a],
            #[trigger] result[b],
        ) by {
            if b < order.len() {
                assert(ahead(scores, order[a], order[b]));
            } else if a < order.len() - 1 {
                assert(ahead(scores, order[a], order[order.len() - 1]));
            }
        }
        assert forall|k: int| 0 <= k < result.len() implies {
            let entry = #[trigger] result[k];
            entry == index || order.contains(entry)
        } by {
            if k < order.len() {
                assert(order[k] == result[k]);
            }
        }
    } else {
        let rest = order.drop_last();
        let inner = placed(rest, scores, index);
        assert forall|a: int, b: int| 0 <= a < b < rest.len() implies ahead(
            scores,
            #[trigger] rest[a],
            #[trigger] rest[b],
        ) by {
            assert(ahead(scores, order[a], order[b]));
        }
        assert forall|k: int| 0 <= k < rest.len() implies 0 <= #[trigger] rest[k] < index by {
            assert(rest[k] == order[k]);
        }
        lemma_placed(rest, scores, index);
        let at = choose|at: int| 0 <= at < inner.len() && inner[at] == index;
        assert(result[at] == index);
        assert forall|k: int| 0 <= k < order.len() implies result.contains(#[trigger] order[k]) by {
            if k < rest.len() {
                assert(inner.contains(rest[k]));
                let j = choose|j: int| 0 <= j < inner.len() && inner[j] == rest[k];
                assert(result[j] == order[k]);
            } else {
                assert(result[inner.len() as int] == order[k]);
            }
        }
        assert forall|k: int| 0 <= k < result.len() implies {
            let entry = #[trigger] result[k];
            entry == index || order.contains(entry)
        } by {
            if k < inner.len() {
                let entry = inner[k];
                if entry != index {
                    assert(rest.contains(entry));
                    let j = choose|j: int| 0 <= j < rest.len() && rest[j] == entry;
                    assert(order[j] == entry);
                }
            } else {
                assert(order[order.len() - 1] == result[k]);
            }
        }
        assert forall|a: int, b: int| 0 <= a < b < result.len() implies ahead(
            scores,
            #[trigger] result[a],
            #[trigger] result[b],
        ) by {
            if b < inner.len() {
                assert(ahead(scores, inner[a], inner[b]));
            } else {
                let entry = inner[a];
                if entry != index {
                    assert(rest.contains(entry));
                    let j = choose|j: int| 0 <= j < rest.len() && rest[j] == entry;
                    assert(ahead(scores, order[j], order[order.len() - 1]));
                }
            }
        }
    }
}

/// The ranking of the first `n` scores lists each of the indices below `n`
/// once, every entry ranked ahead of all entries behind it: it is the
/// order of descending score in which equal scores keep their order.
pub proof fn lemma_ranking(scores: Seq<int>, n: nat)
    ensures
        ranking(scores, n).len() == n,
        best_first(ranking(scores, n), scores),
        forall|k: int| 0 <= k < n ==> 0 <= #[trigger] ranking(scores, n)[k] < n,
        forall|i: int| 0 <= i < n ==> ranking(scores, n).contains(i),
    decreases n,
{
    if n > 0 {
        let before = ranking(scores, (n - 1) as nat);
        let result = ranking(scores, n);
        lemma_ranking(scores, (n - 1) as nat);
        lemma_placed(before, scores, n - 1);
        assert forall|k: int| 0 <= k < n implies 0 <= #[trigger] result[k] < n by {
            let entry = result[k];
            if entry != n - 1 {
                assert(before.contains(entry));
            }
        }
        assert forall|i: int| 0 <= i < n implies result.contains(i) by {
            if i < n - 1 {
                assert(before.contains(i));
                let j = choose|j: int| 0 <= j < before.len() && before[j] == i;
                assert(result.contains(before[j]));
            }
        }
    }
}

/// The squads kept for breeding are as many as `parent_count` says, each of
/// them a squad of the population, in order of descending fitness.
pub proof fn lemma_selected(population: Seq<Seq<Player>>, config: Config)
    ensures
        selected(population, config).len() == parent_count(population, config),
        forall|k: int|
            0 <= k < selected(population, config).len() ==> population.contains(
                #[trigger] selected(population, config)[k],
            ),
        forall|a: int, b: int|
            0 <= a < b < selected(population, config).len() ==> fitness_of(
                #[trigger] selected(population, config)[a],
                config,
            ) >= fitness_of(#[trigger] selected(population, config)[b], config),
        forall|i: int, k: int|
            0 <= i < population.len() && 0 <= k < selected(population, config).len()
                ==> is_kept(population, config, i) || fitness_of(#[trigger] population[i], config)
                <= fitness_of(#[trigger] selected(population, config)[k], config),
{
    let scores = fitnesses(population, config);
    let order = ranking(scores, population.len());
    lemma_ranking(scores, population.len());
    assert forall|i: int, k: int|
        0 <= i < population.len() && 0 <= k < selected(population, config).len() implies is_kept(
        population,
        config,
        i,
    ) || fitness_of(#[trigger] population[i], config) <= fitness_of(
        #[trigger] selected(population, config)[k],
        config,
    ) by {
        assert(order.contains(i));
        let at = choose|at: int| 0 <= at < order.len() && order[at] == i;
        if at >= parent_count(population, config) {
            assert(0 <= order[k] < population.len());
            assert(ahead(scores, order[k], order[at]));
        }
    }
    assert forall|k: int| 0 <= k < selected(population, config).len() implies population.contains(
        #[trigger] selected(population, config)[k],
    ) by {
        assert(0 <= order[k] < population.len());
        assert(population[order[k]] == selected(population, config)[k]);
    }
    assert forall|a: int, b: int| 0 <= a < b < selected(population, config).len() implies fitness_of(
        #[trigger] selected(population, config)[a],
        config,
    ) >= fitness_of(#[trigger] selected(population, config)[b], config) by {
        assert(0 <= order[a] < population.len());
        assert(0 <= order[b] < population.len());
        assert(ahead(scores, order[a], order[b]));
    }
}

/// The indices into `scores`, best first; equal scores keep their order.
pub fn rank_by_fitness(scores: &Vec<i128>) -> (order: Vec<usize>)
    ensures
        positions(order@) == ranking(
            score_values(scores@),
            scores@.len(),
        ),
        order@.len() == scores@.len(),
        forall|k: int| 0 <= k < order@.len() ==> #[trigger] order@[k] < scores@.len(),
        forall|a: int, b: int|
            0 <= a < b < order@.len() ==> scores@[order@[a] as int] >= scores@[order@[b] as int],
{
    let ghost values = score_values(scores@);
    let mut order: Vec<usize> = Vec::new();
    let mut i: usize = 0;
    assert(positions(order@) =~= ranking(values, 0));
    while i < scores.len()
        invariant
            i <= scores.len(),
            values == score_values(scores@),
            order@.len() == i,
            positions(order@) == ranking(values, i as nat),
        decreases scores.len() - i,
    {
        let ghost before = positions(order@);
        proof {
            lemma_ranking(values, i as nat);
        }
        let mut k: usize = order.len();
        assert(before.take(k as int) =~= before);
        assert(before.skip(k as int) =~= Seq::<int>::empty());
        assert(placed(before, values, i as int) =~= placed(before, values, i as int) + before.skip(
            k as int,
        ));
        while k > 0 && scores[order[k - 1]] < scores[i]
            invariant
                k <= order@.len(),
                order@.len() == i < scores@.len(),
                values == score_values(scores@),
                before == positions(order@),
                forall|j: int| 0 <= j < before.len() ==> 0 <= #[trigger] before[j] < i,
                placed(before, values, i as int) == placed(
                    before.take(k as int),
                    values,
                    i as int,
                ) + before.skip(k as int),
            decreases k,
        {
            proof {
                let head = before.take(k as int);
                assert(head.last() == before[k - 1]);
                assert(head.drop_last() =~= before.take(k - 1));
                assert(placed(head, values, i as int) == placed(
                    before.take(k - 1),
                    values,
                    i as int,
                ).push(before[k - 1]));
                assert(placed(before.take(k - 1), values, i as int).push(before[k - 1])
                    + before.skip(k as int) =~= placed(before.take(k - 1), values, i as int)
                    + before.skip(k - 1));
            }
            k = k - 1;
        }
        proof {
            let head = before.take(k as int);
            if k > 0 {
                assert(head.last() == before[k - 1]);
            }
            assert(placed(head, values, i as int) == head.push(i as int));
            assert(head.push(i as int) + before.skip(k as int) =~= before.insert(
                k as int,
                i as int,
            ));
            assert(positions(order@.insert(k as int, i))
                =~= before.insert(k as int, i as int));
        }
        order.insert(k, i);
        i = i + 1;
    }
    proof {
        lemma_ranking(values, scores@.len());
        let ranks = ranking(values, scores@.len());
        assert forall|k: int| 0 <= k < order@.len() implies #[trigger] order@[k]
            < scores@.len() by {
            assert(ranks[k] == order@[k] as int);
        }
        assert forall|a: int, b: int| 0 <= a < b < order@.len() implies scores@[order@[a] as int]
            >= scores@[order@[b] as int] by {
            assert(ranks[a] == order@[a] as int);
            assert(ranks[b] == order@[b] as int);
            assert(ahead(values, ranks[a], ranks[b]));
        }
    }
    order
}

/// The fitness of every squad of `population`, in population order.
pub fn evaluate(population: &Vec<Vec<Player>>, config: &Config) -> (scores: Vec<i128>)
    ensures
        score_values(scores@) == fitnesses(squads(population@), *config),
        scores@.len() == population@.len(),
{
    let mut scores: Vec<i128> = Vec::new();
    let mut i: usize = 0;
    while i < population.len()
        invariant
            i <= population.len(),
            scores@.len() == i,
            forall|k: int|
                0 <= k < i ==> #[trigger] scores@[k] == fitness_of(population@[k]@, *config),
        decreases population.len() - i,
    {
        scores.push(fitness(&population[i], config));
        i = i + 1;
    }
    assert(score_values(scores@) =~= fitnesses(
        squads(population@),
        *config,
    ));
    scores
}

/// Keeps the better half of `population` for breeding: ranks the squads by
/// fitness, highest first and equal ones in population order, and returns
/// copies of the first `config.population_size / 2` of them (of all of
/// them, if the population is smaller than that).
///
/// The parents come in order of descending fitness, and no squad that is
/// left out has a higher fitness than one that is kept.
pub fn select_parents(population: &Vec<Vec<Player>>, config: &Config) -> (parents: Vec<
    Vec<Player>,
>)
    ensures
        squads(parents@) == selected(squads(population@), *config),
        parents@.len() == parent_count(squads(population@), *config),
        forall|k: int|
            0 <= k < parents@.len() ==> squads(population@).contains(
                #[trigger] squads(parents@)[k],
            ),
        all_valid(squads(population@), *config) ==> all_valid(squads(parents@), *config),
        forall|a: int, b: int|
            0 <= a < b < parents@.len() ==> fitness_of(#[trigger] parents@[a]@, *config)
                >= fitness_of(#[trigger] parents@[b]@, *config),
        forall|i: int, k: int|
            0 <= i < population@.len() && 0 <= k < parents@.len() ==> is_kept(
                squads(population@),
                *config,
                i,
            ) || fitness_of(#[trigger] population@[i]@, *config) <= fitness_of(
                #[trigger] parents@[k]@,
                *config,
            ),
{
    proof {
        lemma_selected(squads(population@), *config);
    }
    let scores = evaluate(population, config);
    let order = rank_by_fitness(&scores);
    let keep = if config.population_size / 2 <= population.len() {
        config.population_size / 2
    } else {
        population.len()
    };
    let ghost ranks = ranking(fitnesses(squads(population@), *config), population@.len());
    let mut parents: Vec<Vec<Player>> = Vec::new();
    let mut k: usize = 0;
    while k < keep
        invariant
            k <= keep <= population@.len(),
            order@.len() == population@.len(),
            positions(order@) == ranks,
            forall|j: int| 0 <= j < order@.len() ==> #[trigger] order@[j] < population@.len(),
            parents@.len() == k,
            forall|j: int| 0 <= j < k ==> (#[trigger] parents@[j])@ == population@[ranks[j]]@,
        decreases keep - k,
    {
        assert(ranks[k as int] == order@[k as int] as int);
        parents.push(clone_team(&population[order[k]]));
        k = k + 1;
    }
    proof {
        assert(squads(parents@) =~= selected(squads(population@), *config));
        assert forall|j: int| 0 <= j < parents@.len() implies squads(population@).contains(
            #[trigger] squads(parents@)[j],
        ) by {
            assert(ranks[j] == order@[j] as int);
            assert(squads(population@)[ranks[j]] == squads(parents@)[j]);
        }
        let kept = selected(squads(population@), *config);
        assert forall|a: int, b: int| 0 <= a < b < parents@.len() implies fitness_of(
            #[trigger] parents@[a]@,
            *config,
        ) >= fitness_of(#[trigger] parents@[b]@, *config) by {
            assert(kept[a] == parents@[a]@ && kept[b] == parents@[b]@);
        }
        assert forall|i: int, k: int|
            0 <= i < population@.len() && 0 <= k < parents@.len() implies is_kept(
            squads(population@),
            *config,
            i,
        ) || fitness_of(#[trigger] population@[i]@, *config) <= fitness_of(
            #[trigger] parents@[k]@,
            *config,
        ) by {
            assert(kept[k] == parents@[k]@);
            assert(squads(population@)[i] == population@[i]@);
        }
    }
    parents
}

} // verus!
