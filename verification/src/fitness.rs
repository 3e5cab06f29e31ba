//! The fitness of a squad: the points of its eleven best members in full
//! and a quarter of the points of the four on the bench, or nothing at all
//! when the squad costs more than the budget.
//!
//! Fitness is counted in quarters of a score unit, which keeps it an exact
//! integer.

use crate::model::{sum_values, Config, Player, BENCH_SIZE};
use crate::validate::total_value;
use vstd::prelude::*;
use vstd::relations::{sorted_by, total_ordering};
use vstd::seq_lib::{
    lemma_sorted_unique, to_multiset_build, to_multiset_insert, to_multiset_len,
    to_multiset_remove,
};

verus! {

/// The predicted points of the members of `team`, in squad order.
pub open spec fn points(team: Seq<Player>) -> Seq<i32> {
    team.map_values(|player: Player| player.predicted_points)
}

/// The order in which points are ranked: lowest first.
pub open spec fn ascending() -> spec_fn(i32, i32) -> bool {
    |a: i32, b: i32| a <= b
}

/// The points of `team` from lowest to highest.
pub open spec fn ranked_points(team: Seq<Player>) -> Seq<i32> {
    points(team).sort_by(ascending())
}

/// Four times the score that a list of points, lowest first, is worth: the
/// first four entries count once, every later entry four times.
pub open spec fn weighted_points(ranked: Seq<i32>) -> int
    decreases ranked.len(),
{
    if ranked.len() == 0 {
        0
    } else {
        weighted_points(ranked.drop_last()) + if ranked.len() <= BENCH_SIZE {
            ranked.last() as int
        } else {
            4 * ranked.last()
        }
    }
}

/// The fitness of `team` under `config`, in quarters of a score unit.
pub open spec fn fitness_of(team: Seq<Player>, config: Config) -> int {
    if sum_values(team) > config.budget_cap {
        0
    } else {
        weighted_points(ranked_points(team))
    }
}

/// Removing a member removes its value from the sum and its points from
/// the collection of points.
pub proof fn lemma_remove_member(team: Seq<Player>, k: int)
    requires
        0 <= k < team.len(),
    ensures
        sum_values(team) == sum_values(team.remove(k)) + team[k].value,
        points(team).to_multiset() == points(team.remove(k)).to_multiset().insert(
            team[k].predicted_points,
        ),
    decreases team.len(),
{
    assert(points(team).remove(k) =~= points(team.remove(k)));
    to_multiset_remove(points(team), k);
    assert(points(team).to_multiset().contains(points(team)[k])) by {
        broadcast use vstd::seq_lib::to_multiset_contains;

    }
    assert(points(team).to_multiset() =~= points(team).to_multiset().remove(
        team[k].predicted_points,
    ).insert(team[k].predicted_points));
    if k == team.len() - 1 {
        assert(team.remove(k) =~= team.drop_last());
    } else {
        lemma_remove_member(team.drop_last(), k);
        assert(team.remove(k).drop_last() =~= team.drop_last().remove(k));
    }
}

/// Two squads with the same members, in whatever order, have the same total
/// value and the same collection of points.
pub proof fn lemma_same_members(a: Seq<Player>, b: Seq<Player>)
    requires
        a.to_multiset() == b.to_multiset(),
    ensures
        sum_values(a) == sum_values(b),
        points(a).to_multiset() == points(b).to_multiset(),
    decreases a.len(),
{
    broadcast use vstd::seq_lib::group_to_multiset_ensures;

    if a.len() == 0 {
        assert(b.to_multiset().len() == 0);
        assert(b.len() == 0);
        assert(points(a) =~= points(b));
    } else {
        let last = a.last();
        assert(a.drop_last().push(last) =~= a);
        assert(a.to_multiset() =~= a.drop_last().to_multiset().insert(last));
        assert(b.to_multiset().contains(last));
        let k = choose|k: int| 0 <= k < b.len() && b[k] == last;
        assert(a.drop_last().to_multiset() =~= a.to_multiset().remove(last));
        assert(b.remove(k).to_multiset() =~= b.to_multiset().remove(last));
        lemma_same_members(a.drop_last(), b.remove(k));
        lemma_remove_member(b, k);
        lemma_remove_member(a, a.len() - 1);
        assert(a.remove(a.len() - 1) =~= a.drop_last());
    }
}

/// How many of `entries` are below `bound`.
pub open spec fn count_below(entries: Seq<i32>, bound: int) -> nat
    decreases entries.len(),
{
    if entries.len() == 0 {
        0
    } else {
        count_below(entries.drop_last(), bound) + if entries.last() < bound {
            1nat
        } else {
            0nat
        }
    }
}

/// Removing an entry lowers the count of entries below a bound by one if
/// the entry is below the bound, and leaves it alone otherwise.
pub proof fn lemma_count_below_remove(entries: Seq<i32>, bound: int, k: int)
    requires
        0 <= k < entries.len(),
    ensures
        count_below(entries, bound) == count_below(entries.remove(k), bound) + if entries[k] < bound {
            1nat
        } else {
            0nat
        },
    decreases entries.len(),
{
    if k == entries.len() - 1 {
        assert(entries.remove(k) =~= entries.drop_last());
    } else {
        lemma_count_below_remove(entries.drop_last(), bound, k);
        assert(entries.remove(k).drop_last() =~= entries.drop_last().remove(k));
    }
}

/// Two lists with the same entries, in whatever order, have equally many
/// entries below any bound.
pub proof fn lemma_count_below_same_entries(a: Seq<i32>, b: Seq<i32>, bound: int)
    requires
        a.to_multiset() == b.to_multiset(),
    ensures
        count_below(a, bound) == count_below(b, bound),
    decreases a.len(),
{
    broadcast use vstd::seq_lib::group_to_multiset_ensures;

    if a.len() == 0 {
        assert(b.to_multiset().len() == 0);
        assert(b.len() == 0);
    } else {
        let last = a.last();
        assert(a.drop_last().push(last) =~= a);
        assert(a.to_multiset() =~= a.drop_last().to_multiset().insert(last));
        assert(b.to_multiset().contains(last));
        let k = choose|k: int| 0 <= k < b.len() && b[k] == last;
        assert(a.drop_last().to_multiset() =~= a.to_multiset().remove(last));
        assert(b.remove(k).to_multiset() =~= b.to_multiset().remove(last));
        lemma_count_below_same_entries(a.drop_last(), b.remove(k), bound);
        lemma_count_below_remove(b, bound, k);
    }
}

/// In an ascending list the entries below a bound are exactly the first
/// `count_below` entries.
pub proof fn lemma_count_below_sorted(entries: Seq<i32>, bound: int)
    requires
        sorted_by(entries, ascending()),
    ensures
        count_below(entries, bound) <= entries.len(),
        forall|a: int|
            0 <= a < entries.len() ==> (#[trigger] entries[a] < bound <==> a < count_below(
                entries,
                bound,
            )),
    decreases entries.len(),
{
    if entries.len() > 0 {
        let rest = entries.drop_last();
        assert forall|a: int, b: int| 0 <= a < b < rest.len() implies #[trigger] ascending()(
            rest[a],
            rest[b],
        ) by {
            assert(ascending()(entries[a], entries[b]));
        }
        lemma_count_below_sorted(rest, bound);
        assert forall|a: int| 0 <= a < entries.len() implies (#[trigger] entries[a] < bound <==> a
            < count_below(entries, bound)) by {
            if a < rest.len() {
                assert(rest[a] == entries[a]);
                assert(ascending()(entries[a], entries[entries.len() - 1]));
            } else if entries.last() < bound {
                if rest.len() > 0 {
                    assert(ascending()(entries[rest.len() - 1], entries[entries.len() - 1]));
                    assert(rest[rest.len() - 1] < bound);
                }
            }
        }
    }
}

/// A squad without members has no points to rank.
pub proof fn lemma_ranked_points_empty()
    ensures
        ranked_points(Seq::empty()) == Seq::<i32>::empty(),
{
    let none = points(Seq::empty());
    assert(total_ordering(ascending()));
    none.lemma_sort_by_ensures(ascending());
    to_multiset_len(none);
    to_multiset_len(ranked_points(Seq::empty()));
    assert(ranked_points(Seq::empty()) =~= Seq::<i32>::empty());
}

/// A new member's points go into the ranking behind all entries that are
/// not higher; the ranking of any squad can be worked out member by member
/// in this way.
pub proof fn lemma_ranked_points_push(team: Seq<Player>, player: Player)
    ensures
        ranked_points(team.push(player)) == ranked_points(team).insert(
            count_below(ranked_points(team), player.predicted_points + 1) as int,
            player.predicted_points,
        ),
{
    let ranked = ranked_points(team);
    let place = count_below(ranked, player.predicted_points + 1) as int;
    let grown = ranked.insert(place, player.predicted_points);
    assert(total_ordering(ascending()));
    points(team).lemma_sort_by_ensures(ascending());
    points(team.push(player)).lemma_sort_by_ensures(ascending());
    lemma_count_below_sorted(ranked, player.predicted_points + 1);
    assert forall|a: int, b: int| 0 <= a < b < grown.len() implies #[trigger] ascending()(
        grown[a],
        grown[b],
    ) by {
        if b < place {
            assert(ascending()(ranked[a], ranked[b]));
        } else if b == place {
            assert(ranked[a] < player.predicted_points + 1);
        } else if a < place {
            assert(ranked[b - 1] >= player.predicted_points + 1);
            assert(ranked[a] < player.predicted_points + 1);
        } else if a == place {
            assert(ranked[b - 1] >= player.predicted_points + 1);
        } else {
            assert(ascending()(ranked[a - 1], ranked[b - 1]));
        }
    }
    to_multiset_insert(ranked, place, player.predicted_points);
    assert(points(team.push(player)) =~= points(team).push(player.predicted_points));
    to_multiset_build(points(team), player.predicted_points);
    lemma_sorted_unique(grown, ranked_points(team.push(player)), ascending());
}

/// Fitness looks at the members of a squad, never at their order: two
/// squads that hold the same players equally often have the same fitness.
pub proof fn fitness_ignores_order(a: Seq<Player>, b: Seq<Player>, config: Config)
    requires
        a.to_multiset() == b.to_multiset(),
    ensures
        fitness_of(a, config) == fitness_of(b, config),
{
    lemma_same_members(a, b);
    assert(total_ordering(ascending()));
    points(a).lemma_sort_by_ensures(ascending());
    points(b).lemma_sort_by_ensures(ascending());
    lemma_sorted_unique(ranked_points(a), ranked_points(b), ascending());
}

/// A squad that costs more than the budget has fitness zero, whatever its
/// members are predicted to score.
pub proof fn fitness_of_overspend(team: Seq<Player>, config: Config)
    requires
        sum_values(team) > config.budget_cap,
    ensures
        fitness_of(team, config) == 0,
{
}

/// The predicted points of `team`, lowest first.
pub fn sorted_points(team: &Vec<Player>) -> (ranked: Vec<i32>)
    ensures
        ranked@ == ranked_points(team@),
{
    let mut ranked: Vec<i32> = Vec::new();
    let mut i: usize = 0;
    assert(points(team@.take(0)) =~= ranked@);
    while i < team.len()
        invariant
            i <= team.len(),
            ranked@.len() == i,
            forall|a: int, b: int| 0 <= a < b < ranked@.len() ==> ranked@[a] <= ranked@[b],
            ranked@.to_multiset() == points(team@.take(i as int)).to_multiset(),
        decreases team.len() - i,
    {
        let next = team[i].predicted_points;
        let mut k: usize = 0;
        while k < ranked.len() && ranked[k] <= next
            invariant
                k <= ranked@.len(),
                forall|a: int| 0 <= a < k ==> ranked@[a] <= next,
            decreases ranked@.len() - k,
        {
            k = k + 1;
        }
        proof {
            to_multiset_insert(ranked@, k as int, next);
            assert(points(team@.take(i as int + 1)) =~= points(team@.take(i as int)).push(next));
            to_multiset_build(points(team@.take(i as int)), next);
        }
        ranked.insert(k, next);
        i = i + 1;
    }
    proof {
        assert(team@.take(team.len() as int) =~= team@);
        assert(sorted_by(ranked@, ascending()));
        assert(total_ordering(ascending()));
        points(team@).lemma_sort_by_ensures(ascending());
        lemma_sorted_unique(ranked@, ranked_points(team@), ascending());
    }
    ranked
}

/// Adds up a list of points, lowest first: the first four entries once,
/// every later entry four times.
pub fn weigh_points(ranked: &Vec<i32>) -> (total: i128)
    ensures
        total == weighted_points(ranked@),
{
    let mut total: i128 = 0;
    let mut i: usize = 0;
    while i < ranked.len()
        invariant
            i <= ranked.len(),
            -(i * 0x2_0000_0000) <= total <= i * 0x2_0000_0000,
            total == weighted_points(ranked@.take(i as int)),
        decreases ranked.len() - i,
    {
        assert(ranked@.take(i as int + 1).drop_last() =~= ranked@.take(i as int));
        let score = ranked[i] as i128;
        if i < BENCH_SIZE {
            total = total + score;
        } else {
            total = total + 4 * score;
        }
        i = i + 1;
    }
    assert(ranked@.take(ranked.len() as int) =~= ranked@);
    total
}

/// The fitness of `team`, in quarters of a score unit: zero when the squad
/// costs more than the budget, otherwise the points of the four
/// lowest-scoring members once and those of all others four times.
pub fn fitness(team: &Vec<Player>, config: &Config) -> (score: i128)
    ensures
        score == fitness_of(team@, *config),
{
    if total_value(team) > config.budget_cap as u128 {
        return 0;
    }
    let ranked = sorted_points(team);
    weigh_points(&ranked)
}

} // verus!
