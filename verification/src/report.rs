//! What is reported about a finished squad: who sits on the bench, the
//! headline score with the best performer counted twice, and the total
//! value (see `validate::total_value`).

use crate::fitness::{
    ascending, count_below, lemma_count_below_same_entries, lemma_count_below_sorted, points,
    ranked_points,
};
use crate::model::{Player, BENCH_SIZE};
use vstd::prelude::*;
use vstd::relations::total_ordering;
use vstd::seq_lib::to_multiset_len;

verus! {

/// Member `j` of `team` comes before member `i` when the squad is put in
/// ascending order of predicted points, members with equal points keeping
/// their squad order.
pub open spec fn ranks_before(team: Seq<Player>, j: int, i: int) -> bool {
    team[j].predicted_points < team[i].predicted_points || (team[j].predicted_points
        == team[i].predicted_points && j < i)
}

/// How many of the first `n` members of `team` come before member `i`.
pub open spec fn rank_among(team: Seq<Player>, i: int, n: int) -> nat
    decreases n,
{
    if n <= 0 {
        0
    } else {
        rank_among(team, i, n - 1) + if ranks_before(team, n - 1, i) {
            1nat
        } else {
            0nat
        }
    }
}

/// The place of member `i` when `team` is put in ascending order of
/// predicted points, counted from zero.
pub open spec fn rank_of(team: Seq<Player>, i: int) -> nat {
    rank_among(team, i, team.len() as int)
}

/// Member `i` of `team` is one of the four lowest-ranked members.
pub open spec fn is_benched(team: Seq<Player>, i: int) -> bool {
    rank_of(team, i) < BENCH_SIZE
}

/// Sum of the predicted points of the members of `team`.
pub open spec fn sum_points(team: Seq<Player>) -> int
    decreases team.len(),
{
    if team.len() == 0 {
        0
    } else {
        sum_points(team.drop_last()) + team.last().predicted_points
    }
}

/// The highest predicted points of any member of a non-empty `team`.
pub open spec fn highest_points(team: Seq<Player>) -> int
    decreases team.len(),
{
    if team.len() <= 1 {
        team.last().predicted_points as int
    } else if highest_points(team.drop_last()) >= team.last().predicted_points {
        highest_points(team.drop_last())
    } else {
        team.last().predicted_points as int
    }
}

/// The headline score of `team`: the points of all members, with the
/// highest of them counted a second time. An empty squad scores zero.
pub open spec fn headline_points(team: Seq<Player>) -> int {
    if team.len() == 0 {
        0
    } else {
        sum_points(team) + highest_points(team)
    }
}

/// `highest_points` is the points of some member, and no member has more.
pub proof fn lemma_highest_points(team: Seq<Player>)
    requires
        team.len() > 0,
    ensures
        exists|i: int|
            0 <= i < team.len() && (#[trigger] team[i]).predicted_points == highest_points(team),
        forall|i: int|
            0 <= i < team.len() ==> (#[trigger] team[i]).predicted_points <= highest_points(team),
    decreases team.len(),
{
    if team.len() == 1 {
        assert(team[0].predicted_points == highest_points(team));
    } else {
        let rest = team.drop_last();
        lemma_highest_points(rest);
        let k = choose|i: int|
            0 <= i < rest.len() && (#[trigger] rest[i]).predicted_points == highest_points(rest);
        if highest_points(rest) >= team.last().predicted_points {
            assert(team[k].predicted_points == highest_points(team));
        } else {
            assert(team[team.len() - 1].predicted_points == highest_points(team));
        }
        assert forall|i: int| 0 <= i < team.len() implies (#[trigger] team[i]).predicted_points
            <= highest_points(team) by {
            if i < rest.len() {
                assert(rest[i].predicted_points <= highest_points(rest));
            }
        }
    }
}

/// Among the first `n` members, those that rank before member `i` are at
/// least the ones with fewer points and at most the ones with no more
/// points; and member `i` itself, once among the `n`, is not one of them.
pub proof fn lemma_rank_between_counts(team: Seq<Player>, i: int, n: int)
    requires
        0 <= i < team.len(),
        0 <= n <= team.len(),
    ensures
        count_below(points(team.take(n)), team[i].predicted_points as int) <= rank_among(
            team,
            i,
            n,
        ),
        rank_among(team, i, n) <= count_below(
            points(team.take(n)),
            team[i].predicted_points + 1,
        ),
        n > i ==> rank_among(team, i, n) < count_below(
            points(team.take(n)),
            team[i].predicted_points + 1,
        ),
    decreases n,
{
    if n > 0 {
        lemma_rank_between_counts(team, i, n - 1);
        assert(points(team.take(n)).drop_last() =~= points(team.take(n - 1)));
        assert(points(team.take(n)).last() == team[n - 1].predicted_points);
    } else {
        assert(points(team.take(0)) =~= Seq::<i32>::empty());
    }
}

/// The rank of a member is its place in the list of points sorted in
/// ascending order: the entry of `ranked_points` at the place `rank_of`
/// holds the points of the member. Sitting on the bench therefore means
/// holding one of the four entries that fitness counts only once.
pub proof fn rank_is_place_in_ranked_points(team: Seq<Player>, i: int)
    requires
        0 <= i < team.len(),
    ensures
        rank_of(team, i) < team.len(),
        ranked_points(team)[rank_of(team, i) as int] == team[i].predicted_points,
{
    let ranked = ranked_points(team);
    let mine = team[i].predicted_points as int;
    assert(total_ordering(ascending()));
    points(team).lemma_sort_by_ensures(ascending());
    assert(ranked.len() == team.len()) by {
        to_multiset_len(points(team));
        to_multiset_len(ranked);
    }
    assert(team.take(team.len() as int) =~= team);
    lemma_rank_between_counts(team, i, team.len() as int);
    lemma_count_below_same_entries(points(team), ranked, mine);
    lemma_count_below_same_entries(points(team), ranked, mine + 1);
    lemma_count_below_sorted(ranked, mine);
    lemma_count_below_sorted(ranked, mine + 1);
    let place = rank_of(team, i) as int;
    assert(!(ranked[place] < mine));
    assert(ranked[place] < mine + 1);
}

/// Member `a` ranks before member `b`, so it has the lower rank among any
/// number of members.
pub proof fn lemma_rank_grows(team: Seq<Player>, a: int, b: int, n: int)
    requires
        0 <= a < team.len(),
        0 <= b < team.len(),
        0 <= n <= team.len(),
        ranks_before(team, a, b),
    ensures
        rank_among(team, a, n) + (if a < n {
            1nat
        } else {
            0nat
        }) <= rank_among(team, b, n),
    decreases n,
{
    if n > 0 {
        lemma_rank_grows(team, a, b, n - 1);
    }
}

/// No two members of a squad share a rank.
pub proof fn ranks_differ(team: Seq<Player>, a: int, b: int)
    requires
        0 <= a < team.len(),
        0 <= b < team.len(),
        a != b,
    ensures
        rank_of(team, a) != rank_of(team, b),
{
    if ranks_before(team, a, b) {
        lemma_rank_grows(team, a, b, team.len() as int);
    } else {
        lemma_rank_grows(team, b, a, team.len() as int);
    }
}

/// For every member of `team`, in squad order, whether it sits on the
/// bench: whether fewer than four members rank before it in ascending order
/// of predicted points.
pub fn bench_flags(team: &Vec<Player>) -> (flags: Vec<bool>)
    ensures
        flags@.len() == team@.len(),
        forall|i: int| 0 <= i < team@.len() ==> flags@[i] == is_benched(team@, i),
{
    let mut flags: Vec<bool> = Vec::new();
    let mut i: usize = 0;
    while i < team.len()
        invariant
            i <= team.len(),
            flags@.len() == i,
            forall|k: int| 0 <= k < i ==> flags@[k] == is_benched(team@, k),
        decreases team.len() - i,
    {
        let mut rank: usize = 0;
        let mut j: usize = 0;
        while j < team.len()
            invariant
                i < team.len(),
                j <= team.len(),
                rank <= j,
                rank == rank_among(team@, i as int, j as int),
            decreases team.len() - j,
        {
            let theirs = team[j].predicted_points;
            let mine = team[i].predicted_points;
            if theirs < mine || (theirs == mine && j < i) {
                rank = rank + 1;
            }
            j = j + 1;
        }
        flags.push(rank < BENCH_SIZE);
        i = i + 1;
    }
    flags
}

/// The headline score of `team`: the sum of all predicted points plus the
/// highest of them once more.
pub fn total_predicted_points(team: &Vec<Player>) -> (total: i128)
    ensures
        total == headline_points(team@),
{
    if team.len() == 0 {
        return 0;
    }
    let mut sum: i128 = 0;
    let mut highest: i32 = team[0].predicted_points;
    let mut i: usize = 0;
    while i < team.len()
        invariant
            i <= team.len(),
            team.len() > 0,
            -(i * 0x8000_0000) <= sum <= i * 0x8000_0000,
            sum == sum_points(team@.take(i as int)),
            i == 0 ==> highest == team@[0].predicted_points,
            i > 0 ==> highest == highest_points(team@.take(i as int)),
        decreases team.len() - i,
    {
        assert(team@.take(i as int + 1).drop_last() =~= team@.take(i as int));
        let next = team[i].predicted_points;
        sum = sum + next as i128;
        if next > highest {
            highest = next;
        }
        i = i + 1;
    }
    assert(team@.take(team.len() as int) =~= team@);
    sum + highest as i128
}

} // verus!
