//! The squad validator and the counts it is built from.

use crate::model::{
    count_position, count_team, distinct_elements, has_element, is_valid, lemma_push_counts,
    sum_values, Config, Player, Position, PositionCaps, SQUAD_SIZE,
};
use vstd::prelude::*;

verus! {

/// The first `i + 1` members of a squad are its first `i` members followed
/// by member `i`.
pub proof fn lemma_take_next(team: Seq<Player>, i: int)
    requires
        0 <= i < team.len(),
    ensures
        team.take(i + 1) == team.take(i).push(team[i]),
        forall|position: Position| #[trigger]
            count_position(team.take(i + 1), position) == count_position(
                team.take(i),
                position,
            ) + (if team[i].position == position {
                1nat
            } else {
                0nat
            }),
        forall|name: Seq<char>| #[trigger]
            count_team(team.take(i + 1), name) == count_team(team.take(i), name) + (
            if team[i].team@ == name {
                1nat
            } else {
                0nat
            }),
        sum_values(team.take(i + 1)) == sum_values(team.take(i)) + team[i].value,
{
    assert(team.take(i + 1) =~= team.take(i).push(team[i]));
    lemma_push_counts(team.take(i), team[i]);
}

/// A team that is counted at least once has a member in the squad, and no
/// count exceeds the size of the squad.
pub proof fn lemma_count_team_witness(team: Seq<Player>, name: Seq<char>)
    ensures
        count_team(team, name) <= team.len(),
        count_team(team, name) > 0 ==> exists|i: int|
            0 <= i < team.len() && (#[trigger] team[i]).team@ == name,
    decreases team.len(),
{
    if team.len() > 0 {
        lemma_count_team_witness(team.drop_last(), name);
        if team.last().team@ != name && count_team(team, name) > 0 {
            let i = choose|i: int|
                0 <= i < team.drop_last().len() && (#[trigger] team.drop_last()[i]).team@ == name;
            assert(team[i].team@ == name);
        }
    }
}

/// Counts the members of `team` that play at `position`.
pub fn position_count(team: &Vec<Player>, position: Position) -> (n: usize)
    ensures
        n == count_position(team@, position),
{
    let mut n: usize = 0;
    let mut i: usize = 0;
    while i < team.len()
        invariant
            i <= team.len(),
            n <= i,
            n == count_position(team@.take(i as int), position),
        decreases team.len() - i,
    {
        proof {
            lemma_take_next(team@, i as int);
        }
        if team[i].position == position {
            n = n + 1;
        }
        i = i + 1;
    }
    assert(team@.take(team.len() as int) =~= team@);
    n
}

/// Counts the members of `team` that belong to the team called `name`.
pub fn team_count(team: &Vec<Player>, name: &String) -> (n: usize)
    ensures
        n == count_team(team@, name@),
{
    let mut n: usize = 0;
    let mut i: usize = 0;
    while i < team.len()
        invariant
            i <= team.len(),
            n <= i,
            n == count_team(team@.take(i as int), name@),
        decreases team.len() - i,
    {
        proof {
            lemma_take_next(team@, i as int);
        }
        if team[i].team == *name {
            n = n + 1;
        }
        i = i + 1;
    }
    assert(team@.take(team.len() as int) =~= team@);
    n
}

/// Adds up the values of the members of `team`.
pub fn total_value(team: &Vec<Player>) -> (sum: u128)
    ensures
        sum == sum_values(team@),
        sum <= team@.len() * 0xFFFF_FFFF,
{
    let mut sum: u128 = 0;
    let mut i: usize = 0;
    while i < team.len()
        invariant
            i <= team.len(),
            sum <= i * 0xFFFF_FFFF,
            sum == sum_values(team@.take(i as int)),
        decreases team.len() - i,
    {
        proof {
            lemma_take_next(team@, i as int);
        }
        sum = sum + team[i].value as u128;
        i = i + 1;
    }
    assert(team@.take(team.len() as int) =~= team@);
    sum
}

/// Tells whether some member of `team` carries the identifier `element`.
pub fn contains_element(team: &Vec<Player>, element: u32) -> (found: bool)
    ensures
        found == has_element(team@, element),
{
    let mut i: usize = 0;
    while i < team.len()
        invariant
            i <= team.len(),
            forall|k: int| 0 <= k < i ==> (#[trigger] team@[k]).element != element,
        decreases team.len() - i,
    {
        if team[i].element == element {
            return true;
        }
        i = i + 1;
    }
    false
}

/// Tells whether no identifier occurs twice in `team`.
pub fn has_distinct_elements(team: &Vec<Player>) -> (distinct: bool)
    ensures
        distinct == distinct_elements(team@),
{
    let mut j: usize = 0;
    while j < team.len()
        invariant
            j <= team.len(),
            distinct_elements(team@.take(j as int)),
        decreases team.len() - j,
    {
        let mut i: usize = 0;
        while i < j
            invariant
                i <= j < team.len(),
                forall|k: int| 0 <= k < i ==> (#[trigger] team@[k]).element != team@[j as int].element,
            decreases j - i,
        {
            if team[i].element == team[j].element {
                return false;
            }
            i = i + 1;
        }
        assert(distinct_elements(team@.take(j as int + 1))) by {
            let next = team@.take(j as int + 1);
            let seen = team@.take(j as int);
            assert forall|a: int, b: int| 0 <= a < b < next.len() implies (#[trigger] next[a]).element
                != (#[trigger] next[b]).element by {
                if b < j {
                    assert(seen[a].element != seen[b].element);
                }
            }
        }
        j = j + 1;
    }
    assert(team@.take(team.len() as int) =~= team@);
    true
}

/// Tells whether every position holds at most as many members of `team` as
/// its cap allows.
pub fn positions_within_caps(team: &Vec<Player>, caps: &PositionCaps) -> (ok: bool)
    ensures
        ok == (forall|position: Position| #[trigger]
            count_position(team@, position) <= caps.cap(position)),
{
    let ok = position_count(team, Position::Goalkeeper) <= caps.goalkeepers && position_count(
        team,
        Position::Defender,
    ) <= caps.defenders && position_count(team, Position::Midfielder) <= caps.midfielders
        && position_count(team, Position::Forward) <= caps.forwards;
    proof {
        if ok {
            assert forall|position: Position| #[trigger]
                count_position(team@, position) <= caps.cap(position) by {
                match position {
                    Position::Goalkeeper => {},
                    Position::Defender => {},
                    Position::Midfielder => {},
                    Position::Forward => {},
                }
            }
        } else {
            assert(count_position(team@, Position::Goalkeeper) > caps.cap(Position::Goalkeeper)
                || count_position(team@, Position::Defender) > caps.cap(Position::Defender)
                || count_position(team@, Position::Midfielder) > caps.cap(Position::Midfielder)
                || count_position(team@, Position::Forward) > caps.cap(Position::Forward));
        }
    }
    ok
}

/// Tells whether no team has more than `max_per_team` members in `team`.
pub fn teams_within_cap(team: &Vec<Player>, max_per_team: usize) -> (ok: bool)
    ensures
        ok == (forall|name: Seq<char>| #[trigger] count_team(team@, name) <= max_per_team),
{
    let mut i: usize = 0;
    while i < team.len()
        invariant
            i <= team.len(),
            forall|k: int|
                0 <= k < i ==> count_team(team@, (#[trigger] team@[k]).team@) <= max_per_team,
        decreases team.len() - i,
    {
        if team_count(team, &team[i].team) > max_per_team {
            return false;
        }
        i = i + 1;
    }
    proof {
        assert forall|name: Seq<char>| #[trigger] count_team(team@, name) <= max_per_team by {
            lemma_count_team_witness(team@, name);
        }
    }
    true
}

/// The validator: `team` has exactly fifteen members, no player twice, no
/// position and no team over its cap, and a total value within the budget.
pub fn satisfies_constraints(team: &Vec<Player>, config: &Config) -> (ok: bool)
    ensures
        ok == is_valid(team@, *config),
        ok ==> {
            &&& team@.len() == SQUAD_SIZE
            &&& distinct_elements(team@)
            &&& forall|position: Position| #[trigger]
                count_position(team@, position) <= config.max_positions.cap(position)
            &&& forall|name: Seq<char>| #[trigger]
                count_team(team@, name) <= config.max_players_per_team
            &&& sum_values(team@) <= config.budget_cap
        },
{
    team.len() == SQUAD_SIZE && has_distinct_elements(team) && positions_within_caps(
        team,
        &config.max_positions,
    ) && teams_within_cap(team, config.max_players_per_team) && total_value(team)
        <= config.budget_cap as u128
}

} // verus!
