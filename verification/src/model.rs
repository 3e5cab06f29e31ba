//! The data the optimiser works on: players, squads and the limits a squad
//! has to respect, together with the mathematical vocabulary that every
//! contract in this crate is phrased in.
//!
//! A squad is modelled as a `Seq<Player>`; its order is kept, but the limits
//! only look at how many members share a position or a team and at the sum
//! of their values.

use vstd::prelude::*;

verus! {

/// The number of members of every squad.
pub const SQUAD_SIZE: usize = 15;

/// How many of the lowest-scoring members of a squad sit on the bench.
pub const BENCH_SIZE: usize = 4;

/// The role a player fills.
#[derive(Clone, Copy, Debug, PartialEq, Eq, Hash, Structural)]
pub enum Position {
    Goalkeeper,
    Defender,
    Midfielder,
    Forward,
}

impl Position {
    /// The short code of the position as it stands in a pool listing: `GK`,
    /// `DEF`, `MID` or `FWD`.
    pub open spec fn code_of(self) -> Seq<char> {
        match self {
            Position::Goalkeeper => "GK"@,
            Position::Defender => "DEF"@,
            Position::Midfielder => "MID"@,
            Position::Forward => "FWD"@,
        }
    }

    /// No two positions share a code.
    pub proof fn codes_differ(a: Position, b: Position)
        requires
            a.code_of() == b.code_of(),
        ensures
            a == b,
    {
        reveal_strlit("GK");
        reveal_strlit("DEF");
        reveal_strlit("MID");
        reveal_strlit("FWD");
        assert("GK"@.len() == 2 && "DEF"@.len() == 3 && "MID"@.len() == 3 && "FWD"@.len() == 3);
        assert("DEF"@[0] == 'D' && "MID"@[0] == 'M' && "FWD"@[0] == 'F');
    }

    /// The short code of the position.
    pub fn code(&self) -> (code: String)
        ensures
            code@ == self.code_of(),
    {
        match self {
            Position::Goalkeeper => "GK".to_owned(),
            Position::Defender => "DEF".to_owned(),
            Position::Midfielder => "MID".to_owned(),
            Position::Forward => "FWD".to_owned(),
        }
    }

    /// The position that `code` stands for, if it is one of the four codes.
    pub fn from_code(code: &str) -> (position: Option<Position>)
        ensures
            (match position {
                Some(found) => code@ == found.code_of(),
                None => forall|any: Position| code@ != #[trigger] any.code_of(),
            }),
    {
        let given = code.to_owned();
        if given == "GK".to_owned() {
            Some(Position::Goalkeeper)
        } else if given == "DEF".to_owned() {
            Some(Position::Defender)
        } else if given == "MID".to_owned() {
            Some(Position::Midfielder)
        } else if given == "FWD".to_owned() {
            Some(Position::Forward)
        } else {
            None
        }
    }
}

/// One entry of the pool.
///
/// `value` is the price in the pool's smallest price unit and
/// `predicted_points` the expected score in the pool's smallest score unit;
/// both are exact integers, so that sums and comparisons have one answer.
#[derive(Debug, PartialEq, Eq)]
pub struct Player {
    /// The identifier of the player; what makes two entries the same player.
    pub element: u32,
    /// The name shown in reports.
    pub name: String,
    /// The price of the player.
    pub value: u32,
    /// The role the player fills.
    pub position: Position,
    /// The name of the team the player belongs to.
    pub team: String,
    /// The score the player is expected to reach.
    pub predicted_points: i32,
}

impl Clone for Player {
    fn clone(&self) -> (res: Self)
        ensures
            res == *self,
    {
        Player {
            element: self.element,
            name: self.name.clone(),
            value: self.value,
            position: self.position,
            team: self.team.clone(),
            predicted_points: self.predicted_points,
        }
    }
}

/// The largest number of squad members allowed for each position.
#[derive(Clone, Copy, Debug, PartialEq, Eq)]
pub struct PositionCaps {
    pub goalkeepers: usize,
    pub defenders: usize,
    pub midfielders: usize,
    pub forwards: usize,
}

impl PositionCaps {
    /// The cap that applies to `position`.
    pub open spec fn cap(self, position: Position) -> nat {
        match position {
            Position::Goalkeeper => self.goalkeepers as nat,
            Position::Defender => self.defenders as nat,
            Position::Midfielder => self.midfielders as nat,
            Position::Forward => self.forwards as nat,
        }
    }

    /// The cap that applies to `position`.
    pub fn limit(&self, position: Position) -> (n: usize)
        ensures
            n == self.cap(position),
    {
        match position {
            Position::Goalkeeper => self.goalkeepers,
            Position::Defender => self.defenders,
            Position::Midfielder => self.midfielders,
            Position::Forward => self.forwards,
        }
    }
}

/// A probability written as a fraction.
#[derive(Clone, Copy, Debug, PartialEq, Eq)]
pub struct Ratio {
    pub numerator: u32,
    pub denominator: u32,
}

impl Ratio {
    /// A fraction between zero and one.
    pub open spec fn is_probability(self) -> bool {
        self.denominator > 0 && self.numerator <= self.denominator
    }
}

/// Everything that can be tuned about a run.
#[derive(Clone, Copy, Debug, PartialEq, Eq)]
pub struct Config {
    /// Number of squads alive in every generation.
    pub population_size: usize,
    /// Number of generations a full run breeds.
    pub generations: usize,
    /// Chance that a freshly bred squad has one member swapped at random.
    pub mutation_rate: Ratio,
    /// Largest total value a squad may have.
    pub budget_cap: u64,
    /// Largest number of squad members from one team.
    pub max_players_per_team: usize,
    /// Largest number of squad members per position.
    pub max_positions: PositionCaps,
}

impl Config {
    /// A configuration the optimiser can run with: breeding needs at least
    /// one parent in the retained half, and the mutation rate has to be a
    /// probability.
    pub open spec fn well_formed(self) -> bool {
        &&& self.population_size >= 2
        &&& self.mutation_rate.is_probability()
    }

    /// Tells whether the optimiser can run with this configuration.
    pub fn is_well_formed(&self) -> (ok: bool)
        ensures
            ok == self.well_formed(),
    {
        self.population_size >= 2 && self.mutation_rate.denominator > 0
            && self.mutation_rate.numerator <= self.mutation_rate.denominator
    }
}

/// The position caps of the standard game: two goalkeepers, five defenders,
/// five midfielders and three forwards.
pub fn max_positions() -> (caps: PositionCaps)
    ensures
        caps == (PositionCaps { goalkeepers: 2, defenders: 5, midfielders: 5, forwards: 3 }),
{
    PositionCaps { goalkeepers: 2, defenders: 5, midfielders: 5, forwards: 3 }
}

impl Default for Config {
    /// The standard game: 150 squads bred for 2500 generations, one child in
    /// ten mutated, a budget of 1000, three players per team.
    fn default() -> (config: Config)
        ensures
            config == (Config {
                population_size: 150,
                generations: 2500,
                mutation_rate: Ratio { numerator: 1, denominator: 10 },
                budget_cap: 1000,
                max_players_per_team: 3,
                max_positions: PositionCaps {
                    goalkeepers: 2,
                    defenders: 5,
                    midfielders: 5,
                    forwards: 3,
                },
            }),
            config.well_formed(),
    {
        Config {
            population_size: 150,
            generations: 2500,
            mutation_rate: Ratio { numerator: 1, denominator: 10 },
            budget_cap: 1000,
            max_players_per_team: 3,
            max_positions: max_positions(),
        }
    }
}

/// Why a run could not produce a squad.
#[derive(Clone, Copy, Debug, PartialEq, Eq, Structural)]
pub enum GaError {
    /// No squad within the limits was found within the allowed number of
    /// draws from the pool.
    InfeasibleConstraints,
}

impl GaError {
    /// What went wrong, in words.
    pub open spec fn message_of(self) -> Seq<char> {
        match self {
            GaError::InfeasibleConstraints => "no squad within the limits could be drafted from the pool"@,
        }
    }

    /// What went wrong, in words.
    pub fn message(&self) -> (text: String)
        ensures
            text@ == self.message_of(),
    {
        match self {
            GaError::InfeasibleConstraints => {
                "no squad within the limits could be drafted from the pool".to_owned()
            },
        }
    }
}

/// Number of members of `team` that play at `position`.
pub open spec fn count_position(team: Seq<Player>, position: Position) -> nat
    decreases team.len(),
{
    if team.len() == 0 {
        0
    } else {
        count_position(team.drop_last(), position) + if team.last().position == position {
            1nat
        } else {
            0nat
        }
    }
}

/// Number of members of `team` that belong to the team called `name`.
pub open spec fn count_team(team: Seq<Player>, name: Seq<char>) -> nat
    decreases team.len(),
{
    if team.len() == 0 {
        0
    } else {
        count_team(team.drop_last(), name) + if team.last().team@ == name {
            1nat
        } else {
            0nat
        }
    }
}

/// Sum of the values of the members of `team`.
pub open spec fn sum_values(team: Seq<Player>) -> nat
    decreases team.len(),
{
    if team.len() == 0 {
        0
    } else {
        sum_values(team.drop_last()) + team.last().value as nat
    }
}

/// Whether some member of `team` carries the identifier `element`.
pub open spec fn has_element(team: Seq<Player>, element: u32) -> bool {
    exists|i: int| 0 <= i < team.len() && #[trigger] team[i].element == element
}

/// No identifier occurs twice in `team`.
pub open spec fn distinct_elements(team: Seq<Player>) -> bool {
    forall|i: int, j: int|
        0 <= i < j < team.len() ==> #[trigger] team[i].element != #[trigger] team[j].element
}

/// `team`, complete or not, respects every limit of `config`: no player
/// twice, no position and no team over its cap, the budget kept.
pub open spec fn within_limits(team: Seq<Player>, config: Config) -> bool {
    &&& distinct_elements(team)
    &&& forall|position: Position| #[trigger]
        count_position(team, position) <= config.max_positions.cap(position)
    &&& forall|name: Seq<char>| #[trigger]
        count_team(team, name) <= config.max_players_per_team
    &&& sum_values(team) <= config.budget_cap
}

/// `team` is a squad the game accepts: exactly fifteen members within every
/// limit of `config`.
pub open spec fn is_valid(team: Seq<Player>, config: Config) -> bool {
    team.len() == SQUAD_SIZE && within_limits(team, config)
}

/// Every member of `team` is an entry of `pool`.
pub open spec fn drawn_from(team: Seq<Player>, pool: Seq<Player>) -> bool {
    forall|i: int| 0 <= i < team.len() ==> pool.contains(#[trigger] team[i])
}

/// The squads of a population, each as the sequence of its members.
pub open spec fn squads(population: Seq<Vec<Player>>) -> Seq<Seq<Player>> {
    population.map_values(|team: Vec<Player>| team@)
}

/// Every squad of `population` is one the game accepts.
pub open spec fn all_valid(population: Seq<Seq<Player>>, config: Config) -> bool {
    forall|i: int| 0 <= i < population.len() ==> is_valid(#[trigger] population[i], config)
}

/// Every squad of `population` is made of entries of `pool`.
pub open spec fn all_drawn_from(population: Seq<Seq<Player>>, pool: Seq<Player>) -> bool {
    forall|i: int| 0 <= i < population.len() ==> drawn_from(#[trigger] population[i], pool)
}

/// A squad made of members of a squad made of pool entries is made of pool
/// entries.
pub proof fn lemma_drawn_from_trans(team: Seq<Player>, source: Seq<Player>, pool: Seq<Player>)
    requires
        drawn_from(team, source),
        drawn_from(source, pool),
    ensures
        drawn_from(team, pool),
{
    assert forall|i: int| 0 <= i < team.len() implies pool.contains(#[trigger] team[i]) by {
        assert(source.contains(team[i]));
        let at = choose|at: int| 0 <= at < source.len() && source[at] == team[i];
        assert(pool.contains(source[at]));
    }
}

/// Appending a member adds it to exactly the counts and the sum it belongs to.
pub proof fn lemma_push_counts(team: Seq<Player>, player: Player)
    ensures
        forall|position: Position| #[trigger]
            count_position(team.push(player), position) == count_position(team, position) + (
            if player.position == position {
                1nat
            } else {
                0nat
            }),
        forall|name: Seq<char>| #[trigger]
            count_team(team.push(player), name) == count_team(team, name) + (if player.team@
                == name {
                1nat
            } else {
                0nat
            }),
        sum_values(team.push(player)) == sum_values(team) + player.value,
{
    assert(team.push(player).drop_last() =~= team);
}

/// A copy of `team`, member for member.
pub fn clone_team(team: &Vec<Player>) -> (copy: Vec<Player>)
    ensures
        copy@ == team@,
{
    let mut copy: Vec<Player> = Vec::new();
    let mut i: usize = 0;
    while i < team.len()
        invariant
            i <= team.len(),
            copy@ == team@.take(i as int),
        decreases team.len() - i,
    {
        copy.push(team[i].clone());
        assert(team@.take(i as int + 1) =~= team@.take(i as int).push(team@[i as int]));
        i = i + 1;
    }
    assert(team@.take(team.len() as int) =~= team@);
    copy
}

} // verus!
