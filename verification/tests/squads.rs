use squad_ga::fitness::{fitness, sorted_points, weigh_points};
use squad_ga::model::{
    clone_team, max_positions, Config, Player, Position, PositionCaps, Ratio, BENCH_SIZE,
    SQUAD_SIZE,
};
use squad_ga::report::{bench_flags, total_predicted_points};
use squad_ga::validate::{
    contains_element, has_distinct_elements, position_count, positions_within_caps,
    satisfies_constraints, team_count, teams_within_cap, total_value,
};

fn member(element: u32, position: Position, team: &str, value: u32, points: i32) -> Player {
    Player {
        element,
        name: format!("Player {}", element),
        value,
        position,
        team: team.to_string(),
        predicted_points: points,
    }
}

/// Two goalkeepers, five defenders, five midfielders, three forwards, three
/// players from each of five teams, value 50 each, points 1 to 15.
fn sound_squad() -> Vec<Player> {
    let positions = [
        Position::Goalkeeper,
        Position::Goalkeeper,
        Position::Defender,
        Position::Defender,
        Position::Defender,
        Position::Defender,
        Position::Defender,
        Position::Midfielder,
        Position::Midfielder,
        Position::Midfielder,
        Position::Midfielder,
        Position::Midfielder,
        Position::Forward,
        Position::Forward,
        Position::Forward,
    ];
    let teams = ["Reds", "Blues", "Greens", "Whites", "Blacks"];
    let mut squad = Vec::new();
    for i in 0..15 {
        squad.push(member(i as u32 + 1, positions[i], teams[i % 5], 50, i as i32 + 1));
    }
    squad
}

#[test]
fn constants_have_the_standard_values() {
    assert_eq!(SQUAD_SIZE, 15);
    assert_eq!(BENCH_SIZE, 4);
    let caps = max_positions();
    assert_eq!(caps, PositionCaps { goalkeepers: 2, defenders: 5, midfielders: 5, forwards: 3 });
    assert_eq!(caps.limit(Position::Goalkeeper), 2);
    assert_eq!(caps.limit(Position::Defender), 5);
    assert_eq!(caps.limit(Position::Midfielder), 5);
    assert_eq!(caps.limit(Position::Forward), 3);
}

#[test]
fn positions_have_their_codes() {
    assert_eq!(Position::Goalkeeper.code(), "GK");
    assert_eq!(Position::Defender.code(), "DEF");
    assert_eq!(Position::Midfielder.code(), "MID");
    assert_eq!(Position::Forward.code(), "FWD");
    assert_eq!(Position::from_code("GK"), Some(Position::Goalkeeper));
    assert_eq!(Position::from_code("DEF"), Some(Position::Defender));
    assert_eq!(Position::from_code("MID"), Some(Position::Midfielder));
    assert_eq!(Position::from_code("FWD"), Some(Position::Forward));
    assert_eq!(Position::from_code("gk"), None);
    assert_eq!(Position::from_code(""), None);
    assert_eq!(Position::from_code("GKP"), None);
}

#[test]
fn default_config_is_the_standard_game() {
    let config = Config::default();
    assert_eq!(config.population_size, 150);
    assert_eq!(config.generations, 2500);
    assert_eq!(config.mutation_rate, Ratio { numerator: 1, denominator: 10 });
    assert_eq!(config.budget_cap, 1000);
    assert_eq!(config.max_players_per_team, 3);
    assert_eq!(config.max_positions, max_positions());
    assert!(config.is_well_formed());
}

#[test]
fn ill_formed_configs_are_recognised() {
    let mut config = Config::default();
    config.population_size = 1;
    assert!(!config.is_well_formed());
    let mut config = Config::default();
    config.mutation_rate = Ratio { numerator: 1, denominator: 0 };
    assert!(!config.is_well_formed());
    let mut config = Config::default();
    config.mutation_rate = Ratio { numerator: 3, denominator: 2 };
    assert!(!config.is_well_formed());
    let mut config = Config::default();
    config.mutation_rate = Ratio { numerator: 0, denominator: 1 };
    config.population_size = 2;
    config.generations = 0;
    assert!(config.is_well_formed());
}

#[test]
fn clone_team_copies_every_member() {
    let squad = sound_squad();
    assert_eq!(clone_team(&squad), squad);
    assert_eq!(clone_team(&Vec::new()), Vec::<Player>::new());
}

#[test]
fn validator_accepts_a_sound_squad() {
    assert!(satisfies_constraints(&sound_squad(), &Config::default()));
}

#[test]
fn validator_rejects_a_repeated_player() {
    let mut squad = sound_squad();
    squad[14].element = squad[13].element;
    assert!(!has_distinct_elements(&squad));
    assert!(!satisfies_constraints(&squad, &Config::default()));
}

#[test]
fn validator_rejects_a_position_over_its_cap() {
    let mut squad = sound_squad();
    squad[2].position = Position::Goalkeeper;
    assert!(!positions_within_caps(&squad, &max_positions()));
    assert!(!satisfies_constraints(&squad, &Config::default()));
}

#[test]
fn validator_rejects_a_team_over_its_cap() {
    let mut squad = sound_squad();
    squad[1].team = "Reds".to_string();
    assert_eq!(team_count(&squad, &"Reds".to_string()), 4);
    assert!(!teams_within_cap(&squad, 3));
    assert!(teams_within_cap(&squad, 4));
    assert!(!satisfies_constraints(&squad, &Config::default()));
}

#[test]
fn validator_rejects_a_squad_over_budget() {
    let mut squad = sound_squad();
    squad[0].value = 301;
    assert_eq!(total_value(&squad), 1001);
    assert!(!satisfies_constraints(&squad, &Config::default()));
    squad[0].value = 300;
    assert_eq!(total_value(&squad), 1000);
    assert!(satisfies_constraints(&squad, &Config::default()));
}

#[test]
fn validator_rejects_the_wrong_size() {
    let mut config = Config::default();
    config.max_positions = PositionCaps {
        goalkeepers: 20,
        defenders: 20,
        midfielders: 20,
        forwards: 20,
    };
    config.max_players_per_team = 20;
    let mut squad = sound_squad();
    assert!(satisfies_constraints(&squad, &config));
    let last = squad.pop().unwrap();
    assert!(!satisfies_constraints(&squad, &config));
    squad.push(last);
    squad.push(member(99, Position::Forward, "Reds", 1, 1));
    assert!(!satisfies_constraints(&squad, &config));
    assert!(!satisfies_constraints(&Vec::new(), &config));
}

#[test]
fn counts_follow_the_members() {
    let squad = sound_squad();
    assert_eq!(position_count(&squad, Position::Goalkeeper), 2);
    assert_eq!(position_count(&squad, Position::Defender), 5);
    assert_eq!(position_count(&squad, Position::Midfielder), 5);
    assert_eq!(position_count(&squad, Position::Forward), 3);
    assert_eq!(team_count(&squad, &"Blues".to_string()), 3);
    assert_eq!(team_count(&squad, &"Nobody".to_string()), 0);
    assert_eq!(total_value(&squad), 750);
    assert_eq!(total_value(&Vec::new()), 0);
    assert!(contains_element(&squad, 15));
    assert!(!contains_element(&squad, 16));
    assert!(has_distinct_elements(&squad));
    assert!(has_distinct_elements(&Vec::new()));
}

#[test]
fn total_value_holds_the_largest_values() {
    let mut squad = sound_squad();
    for player in squad.iter_mut() {
        player.value = u32::MAX;
    }
    assert_eq!(total_value(&squad), 15 * (u32::MAX as u128));
}

#[test]
fn fitness_counts_the_bench_a_quarter() {
    // Lowest four: 1 + 2 + 3 + 4 = 10; the others: 5 + ... + 15 = 110.
    assert_eq!(fitness(&sound_squad(), &Config::default()), 10 + 4 * 110);
}

#[test]
fn fitness_ignores_the_order_of_members() {
    let squad = sound_squad();
    let mut turned = clone_team(&squad);
    turned.reverse();
    let mut rotated = clone_team(&squad);
    rotated.rotate_left(6);
    let config = Config::default();
    assert_eq!(fitness(&turned, &config), fitness(&squad, &config));
    assert_eq!(fitness(&rotated, &config), fitness(&squad, &config));
}

#[test]
fn fitness_is_zero_over_budget() {
    let mut squad = sound_squad();
    squad[7].value = 1000;
    for player in squad.iter_mut() {
        player.predicted_points = i32::MAX;
    }
    assert_eq!(fitness(&squad, &Config::default()), 0);
}

#[test]
fn fitness_at_exactly_the_budget_counts() {
    let mut squad = sound_squad();
    squad[0].value = 300;
    assert_eq!(total_value(&squad), 1000);
    assert_eq!(fitness(&squad, &Config::default()), 450);
}

#[test]
fn fitness_of_short_and_negative_squads() {
    let config = Config::default();
    assert_eq!(fitness(&Vec::new(), &config), 0);
    let three = vec![
        member(1, Position::Forward, "Reds", 1, 7),
        member(2, Position::Forward, "Reds", 1, -2),
        member(3, Position::Forward, "Reds", 1, 4),
    ];
    assert_eq!(fitness(&three, &config), 9);
    let mut five = three;
    five.push(member(4, Position::Forward, "Reds", 1, -10));
    five.push(member(5, Position::Forward, "Reds", 1, 3));
    // Lowest four: -10, -2, 3, 4; the fifth, 7, counts four times.
    assert_eq!(fitness(&five, &config), -5 + 28);
}

#[test]
fn fitness_holds_the_largest_points() {
    let mut squad = sound_squad();
    for player in squad.iter_mut() {
        player.predicted_points = i32::MAX;
    }
    assert_eq!(fitness(&squad, &Config::default()), (4 + 4 * 11) * (i32::MAX as i128));
    for player in squad.iter_mut() {
        player.predicted_points = i32::MIN;
    }
    assert_eq!(fitness(&squad, &Config::default()), (4 + 4 * 11) * (i32::MIN as i128));
}

#[test]
fn sorted_points_are_ascending() {
    let mut squad = sound_squad();
    squad.reverse();
    squad[3].predicted_points = -8;
    squad[9].predicted_points = 12;
    let ranked = sorted_points(&squad);
    assert_eq!(ranked, vec![-8, 1, 2, 3, 4, 5, 7, 8, 9, 10, 11, 12, 13, 14, 15]);
    assert_eq!(weigh_points(&ranked), (-8 + 1 + 2 + 3) + 4 * (4 + 5 + 7 + 8 + 9 + 10 + 11 + 12 + 13 + 14 + 15));
    assert_eq!(weigh_points(&vec![5]), 5);
    assert_eq!(weigh_points(&vec![1, 2, 3, 4, 5]), 10 + 20);
}

#[test]
fn bench_holds_the_four_lowest() {
    let squad = sound_squad();
    let flags = bench_flags(&squad);
    let mut expected = vec![false; 15];
    for flag in expected.iter_mut().take(4) {
        *flag = true;
    }
    assert_eq!(flags, expected);
    let mut turned = sound_squad();
    turned.reverse();
    let flags = bench_flags(&turned);
    let mut expected = vec![false; 15];
    for flag in expected.iter_mut().skip(11) {
        *flag = true;
    }
    assert_eq!(flags, expected);
}

#[test]
fn bench_breaks_ties_by_squad_order() {
    let mut squad = sound_squad();
    for player in squad.iter_mut() {
        player.predicted_points = 6;
    }
    squad[10].predicted_points = 2;
    let flags = bench_flags(&squad);
    assert_eq!(flags.iter().filter(|flag| **flag).count(), 4);
    assert!(flags[10]);
    assert!(flags[0] && flags[1] && flags[2]);
    assert!(!flags[3]);
    let short = vec![
        member(1, Position::Forward, "Reds", 1, 7),
        member(2, Position::Forward, "Reds", 1, 4),
    ];
    assert_eq!(bench_flags(&short), vec![true, true]);
    assert_eq!(bench_flags(&Vec::new()), Vec::<bool>::new());
}

#[test]
fn headline_counts_the_best_twice() {
    // 1 + ... + 15 = 120, and the best, 15, once more.
    assert_eq!(total_predicted_points(&sound_squad()), 135);
    assert_eq!(total_predicted_points(&Vec::new()), 0);
    let mut squad = sound_squad();
    for player in squad.iter_mut() {
        player.predicted_points = -5;
    }
    assert_eq!(total_predicted_points(&squad), -80);
    squad[4].predicted_points = -1;
    assert_eq!(total_predicted_points(&squad), -70 - 1 - 1);
    let one = vec![member(1, Position::Forward, "Reds", 1, i32::MAX)];
    assert_eq!(total_predicted_points(&one), 2 * (i32::MAX as i128));
}
