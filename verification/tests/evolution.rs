use squad_ga::crossover::{
    add_newcomer, crossover, fallback_parent, remove_duplicates, repair, splice, REPAIR_LIMIT,
};
use squad_ga::evolve::{breed_child, fittest_team, next_generation, select_best_team_ga};
use squad_ga::fitness::fitness;
use squad_ga::generate::{
    accepts, create_initial_population, generate_random_team, offer, DRAW_LIMIT,
};
use squad_ga::model::{Config, GaError, Player, Position, Ratio};
use squad_ga::mutate::{mutate, replace_member};
use squad_ga::random::RandomSource;
use squad_ga::report::total_predicted_points;
use squad_ga::select::{evaluate, rank_by_fitness, select_parents};
use squad_ga::validate::{satisfies_constraints, total_value};

fn entry(element: u32, position: Position, team: &str, value: u32, points: i32) -> Player {
    Player {
        element,
        name: format!("Entry {}", element),
        value,
        position,
        team: team.to_string(),
        predicted_points: points,
    }
}

/// Twenty players: three goalkeepers, six defenders, seven midfielders and
/// four forwards, spread over seven teams, values 40 to 59.
fn small_pool() -> Vec<Player> {
    let teams = ["Ash", "Birch", "Cedar", "Elm", "Fir", "Oak", "Yew"];
    let mut pool = Vec::new();
    for i in 0..20u32 {
        let position = if i < 3 {
            Position::Goalkeeper
        } else if i < 9 {
            Position::Defender
        } else if i < 16 {
            Position::Midfielder
        } else {
            Position::Forward
        };
        pool.push(entry(
            100 + i,
            position,
            teams[(i % 7) as usize],
            40 + i,
            ((i * 37) % 23) as i32 * 10,
        ));
    }
    pool
}

/// A pool in which any fifteen players cost more than the standard budget.
fn costly_pool() -> Vec<Player> {
    let mut pool = small_pool();
    for player in pool.iter_mut() {
        player.value = 100;
    }
    pool
}

fn quick_config() -> Config {
    let mut config = Config::default();
    config.population_size = 10;
    config.generations = 5;
    config
}

/// The first fifteen entries the validator lets through, in pool order.
fn first_squad(pool: &Vec<Player>, config: &Config) -> Vec<Player> {
    let mut squad = Vec::new();
    for player in pool.iter() {
        if squad.len() < 15 && accepts(&squad, player, config) {
            squad.push(player.clone());
        }
    }
    squad
}

#[test]
fn sources_with_one_seed_draw_alike() {
    let mut a = RandomSource::new(42);
    let mut b = RandomSource::new(42);
    let mut c = RandomSource::new(43);
    let mut differs = false;
    for _ in 0..100 {
        let x = a.index_below(1_000_000);
        assert_eq!(x, b.index_below(1_000_000));
        if x != c.index_below(1_000_000) {
            differs = true;
        }
    }
    assert!(differs);
    assert_eq!(a, b);
}

#[test]
fn index_stays_below_bound() {
    let mut source = RandomSource::new(1_000_000);
    let mut seen = [false; 7];
    for _ in 0..500 {
        let index = source.index_below(7);
        assert!(index < 7);
        seen[index] = true;
    }
    assert!(seen.iter().all(|hit| *hit));
    for _ in 0..20 {
        assert_eq!(source.index_below(1), 0);
    }
}

#[test]
fn certain_and_impossible_trials() {
    let mut source = RandomSource::new(3);
    let mut hits = 0;
    for _ in 0..200 {
        assert!(source.chance(Ratio { numerator: 5, denominator: 5 }));
        assert!(!source.chance(Ratio { numerator: 0, denominator: 5 }));
        if source.chance(Ratio { numerator: 1, denominator: 2 }) {
            hits += 1;
        }
    }
    assert!(hits > 50 && hits < 150);
}

#[test]
fn accepts_checks_every_limit() {
    let config = Config::default();
    let pool = small_pool();
    let squad = first_squad(&pool, &config);
    assert_eq!(squad.len(), 15);
    assert!(satisfies_constraints(&squad, &config));

    let two_keepers = vec![pool[0].clone(), pool[1].clone()];
    assert!(!accepts(&two_keepers, &pool[2], &config));
    assert!(!accepts(&two_keepers, &pool[0], &config));
    assert!(accepts(&two_keepers, &pool[3], &config));

    let same_team = vec![
        entry(1, Position::Defender, "Ash", 10, 1),
        entry(2, Position::Midfielder, "Ash", 10, 1),
        entry(3, Position::Forward, "Ash", 10, 1),
    ];
    assert!(!accepts(&same_team, &entry(4, Position::Defender, "Ash", 10, 1), &config));
    assert!(accepts(&same_team, &entry(4, Position::Defender, "Elm", 10, 1), &config));
    assert!(accepts(&same_team, &entry(4, Position::Defender, "Elm", 970, 1), &config));
    assert!(!accepts(&same_team, &entry(4, Position::Defender, "Elm", 971, 1), &config));
}

#[test]
fn offer_appends_what_fits() {
    let config = Config::default();
    let pool = small_pool();
    let mut squad = vec![pool[0].clone(), pool[1].clone()];
    assert!(!offer(&mut squad, &pool[2], &config));
    assert_eq!(squad, vec![pool[0].clone(), pool[1].clone()]);
    assert!(offer(&mut squad, &pool[3], &config));
    assert_eq!(squad, vec![pool[0].clone(), pool[1].clone(), pool[3].clone()]);
    assert!(!offer(&mut squad, &pool[3], &config));
    assert_eq!(squad.len(), 3);
}

#[test]
fn drafted_squads_are_valid() {
    let config = Config::default();
    let pool = small_pool();
    for seed in 0..40 {
        let mut rng = RandomSource::new(seed);
        let squad = generate_random_team(&pool, &config, &mut rng).unwrap();
        assert!(satisfies_constraints(&squad, &config));
        assert!(squad.iter().all(|player| pool.contains(player)));
    }
}

#[test]
fn draft_from_an_empty_pool_fails() {
    let mut rng = RandomSource::new(5);
    let before = rng;
    assert_eq!(
        generate_random_team(&Vec::new(), &Config::default(), &mut rng),
        Err(GaError::InfeasibleConstraints)
    );
    assert_eq!(rng, before);
    assert_eq!(
        create_initial_population(&Vec::new(), &quick_config(), &mut rng),
        Err(GaError::InfeasibleConstraints)
    );
}

#[test]
fn error_says_what_went_wrong() {
    assert_eq!(
        GaError::InfeasibleConstraints.message(),
        "no squad within the limits could be drafted from the pool"
    );
}

#[test]
fn draft_from_a_costly_pool_gives_up() {
    assert_eq!(DRAW_LIMIT, 10_000);
    let mut rng = RandomSource::new(11);
    assert_eq!(
        generate_random_team(&costly_pool(), &Config::default(), &mut rng),
        Err(GaError::InfeasibleConstraints)
    );
}

#[test]
fn initial_population_has_the_configured_size() {
    let config = quick_config();
    let pool = small_pool();
    let mut rng = RandomSource::new(7);
    let population = create_initial_population(&pool, &config, &mut rng).unwrap();
    assert_eq!(population.len(), 10);
    assert!(population.iter().all(|squad| satisfies_constraints(squad, &config)));
}

#[test]
fn splice_joins_head_and_tail() {
    let pool = small_pool();
    let first: Vec<Player> = pool[0..15].to_vec();
    let second: Vec<Player> = pool[5..20].to_vec();
    let child = splice(&first, &second, 4);
    let mut expected: Vec<Player> = first[0..4].to_vec();
    expected.extend_from_slice(&second[4..15]);
    assert_eq!(child, expected);
    assert_eq!(splice(&first, &second, 0), second);
    assert_eq!(splice(&first, &second, 15), first);
}

#[test]
fn remove_duplicates_keeps_first_occurrences() {
    let pool = small_pool();
    let team = vec![
        pool[0].clone(),
        pool[1].clone(),
        pool[0].clone(),
        pool[2].clone(),
        pool[1].clone(),
        pool[1].clone(),
        pool[3].clone(),
    ];
    assert_eq!(
        remove_duplicates(&team),
        vec![pool[0].clone(), pool[1].clone(), pool[2].clone(), pool[3].clone()]
    );
    assert_eq!(remove_duplicates(&Vec::new()), Vec::<Player>::new());
    let mut renamed = pool[4].clone();
    renamed.name = "Somebody else".to_string();
    assert_eq!(remove_duplicates(&vec![pool[4].clone(), renamed]), vec![pool[4].clone()]);
}

#[test]
fn add_newcomer_skips_known_players() {
    let pool = small_pool();
    let mut child = vec![pool[0].clone(), pool[1].clone()];
    add_newcomer(&mut child, &pool[1]);
    assert_eq!(child.len(), 2);
    add_newcomer(&mut child, &pool[2]);
    assert_eq!(child, vec![pool[0].clone(), pool[1].clone(), pool[2].clone()]);
}

#[test]
fn repair_fills_a_child_from_its_donor() {
    assert_eq!(REPAIR_LIMIT, 400);
    let pool = small_pool();
    let donor: Vec<Player> = pool[0..15].to_vec();
    for seed in 0..20 {
        let mut rng = RandomSource::new(seed);
        let mut child: Vec<Player> = pool[0..9].to_vec();
        repair(&mut child, &donor, &mut rng);
        assert_eq!(child.len(), 15);
        assert_eq!(&child[0..9], &pool[0..9]);
        assert_eq!(remove_duplicates(&child), child);
        assert!(child.iter().all(|player| donor.contains(player)));
    }
    let mut rng = RandomSource::new(1);
    let before = rng;
    let mut full = donor.clone();
    repair(&mut full, &donor, &mut rng);
    assert_eq!(full, donor);
    assert_eq!(rng, before);
    let mut stuck: Vec<Player> = pool[0..3].to_vec();
    repair(&mut stuck, &pool[0..3].to_vec(), &mut rng);
    assert_eq!(stuck, pool[0..3].to_vec());
    let mut alone: Vec<Player> = pool[0..3].to_vec();
    repair(&mut alone, &Vec::new(), &mut rng);
    assert_eq!(alone, pool[0..3].to_vec());
}

#[test]
fn fallback_parent_follows_the_coin() {
    let pool = small_pool();
    let first: Vec<Player> = pool[0..15].to_vec();
    let second: Vec<Player> = pool[5..20].to_vec();
    assert_eq!(fallback_parent(&first, &second, true), first);
    assert_eq!(fallback_parent(&first, &second, false), second);
}

#[test]
fn crossover_returns_a_valid_squad_or_a_parent() {
    let config = Config::default();
    let pool = small_pool();
    let mut made_new = false;
    for seed in 0..200 {
        let mut rng = RandomSource::new(seed);
        let first = generate_random_team(&pool, &config, &mut rng).unwrap();
        let second = generate_random_team(&pool, &config, &mut rng).unwrap();
        let child = crossover(&first, &second, &config, &mut rng);
        assert!(satisfies_constraints(&child, &config) || child == first || child == second);
        assert!(satisfies_constraints(&child, &config));
        if child != first && child != second {
            made_new = true;
        }
    }
    assert!(made_new);
}

#[test]
fn crossover_of_invalid_parents_hands_one_back() {
    let config = Config::default();
    let pool = costly_pool();
    let first: Vec<Player> = pool[0..15].to_vec();
    let second: Vec<Player> = pool[5..20].to_vec();
    let mut saw_first = false;
    let mut saw_second = false;
    for seed in 0..100 {
        let mut rng = RandomSource::new(seed);
        let child = crossover(&first, &second, &config, &mut rng);
        assert!(child == first || child == second);
        saw_first = saw_first || child == first;
        saw_second = saw_second || child == second;
    }
    assert!(saw_first && saw_second);
}

#[test]
fn crossover_of_a_squad_with_itself_returns_it() {
    let config = Config::default();
    let squad = first_squad(&small_pool(), &config);
    for seed in 0..20 {
        let mut rng = RandomSource::new(seed);
        assert_eq!(crossover(&squad, &squad, &config, &mut rng), squad);
    }
}

#[test]
fn replace_member_swaps_one_slot() {
    let pool = small_pool();
    let mut squad: Vec<Player> = pool[0..15].to_vec();
    replace_member(&mut squad, 6, &pool[19]);
    let mut expected: Vec<Player> = pool[0..15].to_vec();
    expected[6] = pool[19].clone();
    assert_eq!(squad, expected);
}

#[test]
fn mutation_never_returns_an_invalid_squad() {
    let mut config = Config::default();
    config.mutation_rate = Ratio { numerator: 1, denominator: 1 };
    let pool = small_pool();
    let squad = first_squad(&pool, &config);
    let mut changed = false;
    for seed in 0..200 {
        let mut rng = RandomSource::new(seed);
        let result = mutate(squad.clone(), &pool, &config, &mut rng).unwrap();
        assert!(satisfies_constraints(&result, &config));
        changed = changed || result != squad;
    }
    assert!(changed);
}

#[test]
fn mutation_at_rate_zero_keeps_a_valid_squad() {
    let mut config = Config::default();
    config.mutation_rate = Ratio { numerator: 0, denominator: 10 };
    let pool = small_pool();
    let squad = first_squad(&pool, &config);
    for seed in 0..20 {
        let mut rng = RandomSource::new(seed);
        assert_eq!(mutate(squad.clone(), &pool, &config, &mut rng), Ok(squad.clone()));
    }
}

#[test]
fn mutation_replaces_an_invalid_squad() {
    let mut config = Config::default();
    config.mutation_rate = Ratio { numerator: 0, denominator: 10 };
    let pool = small_pool();
    let short: Vec<Player> = pool[0..5].to_vec();
    let mut rng = RandomSource::new(9);
    let result = mutate(short.clone(), &pool, &config, &mut rng).unwrap();
    assert_ne!(result, short);
    assert!(satisfies_constraints(&result, &config));
    let mut rng = RandomSource::new(9);
    assert_eq!(
        mutate(short, &costly_pool(), &config, &mut rng),
        Err(GaError::InfeasibleConstraints)
    );
}

#[test]
fn ranking_is_by_fitness_and_stable() {
    assert_eq!(rank_by_fitness(&vec![5, 9, 5, 12, 9, -3]), vec![3, 1, 4, 0, 2, 5]);
    assert_eq!(rank_by_fitness(&vec![1, 1, 1]), vec![0, 1, 2]);
    assert_eq!(rank_by_fitness(&vec![1, 2, 3]), vec![2, 1, 0]);
    assert_eq!(rank_by_fitness(&Vec::new()), Vec::<usize>::new());
}

#[test]
fn selection_keeps_the_better_half() {
    let config = quick_config();
    let pool = small_pool();
    let mut rng = RandomSource::new(21);
    let population = create_initial_population(&pool, &config, &mut rng).unwrap();
    let scores = evaluate(&population, &config);
    assert_eq!(scores.len(), 10);
    for (squad, score) in population.iter().zip(scores.iter()) {
        assert_eq!(fitness(squad, &config), *score);
    }
    let order = rank_by_fitness(&scores);
    let parents = select_parents(&population, &config);
    assert_eq!(parents.len(), 5);
    for (k, parent) in parents.iter().enumerate() {
        assert_eq!(parent, &population[order[k]]);
    }
    for k in 1..parents.len() {
        assert!(fitness(&parents[k - 1], &config) >= fitness(&parents[k], &config));
    }
    let worst_kept = fitness(&parents[4], &config);
    for index in order.iter().skip(5) {
        assert!(scores[*index] <= worst_kept);
    }
    let few: Vec<Vec<Player>> = population[0..3].to_vec();
    assert_eq!(select_parents(&few, &config).len(), 3);
}

#[test]
fn fittest_team_is_the_last_of_the_best() {
    let config = Config::default();
    let pool = small_pool();
    let squad = first_squad(&pool, &config);
    let mut weaker = squad.clone();
    weaker[0].predicted_points -= 1;
    let mut renamed = squad.clone();
    renamed[3].name = "Twin".to_string();
    let population = vec![weaker.clone(), squad.clone(), renamed.clone(), weaker.clone()];
    assert_eq!(fittest_team(&population, &config), renamed);
    assert_eq!(fittest_team(&vec![weaker.clone()], &config), weaker);
}

#[test]
fn bred_generations_are_valid_and_full() {
    let config = quick_config();
    let pool = small_pool();
    let mut rng = RandomSource::new(77);
    let mut population = create_initial_population(&pool, &config, &mut rng).unwrap();
    let child = breed_child(&population, &pool, &config, &mut rng).unwrap();
    assert!(satisfies_constraints(&child, &config));
    for _ in 0..5 {
        population = next_generation(&population, &pool, &config, &mut rng).unwrap();
        assert_eq!(population.len(), 10);
        assert!(population.iter().all(|squad| satisfies_constraints(squad, &config)));
    }
}

#[test]
fn run_returns_a_valid_squad_with_its_headline_score() {
    let config = quick_config();
    let pool = small_pool();
    let best = select_best_team_ga(&pool, &config, 2024).unwrap();
    assert!(satisfies_constraints(&best, &config));
    assert_eq!(best.len(), 15);
    assert!(best.iter().all(|player| pool.contains(player)));
    let sum: i128 = best.iter().map(|player| player.predicted_points as i128).sum();
    let max = best.iter().map(|player| player.predicted_points as i128).max().unwrap();
    assert_eq!(total_predicted_points(&best), sum + max);
    let cost: u128 = best.iter().map(|player| player.value as u128).sum();
    assert_eq!(total_value(&best), cost);
    assert!(cost <= 1000);
}

#[test]
fn run_without_generations_returns_the_best_draft() {
    let mut config = quick_config();
    config.generations = 0;
    let pool = small_pool();
    let mut rng = RandomSource::new(8);
    let population = create_initial_population(&pool, &config, &mut rng).unwrap();
    assert_eq!(
        select_best_team_ga(&pool, &config, 8),
        Ok(fittest_team(&population, &config))
    );
}

#[test]
fn runs_with_one_seed_return_one_squad() {
    let config = quick_config();
    let pool = small_pool();
    for seed in [0u64, 1, 99, u64::MAX] {
        let first = select_best_team_ga(&pool, &config, seed);
        let second = select_best_team_ga(&pool, &config, seed);
        assert!(first.is_ok());
        assert_eq!(first, second);
    }
}

#[test]
fn run_on_a_costly_pool_reports_infeasible_constraints() {
    let config = quick_config();
    let pool = costly_pool();
    let any_fifteen: Vec<Player> = pool[3..18].to_vec();
    assert_eq!(fitness(&any_fifteen, &config), 0);
    let other_fifteen: Vec<Player> = pool[0..15].to_vec();
    assert_eq!(fitness(&other_fifteen, &config), 0);
    assert_eq!(select_best_team_ga(&pool, &config, 1), Err(GaError::InfeasibleConstraints));
    assert_eq!(
        select_best_team_ga(&Vec::new(), &config, 1),
        Err(GaError::InfeasibleConstraints)
    );
}
