use tsp_genetic::city::{close_loop, City, Distance};
use tsp_genetic::parallel::fitness_order;
use tsp_genetic::population::{random_swaps, Evolution, Population};
use tsp_genetic::route::Route;
use tsp_genetic::scoring::{Scoring, PASS_THROUGH_SCALE};

fn stop(name: &str, latitude: i32, longitude: i32) -> City {
    City::new(name.to_string(), "X".to_string(), latitude, longitude)
}

fn scoring() -> Scoring {
    Scoring {
        anchor: "A".to_string(),
        distance_reward: 20_000,
        anchor_reward: 5,
        anchor_penalty: -2,
        unique_reward: 7,
        near_unique_reward: 1,
        unique_penalty: -15,
        min_distance: 100,
        mutation_threshold: -3,
        swaps: 3,
        tournament_size: 3,
        pass_through: 300_000,
    }
}

fn catalog() -> Vec<City> {
    close_loop(vec![stop("A", 0, 0), stop("B", 10, 0), stop("C", 10, 10), stop("D", 0, 10)])
}

fn names(route: &Route) -> Vec<String> {
    route.cities.iter().map(|c| c.name.clone()).collect()
}

fn sorted_names(route: &Route) -> Vec<String> {
    let mut all = names(route);
    all.sort();
    all
}

fn with_fitness(order: Vec<usize>, fitness: i128) -> Route {
    let mut route = Route::from_order(&catalog(), &order, &scoring());
    route.fitness = fitness;
    route
}

/// Six candidates with different stop orders; the one at position 4 is the
/// fittest.
fn six() -> Population {
    Population {
        routes: vec![
            with_fitness(vec![0, 1, 2, 3, 4], 10),
            with_fitness(vec![1, 0, 2, 3, 4], -7),
            with_fitness(vec![2, 1, 0, 3, 4], 3),
            with_fitness(vec![3, 1, 2, 0, 4], 10),
            with_fitness(vec![4, 3, 2, 1, 0], 50),
            with_fitness(vec![0, 2, 1, 4, 3], -100),
        ],
    }
}

fn is_member(population: &Population, route: &Route) -> bool {
    population
        .routes
        .iter()
        .any(|r| {
            names(r) == names(route) && r.fitness == route.fitness && r.distance == route.distance
        })
}

#[test]
fn fitness_order_is_the_order_of_the_numbers() {
    let low = with_fitness(vec![0], -5);
    let high = with_fitness(vec![1], 8);
    assert_eq!(fitness_order(&low, &high), std::cmp::Ordering::Less);
    assert_eq!(fitness_order(&high, &low), std::cmp::Ordering::Greater);
    assert_eq!(fitness_order(&high, &with_fitness(vec![2], 8)), std::cmp::Ordering::Equal);
}

#[test]
fn new_population_has_the_asked_size() {
    let population = Population::new(&catalog(), 17, &scoring());
    assert_eq!(population.routes.len(), 17);
    for route in &population.routes {
        assert_eq!(sorted_names(route), vec!["A", "A", "B", "C", "D"]);
        assert_eq!(route.distance, route.cities.distance());
        assert_eq!(route.fitness, 20_000 / route.distance as i128);
    }
    assert!(Population::new(&catalog(), 0, &scoring()).routes.is_empty());
}

#[test]
fn uniform_populations_are_told_apart() {
    assert!(six().is_uniform());
    assert!(!Population { routes: Vec::new() }.is_uniform());
    assert!(!Population { routes: vec![Route::default()] }.is_uniform());
    let mut uneven = six();
    uneven.routes[5] = with_fitness(vec![0, 1, 2, 3], 1);
    assert!(!uneven.is_uniform());
    let mut uneven = six();
    uneven.routes[0] = with_fitness(vec![0, 1, 2, 3, 4, 0], 1);
    assert!(!uneven.is_uniform());
    assert!(Population { routes: vec![with_fitness(vec![2], 0)] }.is_uniform());
}

#[test]
fn breedable_populations_are_uniform() {
    assert!(six().is_breedable());
    assert!(!Population { routes: Vec::new() }.is_breedable());
    let mut uneven = six();
    uneven.routes[2] = with_fitness(vec![0, 1], 1);
    assert!(!uneven.is_breedable());
}

#[test]
fn get_best_returns_the_fittest() {
    let best = six().get_best();
    assert_eq!(best.fitness, 50);
    assert_eq!(names(&best), vec!["A", "D", "C", "B", "A"]);
}

#[test]
fn get_best_of_equals_returns_one_of_them() {
    let population = Population {
        routes: vec![
            with_fitness(vec![0, 1], 4),
            with_fitness(vec![1, 2], 9),
            with_fitness(vec![2, 3], 9),
        ],
    };
    let best = population.get_best();
    assert_eq!(best.fitness, 9);
    assert!(names(&best) == vec!["B", "C"] || names(&best) == vec!["C", "D"]);
}

#[test]
fn get_best_of_a_single_candidate() {
    let population = Population { routes: vec![with_fitness(vec![3, 2], i128::MIN)] };
    let best = population.get_best();
    assert_eq!(names(&best), vec!["D", "C"]);
    assert_eq!(best.fitness, i128::MIN);
}

#[test]
fn tournament_winner_is_the_fittest_of_the_sample() {
    let population = six();
    assert_eq!(population.tournament_winner(&vec![1, 2, 5]), 2);
    assert_eq!(population.tournament_winner(&vec![5]), 5);
    assert_eq!(population.tournament_winner(&vec![5, 1]), 1);
}

#[test]
fn tournament_winner_among_equals_is_the_first_listed() {
    let population = six();
    assert_eq!(population.tournament_winner(&vec![3, 0, 2]), 3);
    assert_eq!(population.tournament_winner(&vec![2, 0, 3]), 0);
}

#[test]
fn the_fittest_candidate_wins_every_sample_that_lists_it() {
    let population = six();
    let others = [0usize, 1, 2, 3, 5];
    for a in others {
        for b in others {
            if a != b {
                assert_eq!(population.tournament_winner(&vec![4, a, b]), 4);
                assert_eq!(population.tournament_winner(&vec![a, 4, b]), 4);
                assert_eq!(population.tournament_winner(&vec![a, b, 4]), 4);
            }
        }
    }
}

#[test]
fn choose_parent_over_the_whole_population_is_the_fittest() {
    let population = six();
    let mut all = scoring();
    all.tournament_size = 6;
    for _ in 0..200 {
        assert_eq!(population.choose_parent(&all).fitness, 50);
    }
    all.tournament_size = 1000;
    for _ in 0..200 {
        let parent = population.choose_parent(&all);
        assert_eq!(names(&parent), vec!["A", "D", "C", "B", "A"]);
    }
}

#[test]
fn choose_parent_returns_a_member() {
    let population = six();
    let mut seen_less_fit = false;
    for _ in 0..500 {
        let parent = population.choose_parent(&scoring());
        assert!(is_member(&population, &parent));
        // three of six are drawn, so the two least fit can never win
        assert!(parent.fitness >= 3);
        if parent.fitness < 50 {
            seen_less_fit = true;
        }
    }
    assert!(seen_less_fit);
}

#[test]
fn choose_parent_with_a_tournament_of_one_can_return_anyone() {
    let population = six();
    let mut single = scoring();
    single.tournament_size = 1;
    let mut seen_least_fit = false;
    for _ in 0..2000 {
        if population.choose_parent(&single).fitness == -100 {
            seen_least_fit = true;
        }
    }
    assert!(seen_least_fit);
}

#[test]
fn random_swaps_are_within_the_tour() {
    for _ in 0..100 {
        let pairs = random_swaps(5, 4);
        assert_eq!(pairs.len(), 4);
        for (i, j) in pairs {
            assert!(i < 5);
            assert!(j < 5);
        }
    }
    assert!(random_swaps(5, 0).is_empty());
    assert_eq!(random_swaps(1, 2), vec![(0, 0), (0, 0)]);
}

#[test]
fn mutation_keeps_length_and_stops() {
    for _ in 0..100 {
        let before = six();
        let after = six().mutate(&scoring());
        assert_eq!(after.routes.len(), 6);
        for k in 0..6 {
            assert_eq!(after.routes[k].cities.len(), 5);
            assert_eq!(sorted_names(&after.routes[k]), vec!["A", "A", "B", "C", "D"]);
            assert_eq!(after.routes[k].fitness, before.routes[k].fitness);
            assert_eq!(after.routes[k].distance, before.routes[k].distance);
        }
    }
}

#[test]
fn mutation_leaves_candidates_at_or_below_the_threshold_alone() {
    let mut at = scoring();
    at.mutation_threshold = 3;
    for _ in 0..100 {
        let before = six();
        let after = six().mutate(&at);
        for k in [1usize, 2, 5] {
            assert_eq!(names(&after.routes[k]), names(&before.routes[k]));
        }
    }
}

#[test]
fn mutation_reorders_candidates_above_the_threshold() {
    let mut changed = false;
    for _ in 0..200 {
        let before = six();
        let after = six().mutate(&scoring());
        if names(&after.routes[4]) != names(&before.routes[4]) {
            changed = true;
        }
    }
    assert!(changed);
}

#[test]
fn mutation_without_swaps_changes_nothing() {
    let mut none = scoring();
    none.swaps = 0;
    let before = six();
    let after = six().mutate(&none);
    for k in 0..6 {
        assert_eq!(names(&after.routes[k]), names(&before.routes[k]));
    }
}

#[test]
fn recalculate_fitness_scores_every_candidate() {
    let after = six().recalculate_fitness(&scoring());
    assert_eq!(after.routes.len(), 6);
    // A B C D A: 760
    assert_eq!(after.routes[0].distance, 760);
    assert_eq!(after.routes[0].fitness, 26 + 5 + 5 + 7);
    // B A C D A: 190 + 270 + 190 + 190
    assert_eq!(after.routes[1].distance, 840);
    assert_eq!(after.routes[1].fitness, 23 - 2 + 5 + 7);
    // A C B A D: 270 + 190 + 190 + 190
    assert_eq!(after.routes[5].distance, 840);
    assert_eq!(after.routes[5].fitness, 23 + 5 - 2 + 7);
    for k in 0..6 {
        assert_eq!(names(&after.routes[k]), names(&six().routes[k]));
    }
}

#[test]
fn crossover_keeps_the_size_and_the_fittest_comes_first() {
    for _ in 0..50 {
        let next = six().crossing_over(&scoring());
        assert_eq!(next.routes.len(), 6);
        assert_eq!(names(&next.routes[0]), vec!["A", "D", "C", "B", "A"]);
        assert_eq!(next.routes[0].fitness, 50);
        assert_eq!(next.routes[0].distance, six().routes[4].distance);
        for route in &next.routes {
            assert_eq!(route.cities.len(), 5);
        }
    }
}

#[test]
fn crossover_that_always_passes_through_copies_parents() {
    let mut always = scoring();
    always.pass_through = PASS_THROUGH_SCALE;
    let population = six();
    for _ in 0..50 {
        let next = six().crossing_over(&always);
        for route in &next.routes {
            assert!(is_member(&population, route));
        }
    }
}

#[test]
fn crossover_that_never_passes_through_makes_children() {
    let mut never = scoring();
    never.pass_through = 0;
    let population = six();
    for _ in 0..50 {
        let next = six().crossing_over(&never);
        for route in &next.routes[1..] {
            assert_eq!(route.fitness, 0);
            assert_eq!(route.distance, 0);
            let stops = names(route);
            let head = population.routes.iter().any(|p| names(p)[..2] == stops[..2]);
            let tail = population.routes.iter().any(|p| names(p)[2..] == stops[2..]);
            assert!(head && tail);
        }
    }
}

#[test]
fn crossover_of_the_fittest_with_itself_is_the_fittest() {
    let mut never = scoring();
    never.pass_through = 0;
    never.tournament_size = 6;
    let next = six().crossing_over(&never);
    for route in &next.routes[1..] {
        assert_eq!(names(route), vec!["A", "D", "C", "B", "A"]);
        assert_eq!(route.fitness, 0);
    }
}

#[test]
fn crossover_of_a_single_candidate_keeps_it() {
    let population = Population { routes: vec![with_fitness(vec![0, 1, 2, 3, 4], 1)] };
    let next = population.crossing_over(&scoring());
    assert_eq!(next.routes.len(), 1);
    assert_eq!(names(&next.routes[0]), vec!["A", "B", "C", "D", "A"]);
    assert_eq!(next.routes[0].fitness, 1);
}

#[test]
fn next_generation_is_scored() {
    for _ in 0..50 {
        let next = six().next_generation(&scoring());
        assert_eq!(next.routes.len(), 6);
        for route in &next.routes {
            assert_eq!(route.cities.len(), 5);
            let mut again = Route { cities: route.cities.clone(), distance: 0, fitness: 0 };
            again.score(&scoring());
            assert_eq!(route.distance, again.distance);
            assert_eq!(route.fitness, again.fitness);
        }
    }
}
