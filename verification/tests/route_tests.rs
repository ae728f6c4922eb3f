use tsp_genetic::city::{close_loop, City, Distance, Unique};
use tsp_genetic::route::Route;
use tsp_genetic::scoring::{Scoring, DEGENERATE_FITNESS};

fn stop(name: &str, region: &str, latitude: i32, longitude: i32) -> City {
    City::new(name.to_string(), region.to_string(), latitude, longitude)
}

fn scoring() -> Scoring {
    Scoring {
        anchor: "A".to_string(),
        distance_reward: 20_000,
        anchor_reward: 5,
        anchor_penalty: -2,
        unique_reward: 7,
        near_unique_reward: 1,
        unique_penalty: -15,
        min_distance: 100,
        mutation_threshold: -3,
        swaps: 3,
        tournament_size: 15,
        pass_through: 300_000,
    }
}

fn catalog() -> Vec<City> {
    close_loop(vec![
        stop("A", "X", 0, 0),
        stop("B", "X", 10, 0),
        stop("C", "X", 10, 10),
        stop("D", "X", 0, 10),
    ])
}

fn names(route: &Route) -> Vec<String> {
    route.cities.iter().map(|c| c.name.clone()).collect()
}

fn sorted_names(cities: &Vec<City>) -> Vec<String> {
    let mut all: Vec<String> = cities.iter().map(|c| c.name.clone()).collect();
    all.sort();
    all
}

#[test]
fn default_route_is_the_placeholder() {
    let route = Route::default();
    assert!(route.cities.is_empty());
    assert_eq!(route.distance, u128::MAX);
    assert_eq!(route.fitness, i128::MIN);
}

#[test]
fn from_order_arranges_the_catalog() {
    let route = Route::from_order(&catalog(), &vec![4, 2, 1, 3, 0], &scoring());
    assert_eq!(names(&route), vec!["A", "C", "B", "D", "A"]);
    // legs: A-C 270, C-B 190, B-D 270, D-A 190
    assert_eq!(route.distance, 920);
    // 20000 / 920
    assert_eq!(route.fitness, 21);
}

#[test]
fn from_order_may_repeat_and_omit() {
    let route = Route::from_order(&catalog(), &vec![1, 1, 2], &scoring());
    assert_eq!(names(&route), vec!["B", "B", "C"]);
    assert_eq!(route.distance, 190);
    assert_eq!(route.fitness, 105);
}

#[test]
fn from_order_of_nothing_has_the_greatest_provisional_fitness() {
    let route = Route::from_order(&catalog(), &Vec::new(), &scoring());
    assert!(route.cities.is_empty());
    assert_eq!(route.distance, 0);
    assert_eq!(route.fitness, i128::MAX);
}

#[test]
fn new_route_is_a_rearrangement_of_the_catalog() {
    let catalog = catalog();
    for _ in 0..200 {
        let route = Route::new(&catalog, &scoring());
        assert_eq!(route.cities.len(), 5);
        assert_eq!(sorted_names(&route.cities), vec!["A", "A", "B", "C", "D"]);
        assert_eq!(route.distance, route.cities.distance());
        assert_eq!(route.fitness, 20_000 / route.distance as i128);
    }
}

#[test]
fn new_routes_differ_in_order() {
    let mut catalog = Vec::new();
    for i in 0..40 {
        catalog.push(stop(&format!("S{}", i), "X", i, 0));
    }
    let first = names(&Route::new(&catalog, &scoring()));
    let mut differs = false;
    for _ in 0..20 {
        if names(&Route::new(&catalog, &scoring())) != first {
            differs = true;
        }
    }
    assert!(differs);
}

#[test]
fn new_route_over_a_single_city() {
    let route = Route::new(&vec![stop("A", "X", 3, 4)], &scoring());
    assert_eq!(names(&route), vec!["A"]);
    assert_eq!(route.distance, 0);
    assert_eq!(route.fitness, i128::MAX);
}

#[test]
fn distance_is_computed_from_the_stops_not_the_cache() {
    let route = Route { cities: catalog(), distance: 1, fitness: 1 };
    assert_eq!(route.distance(), 760);
    assert_eq!(route.distance, 1);
}

#[test]
fn score_of_a_valid_closed_tour() {
    let mut route = Route { cities: catalog(), distance: 0, fitness: 0 };
    route.score(&scoring());
    assert_eq!(route.distance, 760);
    // 20000 / 760 = 26, both ends at the anchor, one repeated stop
    assert_eq!(route.fitness, 26 + 5 + 5 + 7);
    assert_eq!(names(&route), vec!["A", "B", "C", "D", "A"]);
}

#[test]
fn score_of_a_tour_that_starts_elsewhere() {
    let mut route = Route::from_order(&catalog(), &vec![1, 0, 2, 3, 4], &scoring());
    route.score(&scoring());
    // legs: B-A 190, A-C 270, C-D 190, D-A 190
    assert_eq!(route.distance, 840);
    assert_eq!(route.fitness, 23 - 2 + 5 + 7);
}

#[test]
fn score_of_a_tour_without_a_repeated_stop_takes_the_penalty() {
    let mut route = Route::from_order(&catalog(), &vec![0, 1, 2, 3], &scoring());
    route.score(&scoring());
    assert_eq!(route.distance, 570);
    assert_eq!(route.fitness, 35 + 5 - 2 - 15);
}

#[test]
fn score_of_a_tour_with_five_repeats_takes_the_reduced_reward() {
    let mut route =
        Route::from_order(&catalog(), &vec![0, 1, 2, 3, 1, 2, 3, 1, 4], &scoring());
    route.score(&scoring());
    // A-B 190, B-C 190, C-D 190, D-B 270, B-C 190, C-D 190, D-B 270, B-A 190
    assert_eq!(route.distance, 1680);
    assert_eq!(route.fitness, 11 + 5 + 5 + 1);
}

#[test]
fn score_of_a_degenerate_tour_is_the_lowest_fitness_of_a_candidate() {
    assert_eq!(DEGENERATE_FITNESS, i128::MIN + 1);
    let mut near = Route::from_order(&catalog(), &vec![0, 4], &scoring());
    near.score(&scoring());
    assert_eq!(near.distance, 0);
    assert_eq!(near.fitness, i128::MIN + 1);

    let mut strict = scoring();
    strict.min_distance = 761;
    let mut route = Route { cities: catalog(), distance: 0, fitness: 0 };
    route.score(&strict);
    assert_eq!(route.distance, 760);
    assert_eq!(route.fitness, i128::MIN + 1);

    strict.min_distance = 760;
    route.score(&strict);
    assert_eq!(route.fitness, 26 + 5 + 5 + 7);
}

#[test]
fn score_of_an_empty_tour() {
    let mut lenient = scoring();
    lenient.min_distance = 1;
    let mut route = Route::default();
    route.score(&lenient);
    assert_eq!(route.distance, 0);
    assert_eq!(route.fitness, i128::MIN + 1);
}

#[test]
fn every_scored_candidate_is_fitter_than_the_placeholder() {
    let placeholder = Route::default().fitness;
    let mut harsh = scoring();
    harsh.distance_reward = 0;
    harsh.anchor_reward = i64::MIN;
    harsh.anchor_penalty = i64::MIN;
    harsh.unique_reward = i64::MIN;
    harsh.near_unique_reward = i64::MIN;
    harsh.unique_penalty = i64::MIN;
    for order in [vec![], vec![0], vec![0, 4], vec![0, 1, 2, 3, 4], vec![1, 2]] {
        let mut route = Route::from_order(&catalog(), &order, &harsh);
        route.score(&harsh);
        assert!(route.fitness > placeholder);
        assert!(route.fitness >= DEGENERATE_FITNESS);
    }
}

#[test]
fn anchor_is_told_by_name_alone() {
    let mut route = Route {
        cities: vec![stop("A", "elsewhere", 0, 0), stop("B", "X", 100, 0), stop("A", "X", 0, 0)],
        distance: 0,
        fitness: 0,
    };
    route.score(&scoring());
    assert_eq!(route.distance, 3800);
    // 20000 / 3800 = 5, both ends carry the anchor's name, no repeated place
    assert_eq!(route.fitness, 5 + 5 + 5 - 15);
}

#[test]
fn apply_swaps_exchanges_pair_by_pair() {
    let mut route = Route { cities: catalog(), distance: 760, fitness: 43 };
    route.apply_swaps(&vec![(0, 1), (1, 3), (2, 2)]);
    assert_eq!(names(&route), vec!["B", "D", "C", "A", "A"]);
    assert_eq!(route.distance, 760);
    assert_eq!(route.fitness, 43);
}

#[test]
fn apply_swaps_keeps_the_stops() {
    let mut route = Route { cities: catalog(), distance: 760, fitness: 43 };
    route.apply_swaps(&vec![(4, 0), (3, 1), (0, 2), (1, 1), (2, 4)]);
    assert_eq!(route.cities.len(), 5);
    assert_eq!(sorted_names(&route.cities), vec!["A", "A", "B", "C", "D"]);
}

#[test]
fn apply_no_swaps_changes_nothing() {
    let mut route = Route { cities: catalog(), distance: 760, fitness: 43 };
    route.apply_swaps(&Vec::new());
    assert_eq!(names(&route), vec!["A", "B", "C", "D", "A"]);
}

#[test]
fn crossover_takes_the_first_half_of_one_and_the_rest_of_the_other() {
    let first = Route::from_order(&catalog(), &vec![0, 1, 2, 3, 4], &scoring());
    let second = Route::from_order(&catalog(), &vec![3, 3, 3, 2, 1], &scoring());
    let child = first.crossover(&second);
    // five stops are cut after the second
    assert_eq!(names(&child), vec!["A", "B", "D", "C", "B"]);
    assert_eq!(child.distance, 0);
    assert_eq!(child.fitness, 0);
}

#[test]
fn crossover_of_even_length_cuts_in_the_middle() {
    let first = Route::from_order(&catalog(), &vec![0, 1, 2, 3], &scoring());
    let second = Route::from_order(&catalog(), &vec![3, 2, 1, 0], &scoring());
    let child = first.crossover(&second);
    assert_eq!(names(&child), vec!["A", "B", "B", "A"]);
}

#[test]
fn crossover_of_short_routes() {
    let one = Route::from_order(&catalog(), &vec![1], &scoring());
    let other = Route::from_order(&catalog(), &vec![2], &scoring());
    assert_eq!(names(&one.crossover(&other)), vec!["C"]);
    let empty = Route::default();
    assert!(empty.crossover(&Route::default()).cities.is_empty());
}

#[test]
fn clone_of_route_copies_stops_and_numbers() {
    let route = Route { cities: catalog(), distance: 760, fitness: 43 };
    let copy = route.clone();
    assert_eq!(names(&copy), names(&route));
    assert_eq!(copy.cities[2].region, "X");
    assert_eq!(copy.cities[2].latitude, 10);
    assert_eq!(copy.cities[2].longitude, 10);
    assert_eq!(copy.distance, 760);
    assert_eq!(copy.fitness, 43);
}

#[test]
fn route_renders_stops_and_distance() {
    let route = Route {
        cities: vec![stop("A", "X", 0, 0), stop("B", "Y", 10, 0), stop("C", "Z", 10, 10)],
        distance: 380,
        fitness: 0,
    };
    assert_eq!(route.to_string(), "Cities: A,X\nB,Y\nC,Z\nDistance: 380");
}

#[test]
fn route_renders_the_cached_distance() {
    let route = Route {
        cities: vec![stop("San Francisco", "California", 0, 0)],
        distance: 7,
        fitness: 0,
    };
    assert_eq!(route.to_string(), "Cities: San Francisco,California\nDistance: 7");
}

#[test]
fn placeholder_renders_without_stops() {
    assert_eq!(
        Route::default().to_string(),
        "Cities: \nDistance: 340282366920938463463374607431768211455"
    );
}

/// All orders of the five positions of the catalog.
fn all_orders() -> Vec<Vec<usize>> {
    let mut orders = Vec::new();
    for a in 0..5 {
        for b in 0..5 {
            for c in 0..5 {
                for d in 0..5 {
                    for e in 0..5 {
                        let order = vec![a, b, c, d, e];
                        let mut seen = order.clone();
                        seen.sort();
                        seen.dedup();
                        if seen.len() == 5 {
                            orders.push(order);
                        }
                    }
                }
            }
        }
    }
    orders
}

#[test]
fn every_order_of_a_closed_catalog_earns_the_uniqueness_reward() {
    let orders = all_orders();
    assert_eq!(orders.len(), 120);
    for order in orders {
        let route = Route::from_order(&catalog(), &order, &scoring());
        let unique = route.cities.uniqueness_count();
        assert_eq!(unique, 4);
        assert_eq!(scoring().unique_prize(unique, route.cities.len()), 7);
    }
}

#[test]
fn every_order_of_distinct_cities_takes_the_uniqueness_penalty() {
    for order in all_orders() {
        let open: Vec<usize> = order.into_iter().filter(|&position| position != 4).collect();
        let route = Route::from_order(&catalog(), &open, &scoring());
        let unique = route.cities.uniqueness_count();
        assert_eq!(unique, 4);
        assert_eq!(route.cities.len(), 4);
        assert_eq!(scoring().unique_prize(unique, route.cities.len()), -15);
    }
}

#[test]
fn only_closed_tours_from_the_anchor_get_above_the_bounds() {
    let mut strict = scoring();
    strict.anchor_penalty = -1000;
    strict.near_unique_reward = -1000;
    strict.unique_penalty = -1000;
    // the distance term is at most 20000 / 100, so a tour that misses the
    // anchor at an end stays below 200 + 5 - 1000 + 7, and one without
    // exactly one repeated stop below 200 + 5 + 5 - 1000
    let mut valid = 0;
    for a in 0..5 {
        for b in 0..5 {
            for c in 0..5 {
                for d in 0..5 {
                    for e in 0..5 {
                        let mut route =
                            Route::from_order(&catalog(), &vec![a, b, c, d, e], &strict);
                        route.score(&strict);
                        let stops = names(&route);
                        let anchored = stops[0] == "A" && stops[4] == "A";
                        let one_repeat = route.cities.uniqueness_count() == 4;
                        assert_eq!(route.fitness > -788, anchored && one_repeat);
                        if route.fitness > -788 {
                            valid += 1;
                            assert!(route.fitness == 43 || route.fitness == 38);
                        }
                    }
                }
            }
        }
    }
    // two positions hold the anchor, which may stand at either end, and the
    // three other stops come in any of six orders
    assert_eq!(valid, 24);
}
