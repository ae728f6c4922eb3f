//! The scoring configuration and the fitness formula.

use vstd::prelude::*;
use crate::city::{
    closed, distinct_places, lemma_all_distinct, lemma_closed_tour_repeats_once, places,
    tour_distance, CityView,
};

verus! {

/// The number of equally likely outcomes of the draw that decides whether a
/// selected parent is carried over unchanged.
pub const PASS_THROUGH_SCALE: u32 = 1_000_000;

/// The fitness of a degenerate tour: the lowest fitness that a scored
/// candidate can have. Only the placeholder for "no candidate yet" is
/// below it.
pub const DEGENERATE_FITNESS: i128 = i128::MIN + 1;

/// The magnitudes and knobs of the genetic operators.
pub struct Scoring {
    /// Name of the city at which a valid tour starts and ends.
    pub anchor: String,
    /// Numerator of the distance term of the fitness: `distance_reward / distance`.
    pub distance_reward: u64,
    /// Added once for each end of the tour that is the anchor city.
    pub anchor_reward: i64,
    /// Added once for each end of the tour that is not the anchor city.
    pub anchor_penalty: i64,
    /// Added when exactly one stop repeats an earlier one.
    pub unique_reward: i64,
    /// Added when exactly five stops repeat earlier ones.
    pub near_unique_reward: i64,
    /// Added for any other number of repeated stops.
    pub unique_penalty: i64,
    /// Tours shorter than this are degenerate and get [`DEGENERATE_FITNESS`].
    pub min_distance: u128,
    /// Only candidates with a fitness above this are mutated.
    pub mutation_threshold: i128,
    /// Number of random swaps applied to a mutated candidate.
    pub swaps: usize,
    /// Number of candidates drawn for one tournament.
    pub tournament_size: usize,
    /// Chance, in parts of [`PASS_THROUGH_SCALE`], that a selected parent is
    /// copied into the next generation instead of being crossed with a second.
    pub pass_through: u32,
}

impl Scoring {
    /// A configuration is usable when the degenerate band around zero is not
    /// empty, a tournament draws at least one candidate, and the
    /// pass-through chance is at most one.
    pub open spec fn wf(&self) -> bool {
        &&& self.min_distance >= 1
        &&& self.tournament_size >= 1
        &&& self.pass_through <= PASS_THROUGH_SCALE
    }

    /// Whether the configuration is usable.
    pub fn is_valid(&self) -> (ok: bool)
        ensures
            ok == self.wf(),
    {
        self.min_distance >= 1 && self.tournament_size >= 1 && self.pass_through
            <= PASS_THROUGH_SCALE
    }

    /// The prize for one end of the tour.
    pub open spec fn anchor_prize(&self, at_anchor: bool) -> int {
        if at_anchor {
            self.anchor_reward as int
        } else {
            self.anchor_penalty as int
        }
    }

    /// The prize for `unique` distinct stops among `all` stops.
    pub open spec fn uniqueness_prize(&self, unique: nat, all: nat) -> int {
        if unique + 1 == all {
            self.unique_reward as int
        } else if unique + 5 == all {
            self.near_unique_reward as int
        } else {
            self.unique_penalty as int
        }
    }

    /// The fitness of a tour that is not degenerate: the reward divided by
    /// the distance, rounded down, and the three prizes.
    pub open spec fn fitness_sum(
        &self,
        distance: nat,
        first: int,
        last: int,
        uniqueness: int,
    ) -> int {
        self.distance_reward as int / distance as int + first + last + uniqueness
    }

    /// Whether the tour starts at the anchor city.
    pub open spec fn starts_at_anchor(&self, cities: Seq<CityView>) -> bool {
        cities.len() > 0 && cities.first().name == self.anchor@
    }

    /// Whether the tour ends at the anchor city.
    pub open spec fn ends_at_anchor(&self, cities: Seq<CityView>) -> bool {
        cities.len() > 0 && cities.last().name == self.anchor@
    }

    /// The fitness of a tour: [`DEGENERATE_FITNESS`] for a degenerate tour,
    /// and otherwise the distance term plus the prizes for both ends and for
    /// the number of distinct stops.
    pub open spec fn fitness_of(&self, cities: Seq<CityView>) -> int {
        let distance = tour_distance(cities);
        if distance < self.min_distance {
            DEGENERATE_FITNESS as int
        } else {
            self.fitness_sum(
                distance,
                self.anchor_prize(self.starts_at_anchor(cities)),
                self.anchor_prize(self.ends_at_anchor(cities)),
                uniqueness_prize_of(*self, cities),
            )
        }
    }

    /// The fitness given to a freshly built tour, before it is scored in
    /// full: the distance term alone, and the highest value there is where
    /// the distance is zero.
    pub open spec fn provisional_fitness(&self, distance: nat) -> int {
        if distance == 0 {
            i128::MAX as int
        } else {
            self.distance_reward as int / distance as int
        }
    }

    /// The distance term that is reported with an improvement: the reward
    /// divided by the distance, rounded down, and the greatest value there
    /// is where the distance is zero.
    pub open spec fn reported_term(&self, distance: nat) -> nat {
        if distance == 0 {
            u128::MAX as nat
        } else {
            (self.distance_reward as int / distance as int) as nat
        }
    }

    /// The greatest distance term that a tour can earn: that of the
    /// shortest tour that is not degenerate.
    pub open spec fn max_distance_term(&self) -> int {
        self.distance_reward as int / self.min_distance as int
    }

    /// The greatest fitness that a tour can have that misses the anchor
    /// city at one end or at both, where the anchor is rewarded.
    pub open spec fn unanchored_bound(&self) -> int {
        let uniqueness = if self.unique_reward >= self.near_unique_reward && self.unique_reward
            >= self.unique_penalty {
            self.unique_reward
        } else if self.near_unique_reward >= self.unique_penalty {
            self.near_unique_reward
        } else {
            self.unique_penalty
        };
        self.max_distance_term() + self.anchor_reward + self.anchor_penalty + uniqueness
    }

    /// The greatest fitness that a tour can have in which the number of
    /// stops that repeat an earlier one is not one, where the anchor is
    /// rewarded.
    pub open spec fn invalid_bound(&self) -> int {
        let uniqueness = if self.near_unique_reward >= self.unique_penalty {
            self.near_unique_reward
        } else {
            self.unique_penalty
        };
        self.max_distance_term() + 2 * self.anchor_reward + uniqueness
    }

    /// Whether a parent is carried over unchanged on the given draw.
    pub open spec fn carried_over(&self, draw: int) -> bool {
        draw < self.pass_through
    }

    /// Whether a parent is carried over unchanged on the given draw, a
    /// number below [`PASS_THROUGH_SCALE`].
    pub fn carries_over(&self, draw: usize) -> (carried: bool)
        ensures
            carried == self.carried_over(draw as int),
    {
        draw < self.pass_through as usize
    }

    /// The prize for an end of the tour at which `city_name` stands.
    pub fn end_prize(&self, city_name: Option<&String>) -> (prize: i64)
        ensures
            prize == self.anchor_prize(city_name is Some && city_name->0@ == self.anchor@),
    {
        match city_name {
            Some(name) => if *name == self.anchor {
                self.anchor_reward
            } else {
                self.anchor_penalty
            },
            None => self.anchor_penalty,
        }
    }

    /// The prize for `unique` distinct stops among `all` stops.
    pub fn unique_prize(&self, unique: usize, all: usize) -> (prize: i64)
        ensures
            prize == self.uniqueness_prize(unique as nat, all as nat),
    {
        if unique > all {
            self.unique_penalty
        } else if all - unique == 1 {
            self.unique_reward
        } else if all - unique == 5 {
            self.near_unique_reward
        } else {
            self.unique_penalty
        }
    }

    /// The fitness of a tour of the given length, which is not zero: the
    /// distance term, rounded down, and the three prizes.
    pub fn calculate_fitness(
        &self,
        distance: u128,
        first_prize: i64,
        last_prize: i64,
        uniqueness_prize: i64,
    ) -> (fitness: i128)
        requires
            distance > 0,
        ensures
            fitness == self.fitness_sum(
                distance as nat,
                first_prize as int,
                last_prize as int,
                uniqueness_prize as int,
            ),
            fitness > DEGENERATE_FITNESS,
    {
        let term = self.distance_reward as u128 / distance;
        assert(term <= self.distance_reward) by (nonlinear_arith)
            requires
                term == self.distance_reward as u128 / distance,
                distance > 0,
        ;
        term as i128 + first_prize as i128 + last_prize as i128 + uniqueness_prize as i128
    }

    /// The distance term that is reported for a tour of the given length.
    pub fn reward_per_distance(&self, distance: u128) -> (term: u128)
        ensures
            term == self.reported_term(distance as nat),
    {
        if distance == 0 {
            u128::MAX
        } else {
            let term = self.distance_reward as u128 / distance;
            assert(0 <= term <= self.distance_reward) by (nonlinear_arith)
                requires
                    term == self.distance_reward as u128 / distance,
                    distance > 0,
            ;
            term
        }
    }

    /// The fitness of a freshly built tour of the given length.
    pub fn provisional(&self, distance: u128) -> (fitness: i128)
        ensures
            fitness == self.provisional_fitness(distance as nat),
    {
        if distance == 0 {
            i128::MAX
        } else {
            let term = self.distance_reward as u128 / distance;
            assert(term <= self.distance_reward) by (nonlinear_arith)
                requires
                    term == self.distance_reward as u128 / distance,
                    distance > 0,
            ;
            term as i128
        }
    }
}

/// The uniqueness prize of a tour.
pub open spec fn uniqueness_prize_of(scoring: Scoring, tour: Seq<CityView>) -> int {
    scoring.uniqueness_prize(distinct_places(tour), tour.len())
}

/// A tour that visits the catalog of cities at different places, in any
/// order, earns the full uniqueness reward.
pub proof fn lemma_closed_tour_earns_reward(
    scoring: Scoring,
    cities: Seq<CityView>,
    tour: Seq<CityView>,
)
    requires
        cities.len() > 0,
        places(cities).no_duplicates(),
        tour.to_multiset() == closed(cities).to_multiset(),
    ensures
        uniqueness_prize_of(scoring, tour) == scoring.unique_reward,
{
    lemma_closed_tour_repeats_once(cities, tour);
}

/// A tour whose stops are all at different places, with no stop repeated
/// to close the loop, earns the uniqueness penalty.
pub proof fn lemma_open_tour_earns_penalty(scoring: Scoring, tour: Seq<CityView>)
    requires
        places(tour).no_duplicates(),
    ensures
        uniqueness_prize_of(scoring, tour) == scoring.unique_penalty,
{
    lemma_all_distinct(tour);
}

/// Where the anchor is rewarded, a tour that is fitter than any tour can be
/// that misses the anchor at an end starts and ends at the anchor city; and
/// one that is fitter than any tour can be without exactly one repeated
/// stop has exactly one. So a search whose minimum fitness is at least both
/// bounds finishes only with a closed tour from the anchor to the anchor.
pub proof fn lemma_high_fitness_is_valid(scoring: Scoring, tour: Seq<CityView>)
    requires
        scoring.wf(),
        scoring.anchor_penalty <= scoring.anchor_reward,
    ensures
        scoring.fitness_of(tour) > scoring.unanchored_bound() ==> scoring.starts_at_anchor(tour)
            && scoring.ends_at_anchor(tour),
        scoring.fitness_of(tour) > scoring.invalid_bound() ==> distinct_places(tour) + 1
            == tour.len(),
{
    let distance = tour_distance(tour);
    if distance >= scoring.min_distance {
        vstd::arithmetic::div_mod::lemma_div_is_ordered_by_denominator(
            scoring.distance_reward as int,
            scoring.min_distance as int,
            distance as int,
        );
    }
}

} // verus!
