//! A candidate tour with its cached length and fitness.

use vstd::prelude::*;
use vstd::string::StringExecFns;
use crate::city::{tour_distance, City, CityView, Distance, Unique};
use crate::random::{sample_indices, MAX_FULL_SAMPLE};
use crate::scoring::{Scoring, DEGENERATE_FITNESS};
use crate::text::{decimal, push_decimal};

verus! {

/// One candidate: the stops in the order in which they are visited, and the
/// length and fitness that were last computed for it. Both numbers go stale
/// when the stops are rearranged, until the candidate is scored again.
pub struct Route {
    pub cities: Vec<City>,
    pub distance: u128,
    pub fitness: i128,
}

/// The mathematical value of a [`Route`].
pub struct RouteView {
    pub cities: Seq<CityView>,
    pub distance: nat,
    pub fitness: int,
}

impl View for Route {
    type V = RouteView;

    open spec fn view(&self) -> RouteView {
        RouteView {
            cities: self.cities.deep_view(),
            distance: self.distance as nat,
            fitness: self.fitness as int,
        }
    }
}

impl DeepView for Route {
    type V = RouteView;

    open spec fn deep_view(&self) -> RouteView {
        self@
    }
}

impl RouteView {
    /// Whether the cached numbers are those of the stops as they stand.
    pub open spec fn scored(self, scoring: Scoring) -> bool {
        &&& self.distance == tour_distance(self.cities)
        &&& self.fitness == scoring.fitness_of(self.cities)
    }

    /// The same stops with their numbers computed afresh.
    pub open spec fn rescored(self, scoring: Scoring) -> RouteView {
        RouteView {
            cities: self.cities,
            distance: tour_distance(self.cities),
            fitness: scoring.fitness_of(self.cities),
        }
    }
}

/// The stops of `catalog` taken in the order that `order` lists them.
pub open spec fn arranged(catalog: Seq<CityView>, order: Seq<usize>) -> Seq<CityView> {
    Seq::new(order.len(), |i: int| catalog[order[i] as int])
}

/// Whether `order` lists `amount` different positions of a sequence of
/// `length` items.
pub open spec fn is_selection(order: Seq<usize>, length: nat, amount: nat) -> bool {
    &&& order.len() == amount
    &&& order.no_duplicates()
    &&& forall|i: int| 0 <= i < order.len() ==> order[i] < length
}

/// The freshly built candidate that visits `catalog` in the given order.
pub open spec fn fresh_route(
    catalog: Seq<CityView>,
    order: Seq<usize>,
    scoring: Scoring,
) -> RouteView {
    let cities = arranged(catalog, order);
    RouteView {
        cities,
        distance: tour_distance(cities),
        fitness: scoring.provisional_fitness(tour_distance(cities)),
    }
}

/// Whether `route` is a freshly built candidate that visits the stops of
/// `catalog` in some order, each position once.
pub open spec fn is_fresh(catalog: Seq<CityView>, scoring: Scoring, route: RouteView) -> bool {
    exists|order: Seq<usize>| is_fresh_by(catalog, scoring, order, route)
}

/// Whether `route` is the freshly built candidate that visits the stops of
/// `catalog` in the given order, which lists each position once.
pub open spec fn is_fresh_by(
    catalog: Seq<CityView>,
    scoring: Scoring,
    order: Seq<usize>,
    route: RouteView,
) -> bool {
    &&& is_selection(order, catalog.len(), catalog.len())
    &&& route == fresh_route(catalog, order, scoring)
}

/// The stops with those at positions `i` and `j` exchanged.
pub open spec fn swapped(cities: Seq<CityView>, i: int, j: int) -> Seq<CityView> {
    cities.update(i, cities[j]).update(j, cities[i])
}

/// The stops after the exchanges of `pairs`, made one after another.
pub open spec fn swapped_all(cities: Seq<CityView>, pairs: Seq<(usize, usize)>) -> Seq<CityView>
    decreases pairs.len(),
{
    if pairs.len() == 0 {
        cities
    } else {
        swapped(
            swapped_all(cities, pairs.drop_last()),
            pairs.last().0 as int,
            pairs.last().1 as int,
        )
    }
}

/// Whether both positions of every pair lie below `length`.
pub open spec fn pairs_within(pairs: Seq<(usize, usize)>, length: nat) -> bool {
    forall|k: int| 0 <= k < pairs.len() ==> (#[trigger] pairs[k]).0 < length && pairs[k].1 < length
}

/// The stops of a child: the first half of `first`, then what `second` has
/// from the midpoint on.
pub open spec fn spliced(first: Seq<CityView>, second: Seq<CityView>) -> Seq<CityView> {
    let middle = first.len() as int / 2;
    first.take(middle) + second.skip(middle)
}

/// The child of two candidates. Its length and fitness are placeholders
/// until it is scored.
pub open spec fn child_of(first: RouteView, second: RouteView) -> RouteView {
    RouteView { cities: spliced(first.cities, second.cities), distance: 0, fitness: 0 }
}

/// One line of a rendered tour: name and region of a stop.
pub open spec fn line_of(city: CityView) -> Seq<char> {
    city.name + ","@ + city.region
}

/// The lines of the stops in tour order, with a line break between each
/// two.
pub open spec fn lines_of(cities: Seq<CityView>) -> Seq<char>
    decreases cities.len(),
{
    if cities.len() == 0 {
        Seq::empty()
    } else if cities.len() == 1 {
        line_of(cities[0])
    } else {
        lines_of(cities.drop_last()) + "\n"@ + line_of(cities.last())
    }
}

/// A candidate as text: the stops, one per line, and then the cached
/// length of the tour.
pub open spec fn rendered(route: RouteView) -> Seq<char> {
    "Cities: "@ + lines_of(route.cities) + "\nDistance: "@ + decimal(route.distance)
}

/// `<[T]>::swap` exchanges the elements at two positions of a slice and
/// leaves the others where they are. It panics when a position is out of
/// bounds.
pub assume_specification<T>[ <[T]>::swap ](slice: &mut [T], a: usize, b: usize)
    requires
        a < old(slice)@.len(),
        b < old(slice)@.len(),
    ensures
        final(slice)@ == old(slice)@.update(a as int, old(slice)@[b as int]).update(
            b as int,
            old(slice)@[a as int],
        ),
;

/// Copies a list of cities.
fn copy_cities(cities: &Vec<City>) -> (copy: Vec<City>)
    ensures
        copy.deep_view() == cities.deep_view(),
{
    let mut copy: Vec<City> = Vec::new();
    let mut i: usize = 0;
    while i < cities.len()
        invariant
            i <= cities.len(),
            copy.len() == i,
            forall|k: int| 0 <= k < i ==> copy[k]@ == cities[k]@,
        decreases cities.len() - i,
    {
        copy.push(cities[i].clone());
        i += 1;
    }
    copy
}

impl Clone for Route {
    fn clone(&self) -> (copy: Self)
        ensures
            copy@ == self@,
    {
        Route { cities: copy_cities(&self.cities), distance: self.distance, fitness: self.fitness }
    }
}

impl Default for Route {
    /// The placeholder that stands for "no candidate yet".
    fn default() -> (route: Self)
        ensures
            route@ == Route::default_view(),
    {
        let route = Route { cities: Vec::new(), distance: u128::MAX, fitness: i128::MIN };
        assert(route.cities.deep_view() =~= Seq::<CityView>::empty());
        route
    }
}

impl Route {
    /// The value of the placeholder: no stops, the greatest length and the
    /// lowest fitness there is, which is below that of every scored
    /// candidate, a degenerate one too.
    pub open spec fn default_view() -> RouteView {
        RouteView { cities: Seq::empty(), distance: u128::MAX as nat, fitness: i128::MIN as int }
    }

    /// A candidate that visits the cities of `cities`, of which there is at
    /// least one, in a random order, each as often as it stands there.
    pub fn new(cities: &Vec<City>, scoring: &Scoring) -> (route: Self)
        requires
            0 < cities.len() <= MAX_FULL_SAMPLE,
        ensures
            is_fresh(cities.deep_view(), *scoring, route@),
    {
        let order = sample_indices(cities.len(), cities.len());
        let route = Route::from_order(cities, &order, scoring);
        assert(is_fresh_by(cities.deep_view(), *scoring, order@, route@));
        route
    }

    /// The candidate that visits the cities of `catalog` in the order that
    /// `order` gives by position.
    pub fn from_order(catalog: &Vec<City>, order: &Vec<usize>, scoring: &Scoring) -> (route: Self)
        requires
            forall|i: int| 0 <= i < order.len() ==> order[i] < catalog.len(),
        ensures
            route@ == fresh_route(catalog.deep_view(), order@, *scoring),
    {
        let mut cities: Vec<City> = Vec::new();
        let mut i: usize = 0;
        while i < order.len()
            invariant
                i <= order.len(),
                cities.len() == i,
                forall|k: int| 0 <= k < order.len() ==> order[k] < catalog.len(),
                forall|k: int| 0 <= k < i ==> cities[k]@ == catalog[order[k] as int]@,
            decreases order.len() - i,
        {
            cities.push(catalog[order[i]].clone());
            i += 1;
        }
        assert(cities.deep_view() =~= arranged(catalog.deep_view(), order@));
        let distance = cities.distance();
        let fitness = scoring.provisional(distance);
        Route { cities, distance, fitness }
    }

    /// Exchanges the stops at the two positions of each pair, pair by pair.
    /// Length and fitness are left as they were.
    pub fn apply_swaps(&mut self, pairs: &Vec<(usize, usize)>)
        requires
            pairs_within(pairs@, old(self).cities.len() as nat),
        ensures
            final(self)@.cities == swapped_all(old(self)@.cities, pairs@),
            final(self)@.cities.len() == old(self)@.cities.len(),
            final(self)@.distance == old(self)@.distance,
            final(self)@.fitness == old(self)@.fitness,
    {
        let mut k: usize = 0;
        while k < pairs.len()
            invariant
                k <= pairs.len(),
                self.cities.len() == old(self).cities.len(),
                pairs_within(pairs@, self.cities.len() as nat),
                self@.cities == swapped_all(old(self)@.cities, pairs@.take(k as int)),
                self.distance == old(self).distance,
                self.fitness == old(self).fitness,
            decreases pairs.len() - k,
        {
            let (i, j) = pairs[k];
            self.cities.swap(i, j);
            assert(pairs@.take(k as int + 1).drop_last() =~= pairs@.take(k as int));
            k += 1;
        }
        assert(pairs@.take(k as int) =~= pairs@);
    }

    /// The child that starts like `self` and ends like `other`, cut at the
    /// midpoint.
    pub fn crossover(&self, other: &Route) -> (child: Route)
        requires
            self.cities.len() == other.cities.len(),
        ensures
            child@ == child_of(self@, other@),
    {
        let size = self.cities.len();
        let middle = size / 2;
        let mut cities: Vec<City> = Vec::new();
        let mut i: usize = 0;
        while i < middle
            invariant
                i <= middle <= size,
                size == self.cities.len(),
                cities.len() == i,
                forall|k: int| 0 <= k < i ==> cities[k]@ == self.cities[k]@,
            decreases middle - i,
        {
            cities.push(self.cities[i].clone());
            i += 1;
        }
        while i < size
            invariant
                middle <= i <= size,
                size == self.cities.len(),
                size == other.cities.len(),
                cities.len() == i,
                forall|k: int| 0 <= k < middle ==> cities[k]@ == self.cities[k]@,
                forall|k: int| middle <= k < i ==> cities[k]@ == other.cities[k]@,
            decreases size - i,
        {
            cities.push(other.cities[i].clone());
            i += 1;
        }
        assert(cities.deep_view() =~= spliced(self@.cities, other@.cities));
        Route { cities, distance: 0, fitness: 0 }
    }

    /// The candidate as text: `Cities: `, the stops as `name,region` with
    /// one per line, and a last line `Distance: ` with the cached length.
    pub fn to_string(&self) -> (text: String)
        ensures
            text@ == rendered(self@),
    {
        let mut text = "Cities: ".to_owned();
        let ghost stops = self@.cities;
        let mut i: usize = 0;
        while i < self.cities.len()
            invariant
                i <= self.cities.len(),
                stops == self@.cities,
                text@ == "Cities: "@ + lines_of(stops.take(i as int)),
            decreases self.cities.len() - i,
        {
            if i > 0 {
                text.append("\n");
            }
            text.append(self.cities[i].name.as_str());
            text.append(",");
            text.append(self.cities[i].region.as_str());
            proof {
                let now = stops.take(i as int + 1);
                assert(now.drop_last() =~= stops.take(i as int));
            }
            i += 1;
        }
        assert(stops.take(i as int) =~= stops);
        text.append("\nDistance: ");
        push_decimal(&mut text, self.distance);
        text
    }

    /// The length of the tour as its stops stand now.
    pub fn distance(&self) -> (d: u128)
        ensures
            d == tour_distance(self@.cities),
    {
        self.cities.distance()
    }

    /// Computes length and fitness afresh from the stops.
    pub fn score(&mut self, scoring: &Scoring)
        requires
            scoring.wf(),
        ensures
            final(self)@ == old(self)@.rescored(*scoring),
    {
        let first_prize = scoring.end_prize(city_name(self.cities.first()));
        let last_prize = scoring.end_prize(city_name(self.cities.last()));
        let unique_cities = self.cities.uniqueness_count();
        let all_cities = self.cities.len();
        let uniqueness_prize = scoring.unique_prize(unique_cities, all_cities);
        let new_distance = self.distance();
        self.distance = new_distance;
        self.fitness = if new_distance < scoring.min_distance {
            DEGENERATE_FITNESS
        } else {
            scoring.calculate_fitness(new_distance, first_prize, last_prize, uniqueness_prize)
        };
    }
}

/// The name of a city, if there is one.
fn city_name(city: Option<&City>) -> (name: Option<&String>)
    ensures
        name is Some == city is Some,
        city is Some ==> name->0@ == city->0@.name,
{
    match city {
        Some(c) => Some(&c.name),
        None => None,
    }
}

/// Every scored candidate is fitter than the placeholder, a degenerate one
/// too, so that the first candidate that a search takes in becomes its
/// best.
pub proof fn lemma_scored_beats_placeholder(scoring: Scoring, route: RouteView)
    requires
        scoring.wf(),
        route.scored(scoring),
    ensures
        route.fitness > Route::default_view().fitness,
        route.fitness >= DEGENERATE_FITNESS,
{
    let distance = tour_distance(route.cities);
    if distance >= scoring.min_distance {
        vstd::arithmetic::div_mod::lemma_div_pos_is_pos(
            scoring.distance_reward as int,
            distance as int,
        );
    }
}

/// A selection of as many positions as there are lists every position.
pub proof fn lemma_full_selection_covers(order: Seq<usize>, length: nat, wanted: int)
    requires
        is_selection(order, length, length),
        0 <= wanted < length,
    ensures
        exists|p: int| 0 <= p < order.len() && #[trigger] order[p] == wanted,
{
    let listed = order.map_values(|x: usize| x as int);
    assert(listed.no_duplicates()) by {
        assert forall|i: int, j: int| 0 <= i < listed.len() && 0 <= j < listed.len() && i
            != j implies listed[i] != listed[j] by {
            assert(order[i] != order[j]);
        }
    }
    listed.unique_seq_to_set();
    vstd::seq_lib::seq_to_set_is_finite(listed);
    vstd::set_lib::lemma_int_range(0, length as int);
    let all = vstd::set_lib::set_int_range(0, length as int);
    assert(listed.to_set().subset_of(all)) by {
        assert forall|x: int| listed.to_set().contains(x) implies all.contains(x) by {
            let i = choose|i: int| 0 <= i < listed.len() && listed[i] == x;
            assert(order[i] < length);
        }
    }
    vstd::set_lib::lemma_subset_equality(listed.to_set(), all);
    assert(listed.to_set().contains(wanted));
    let p = choose|p: int| 0 <= p < listed.len() && listed[p] == wanted;
    assert(order[p] == wanted);
}

/// Arranging rearranges: the stops taken in an order that lists every
/// position once are the stops of the catalog, each as often as there.
pub proof fn lemma_arranged_permutes(catalog: Seq<CityView>, order: Seq<usize>)
    requires
        is_selection(order, catalog.len(), catalog.len()),
    ensures
        arranged(catalog, order).len() == catalog.len(),
        arranged(catalog, order).to_multiset() == catalog.to_multiset(),
    decreases catalog.len(),
{
    let tour = arranged(catalog, order);
    if catalog.len() == 0 {
        assert(tour =~= catalog);
    } else {
        // take the last stop of the catalog out of both
        let last = catalog.len() - 1;
        lemma_full_selection_covers(order, catalog.len(), last);
        let p = choose|p: int| 0 <= p < order.len() && #[trigger] order[p] == last;
        let shorter = catalog.drop_last();
        let rest = order.remove(p);
        assert forall|i: int| 0 <= i < rest.len() implies rest[i] < shorter.len() by {
            assert(rest[i] != order[p]);
        }
        assert(is_selection(rest, shorter.len(), shorter.len()));
        lemma_arranged_permutes(shorter, rest);
        assert(arranged(shorter, rest) =~= tour.remove(p));
        // and put it back
        vstd::seq_lib::to_multiset_remove(tour, p);
        vstd::seq_lib::to_multiset_build(shorter, catalog.last());
        assert(shorter.push(catalog.last()) =~= catalog);
        tour.to_multiset_ensures();
        assert(tour.to_multiset().count(tour[p]) > 0);
        assert(tour.to_multiset() =~= tour.to_multiset().remove(tour[p]).insert(tour[p]));
    }
}

/// A fresh candidate has the stops of the catalog, each as often as there.
pub proof fn lemma_fresh_route_permutes(catalog: Seq<CityView>, scoring: Scoring, route: RouteView)
    requires
        is_fresh(catalog, scoring, route),
    ensures
        route.cities.len() == catalog.len(),
        route.cities.to_multiset() == catalog.to_multiset(),
{
    let order = choose|order: Seq<usize>| is_fresh_by(catalog, scoring, order, route);
    lemma_arranged_permutes(catalog, order);
}

/// Swaps only reorder: the stops after any number of swaps are the stops
/// from before, each as often as before.
pub proof fn lemma_swaps_permute(cities: Seq<CityView>, pairs: Seq<(usize, usize)>)
    requires
        pairs_within(pairs, cities.len()),
    ensures
        swapped_all(cities, pairs).len() == cities.len(),
        swapped_all(cities, pairs).to_multiset() == cities.to_multiset(),
    decreases pairs.len(),
{
    if pairs.len() > 0 {
        let earlier = pairs.drop_last();
        assert forall|k: int| 0 <= k < earlier.len() implies (#[trigger] earlier[k]).0
            < cities.len() && earlier[k].1 < cities.len() by {
            assert(earlier[k] == pairs[k]);
        }
        lemma_swaps_permute(cities, earlier);
        // the last swap is two updates, each of which puts a stop where
        // another one was
        let before = swapped_all(cities, earlier);
        let i = pairs.last().0 as int;
        let j = pairs.last().1 as int;
        let half = before.update(i, before[j]);
        vstd::seq_lib::to_multiset_update(before, i, before[j]);
        vstd::seq_lib::to_multiset_update(half, j, before[i]);
        before.to_multiset_ensures();
        assert(swapped(before, i, j).to_multiset() =~= before.to_multiset());
    }
}

} // verus!
