//! A generation of candidates and the genetic operators on it.

use vstd::prelude::*;
use crate::city::{City, CityView};
use crate::parallel::fittest;
use crate::random::{random_below, sample_indices, MAX_FULL_SAMPLE};
use crate::route::{
    child_of, is_fresh, is_selection, lemma_swaps_permute, pairs_within, swapped_all, Route,
    RouteView,
};
use crate::scoring::{Scoring, PASS_THROUGH_SCALE};

verus! {

/// The candidates of one generation, in the order in which the operators
/// walk them.
pub struct Population {
    pub routes: Vec<Route>,
}

impl View for Population {
    type V = Seq<RouteView>;

    open spec fn view(&self) -> Seq<RouteView> {
        self.routes.deep_view()
    }
}

/// Whether there is at least one candidate and every candidate has the same
/// number of stops, which is not zero.
pub open spec fn uniform(routes: Seq<RouteView>) -> bool {
    &&& routes.len() > 0
    &&& routes[0].cities.len() > 0
    &&& forall|k: int|
        0 <= k < routes.len() ==> (#[trigger] routes[k]).cities.len() == routes[0].cities.len()
}

/// Whether the candidates can be bred from: they are uniform, and there are
/// at most [`MAX_FULL_SAMPLE`] of them, so that a tournament can be drawn
/// from all of them.
pub open spec fn breedable(routes: Seq<RouteView>) -> bool {
    &&& uniform(routes)
    &&& routes.len() <= MAX_FULL_SAMPLE
}

/// Whether `best` is one of `routes` and none of them is fitter.
pub open spec fn is_best(routes: Seq<RouteView>, best: RouteView) -> bool {
    &&& routes.contains(best)
    &&& forall|j: int| 0 <= j < routes.len() ==> (#[trigger] routes[j]).fitness <= best.fitness
}

/// The fitness of the candidate that `sample` lists at position `q`.
pub open spec fn listed_fitness(routes: Seq<RouteView>, sample: Seq<usize>, q: int) -> int {
    routes[sample[q] as int].fitness
}

/// Whether the candidate that `sample` lists at position `p` wins the
/// tournament among the listed candidates: none of them is fitter, and
/// those listed before it are less fit.
pub open spec fn wins(routes: Seq<RouteView>, sample: Seq<usize>, p: int) -> bool {
    &&& 0 <= p < sample.len()
    &&& forall|q: int|
        0 <= q < sample.len() ==> listed_fitness(routes, sample, q) <= listed_fitness(
            routes,
            sample,
            p,
        )
    &&& forall|q: int|
        0 <= q < p ==> listed_fitness(routes, sample, q) < listed_fitness(routes, sample, p)
}

/// The number of candidates that one tournament draws from `size`
/// candidates.
pub open spec fn tournament_amount(scoring: Scoring, size: nat) -> nat {
    if scoring.tournament_size as nat <= size {
        scoring.tournament_size as nat
    } else {
        size
    }
}

/// Whether `parent` comes out of the tournament over `routes` for which
/// `sample` is drawn: `sample` lists as many different candidates as a
/// tournament has, and `parent` is the one at position `p`, which wins.
pub open spec fn picked_from(
    routes: Seq<RouteView>,
    scoring: Scoring,
    sample: Seq<usize>,
    p: int,
    parent: RouteView,
) -> bool {
    &&& is_selection(sample, routes.len(), tournament_amount(scoring, routes.len()))
    &&& wins(routes, sample, p)
    &&& parent == routes[sample[p] as int]
}

/// Whether `parent` can come out of one tournament over `routes`.
pub open spec fn tournament_pick(
    routes: Seq<RouteView>,
    scoring: Scoring,
    parent: RouteView,
) -> bool {
    exists|sample: Seq<usize>, p: int| picked_from(routes, scoring, sample, p, parent)
}

/// What becomes of a selected parent: it is carried over as it is when the
/// draw falls below the pass-through chance, and crossed with the second
/// parent otherwise.
pub open spec fn offspring(
    first: RouteView,
    second: RouteView,
    draw: int,
    scoring: Scoring,
) -> RouteView {
    if scoring.carried_over(draw) {
        first
    } else {
        child_of(first, second)
    }
}

/// Whether `member` can be bred from `routes`: two parents come out of
/// tournaments, and a draw decides between carrying over and crossing.
pub open spec fn bred(routes: Seq<RouteView>, scoring: Scoring, member: RouteView) -> bool {
    exists|first: RouteView, second: RouteView, draw: int|
        bred_from(routes, scoring, first, second, draw, member)
}

/// Whether `member` is bred from `routes` with the given parents and draw.
pub open spec fn bred_from(
    routes: Seq<RouteView>,
    scoring: Scoring,
    first: RouteView,
    second: RouteView,
    draw: int,
    member: RouteView,
) -> bool {
    &&& tournament_pick(routes, scoring, first)
    &&& tournament_pick(routes, scoring, second)
    &&& 0 <= draw < PASS_THROUGH_SCALE
    &&& member == offspring(first, second, draw, scoring)
}

/// Whether `after` can be what mutation makes of `before`: a candidate
/// above the threshold has the configured number of swaps applied, any
/// other keeps its stops as they are; the cached numbers stay in both cases.
pub open spec fn mutated(before: RouteView, after: RouteView, scoring: Scoring) -> bool {
    &&& after.distance == before.distance
    &&& after.fitness == before.fitness
    &&& if before.fitness > scoring.mutation_threshold {
        exists|pairs: Seq<(usize, usize)>| swapped_by(before, after, scoring, pairs)
    } else {
        after.cities == before.cities
    }
}

/// Whether the stops of `after` are those of `before` after the swaps of
/// `pairs`, which are as many as a mutation makes.
pub open spec fn swapped_by(
    before: RouteView,
    after: RouteView,
    scoring: Scoring,
    pairs: Seq<(usize, usize)>,
) -> bool {
    &&& pairs.len() == scoring.swaps
    &&& pairs_within(pairs, before.cities.len())
    &&& after.cities == swapped_all(before.cities, pairs)
}

/// Whether `after` can be what crossover makes of `before`: as many
/// candidates, the first of them a fittest one of `before`, and every other
/// one bred from `before`.
pub open spec fn crossed(before: Seq<RouteView>, after: Seq<RouteView>, scoring: Scoring) -> bool {
    &&& after.len() == before.len()
    &&& is_best(before, after[0])
    &&& forall|k: int| 1 <= k < after.len() ==> bred(before, scoring, #[trigger] after[k])
}

/// Whether `after` can be what mutation makes of `before`, candidate by
/// candidate.
pub open spec fn mutated_all(
    before: Seq<RouteView>,
    after: Seq<RouteView>,
    scoring: Scoring,
) -> bool {
    &&& after.len() == before.len()
    &&& forall|k: int| 0 <= k < after.len() ==> mutated(before[k], #[trigger] after[k], scoring)
}

/// The candidates with their numbers computed afresh.
pub open spec fn rescored_all(routes: Seq<RouteView>, scoring: Scoring) -> Seq<RouteView> {
    routes.map_values(|route: RouteView| route.rescored(scoring))
}

/// Whether `after` can be the generation that follows `before`: crossover,
/// then scoring, then mutation, then scoring again.
pub open spec fn succeeds(before: Seq<RouteView>, after: Seq<RouteView>, scoring: Scoring) -> bool {
    exists|children: Seq<RouteView>, shuffled: Seq<RouteView>|
        succeeds_by(before, children, shuffled, after, scoring)
}

/// Whether `after` follows `before` by way of `children`, the outcome of
/// crossover, and `shuffled`, the outcome of mutation.
pub open spec fn succeeds_by(
    before: Seq<RouteView>,
    children: Seq<RouteView>,
    shuffled: Seq<RouteView>,
    after: Seq<RouteView>,
    scoring: Scoring,
) -> bool {
    &&& crossed(before, children, scoring)
    &&& mutated_all(rescored_all(children, scoring), shuffled, scoring)
    &&& after == rescored_all(shuffled, scoring)
}

/// The genetic operators on a generation of candidates.
pub trait Evolution: Sized + View<V = Seq<RouteView>> {
    /// Mutation: every candidate whose fitness is above the threshold has
    /// its stops rearranged by random swaps. No stop is added or lost.
    fn mutate(self, scoring: &Scoring) -> (next: Self)
        requires
            uniform(self@),
        ensures
            mutated_all(self@, next@, *scoring),
            forall|k: int|
                0 <= k < self@.len() ==> (#[trigger] next@[k]).cities.to_multiset()
                    == self@[k].cities.to_multiset(),
    ;

    /// Scores every candidate of a population that is not empty afresh.
    fn recalculate_fitness(self, scoring: &Scoring) -> (next: Self)
        requires
            self@.len() > 0,
            scoring.wf(),
        ensures
            next@ == rescored_all(self@, *scoring),
    ;

    /// Crossover: the next generation, of the same size. Its first member
    /// is a copy of the fittest candidate; every other member is bred from
    /// tournament winners.
    fn crossing_over(self, scoring: &Scoring) -> (next: Self)
        requires
            breedable(self@),
            scoring.wf(),
        ensures
            crossed(self@, next@, *scoring),
    ;

    /// The candidate of greatest fitness. Among several of the same
    /// greatest fitness any one may be returned.
    fn get_best(&self) -> (best: Route)
        requires
            self@.len() > 0,
        ensures
            is_best(self@, best@),
    ;

    /// Tournament selection: draws candidates at random, each at most
    /// once, and returns a copy of the winner among them.
    fn choose_parent(&self, scoring: &Scoring) -> (parent: Route)
        requires
            0 < self@.len() <= MAX_FULL_SAMPLE,
            scoring.wf(),
        ensures
            tournament_pick(self@, *scoring, parent@),
    ;
}

impl Evolution for Population {
    fn mutate(self, scoring: &Scoring) -> (next: Self) {
        let mut routes = self.routes;
        let size = routes[0].cities.len();
        let mut k: usize = 0;
        while k < routes.len()
            invariant
                k <= routes.len(),
                routes.len() == self.routes.len(),
                size > 0,
                forall|m: int| 0 <= m < routes.len() ==> (#[trigger] self@[m]).cities.len() == size,
                forall|m: int| 0 <= m < k ==> mutated(self@[m], #[trigger] routes[m]@, *scoring),
                forall|m: int| k <= m < routes.len() ==> routes[m]@ == self@[m],
            decreases routes.len() - k,
        {
            if routes[k].fitness > scoring.mutation_threshold {
                let pairs = random_swaps(size, scoring.swaps);
                assert(routes[k as int]@ == self@[k as int]);
                routes[k].apply_swaps(&pairs);
                assert(swapped_by(self@[k as int], routes[k as int]@, *scoring, pairs@));
            }
            k += 1;
        }
        proof {
            let after = routes.deep_view();
            assert forall|m: int| 0 <= m < after.len() implies (#[trigger] after[m]).cities
                .to_multiset() == self@[m].cities.to_multiset() by {
                lemma_mutation_permutes(self@[m], after[m], *scoring);
            }
        }
        Population { routes }
    }

    fn recalculate_fitness(self, scoring: &Scoring) -> (next: Self) {
        let mut routes = self.routes;
        let mut k: usize = 0;
        while k < routes.len()
            invariant
                k <= routes.len(),
                routes.len() == self.routes.len(),
                scoring.wf(),
                forall|m: int| 0 <= m < k ==> routes[m]@ == self.routes[m]@.rescored(*scoring),
                forall|m: int| k <= m < routes.len() ==> routes[m]@ == self.routes[m]@,
            decreases routes.len() - k,
        {
            routes[k].score(scoring);
            k += 1;
        }
        Population { routes }
    }

    fn crossing_over(self, scoring: &Scoring) -> (next: Self) {
        let mut routes: Vec<Route> = Vec::new();
        routes.push(self.get_best());
        let mut k: usize = 1;
        while k < self.routes.len()
            invariant
                1 <= k <= self.routes.len(),
                routes.len() == k,
                breedable(self@),
                scoring.wf(),
                is_best(self@, routes[0]@),
                forall|m: int| 1 <= m < k ==> bred(self@, *scoring, #[trigger] routes[m]@),
            decreases self.routes.len() - k,
        {
            let first = self.choose_parent(scoring);
            proof {
                lemma_pick_is_member(self@, *scoring, first@);
            }
            let draw = random_below(PASS_THROUGH_SCALE as usize);
            let member = if scoring.carries_over(draw) {
                proof {
                    assert(bred_from(self@, *scoring, first@, first@, draw as int, first@));
                }
                first
            } else {
                let second = self.choose_parent(scoring);
                proof {
                    lemma_pick_is_member(self@, *scoring, second@);
                }
                let child = first.crossover(&second);
                proof {
                    assert(bred_from(self@, *scoring, first@, second@, draw as int, child@));
                }
                child
            };
            routes.push(member);
            k += 1;
        }
        Population { routes }
    }

    fn get_best(&self) -> (best: Route) {
        let found = fittest(&self.routes);
        let leader = found.unwrap();
        proof {
            let i = choose|i: int|
                0 <= i < self.routes.len() && #[trigger] self.routes[i] == *leader;
            assert(self@[i] == leader@);
        }
        leader.clone()
    }

    fn choose_parent(&self, scoring: &Scoring) -> (parent: Route) {
        let size = self.routes.len();
        let amount = if scoring.tournament_size <= size {
            scoring.tournament_size
        } else {
            size
        };
        let sample = sample_indices(size, amount);
        let winner = self.tournament_winner(&sample);
        let parent = self.routes[winner].clone();
        proof {
            let p = choose|p: int| #[trigger] wins(self@, sample@, p) && winner == sample[p];
            assert(picked_from(self@, *scoring, sample@, p, parent@));
        }
        parent
    }
}

impl Population {
    /// Whether the population can be bred from: see [`breedable`].
    pub fn is_breedable(&self) -> (ok: bool)
        ensures
            ok == breedable(self@),
    {
        self.routes.len() <= MAX_FULL_SAMPLE && self.is_uniform()
    }

    /// Whether the population can be mutated: see [`uniform`].
    pub fn is_uniform(&self) -> (ok: bool)
        ensures
            ok == uniform(self@),
    {
        if self.routes.len() == 0 {
            return false;
        }
        let stops = self.routes[0].cities.len();
        if stops == 0 {
            return false;
        }
        let mut k: usize = 1;
        while k < self.routes.len()
            invariant
                1 <= k <= self.routes.len(),
                stops == self.routes[0].cities.len(),
                forall|m: int| 0 <= m < k ==> (#[trigger] self@[m]).cities.len() == stops,
            decreases self.routes.len() - k,
        {
            if self.routes[k].cities.len() != stops {
                assert(self@[k as int].cities.len() != self@[0].cities.len());
                return false;
            }
            k += 1;
        }
        true
    }

    /// A first generation of `size` candidates, each a random arrangement
    /// of the stops of `catalog`, which is not empty.
    pub fn new(catalog: &Vec<City>, size: usize, scoring: &Scoring) -> (first: Self)
        requires
            0 < catalog.len() <= MAX_FULL_SAMPLE,
        ensures
            first@.len() == size,
            forall|k: int|
                0 <= k < size ==> is_fresh(catalog.deep_view(), *scoring, #[trigger] first@[k]),
    {
        let mut routes: Vec<Route> = Vec::new();
        let mut k: usize = 0;
        while k < size
            invariant
                k <= size,
                routes.len() == k,
                0 < catalog.len() <= MAX_FULL_SAMPLE,
                forall|m: int|
                    0 <= m < k ==> is_fresh(catalog.deep_view(), *scoring, #[trigger] routes[m]@),
            decreases size - k,
        {
            routes.push(Route::new(catalog, scoring));
            k += 1;
        }
        Population { routes }
    }

    /// The position in the population of the winner of a tournament among
    /// the candidates at the positions that `sample` lists.
    pub fn tournament_winner(&self, sample: &Vec<usize>) -> (winner: usize)
        requires
            sample.len() > 0,
            forall|q: int| 0 <= q < sample.len() ==> sample[q] < self@.len(),
        ensures
            exists|p: int| #[trigger] wins(self@, sample@, p) && winner == sample[p],
            winner < self@.len(),
    {
        let mut lead: usize = 0;
        let mut q: usize = 1;
        while q < sample.len()
            invariant
                lead < q <= sample.len(),
                forall|r: int| 0 <= r < sample.len() ==> sample[r] < self@.len(),
                forall|r: int|
                    0 <= r < q ==> listed_fitness(self@, sample@, r) <= listed_fitness(
                        self@,
                        sample@,
                        lead as int,
                    ),
                forall|r: int|
                    0 <= r < lead ==> listed_fitness(self@, sample@, r) < listed_fitness(
                        self@,
                        sample@,
                        lead as int,
                    ),
            decreases sample.len() - q,
        {
            if self.routes[sample[q]].fitness > self.routes[sample[lead]].fitness {
                lead = q;
            }
            q += 1;
        }
        assert(wins(self@, sample@, lead as int));
        sample[lead]
    }

    /// The generation that follows this one. The operators are applied in
    /// this order: crossover, scoring, mutation, and scoring again. So the
    /// tournaments of the next crossover go by the fitness of the stops as
    /// mutation left them, and every candidate of the outcome carries the
    /// numbers of its own stops.
    pub fn next_generation(self, scoring: &Scoring) -> (next: Self)
        requires
            breedable(self@),
            scoring.wf(),
        ensures
            succeeds(self@, next@, *scoring),
    {
        let children = self.crossing_over(scoring);
        let scored = children.recalculate_fitness(scoring);
        proof {
            lemma_crossed_uniform(self@, children@, *scoring);
            lemma_rescored_uniform(children@, *scoring);
        }
        let shuffled = scored.mutate(scoring);
        let next = shuffled.recalculate_fitness(scoring);
        assert(succeeds_by(self@, children@, shuffled@, next@, *scoring));
        next
    }
}

/// Draws the positions for `count` swaps in a tour of `length` stops. The
/// two positions of a pair are drawn independently and may be the same.
pub fn random_swaps(length: usize, count: usize) -> (pairs: Vec<(usize, usize)>)
    requires
        length > 0,
    ensures
        pairs@.len() == count,
        pairs_within(pairs@, length as nat),
{
    let mut pairs: Vec<(usize, usize)> = Vec::new();
    let mut k: usize = 0;
    while k < count
        invariant
            k <= count,
            length > 0,
            pairs@.len() == k,
            pairs_within(pairs@, length as nat),
        decreases count - k,
    {
        let i = random_below(length);
        let j = random_below(length);
        pairs.push((i, j));
        k += 1;
    }
    pairs
}

/// A candidate that is fitter than every other wins every tournament whose
/// sample lists it.
pub proof fn lemma_fittest_wins(routes: Seq<RouteView>, sample: Seq<usize>, p: int, champion: int)
    requires
        0 <= champion < routes.len(),
        forall|j: int|
            0 <= j < routes.len() && j != champion ==> (#[trigger] routes[j]).fitness
                < routes[champion].fitness,
        forall|q: int| 0 <= q < sample.len() ==> (#[trigger] sample[q]) < routes.len(),
        exists|q: int| 0 <= q < sample.len() && #[trigger] sample[q] == champion,
        wins(routes, sample, p),
    ensures
        sample[p] == champion,
{
    let q = choose|q: int| 0 <= q < sample.len() && #[trigger] sample[q] == champion;
    assert(listed_fitness(routes, sample, q) <= listed_fitness(routes, sample, p));
}

/// A population of fresh candidates over a catalog that is not empty is
/// uniform: every candidate has as many stops as the catalog.
pub proof fn lemma_fresh_population_uniform(
    routes: Seq<RouteView>,
    catalog: Seq<CityView>,
    scoring: Scoring,
)
    requires
        routes.len() > 0,
        catalog.len() > 0,
        forall|k: int| 0 <= k < routes.len() ==> is_fresh(catalog, scoring, #[trigger] routes[k]),
    ensures
        uniform(routes),
        routes[0].cities.len() == catalog.len(),
{
    assert forall|k: int| 0 <= k < routes.len() implies (#[trigger] routes[k]).cities.len()
        == catalog.len() by {
        assert(is_fresh(catalog, scoring, routes[k]));
    }
}

/// Mutation only reorders: a mutated candidate has the stops that it had
/// before, each as often as before.
pub proof fn lemma_mutation_permutes(before: RouteView, after: RouteView, scoring: Scoring)
    requires
        mutated(before, after, scoring),
    ensures
        after.cities.len() == before.cities.len(),
        after.cities.to_multiset() == before.cities.to_multiset(),
{
    if before.fitness > scoring.mutation_threshold {
        let pairs = choose|pairs: Seq<(usize, usize)>| swapped_by(before, after, scoring, pairs);
        lemma_swaps_permute(before.cities, pairs);
    }
}

/// A candidate bred from a uniform population has as many stops as its
/// members.
pub proof fn lemma_bred_keeps_length(routes: Seq<RouteView>, scoring: Scoring, member: RouteView)
    requires
        uniform(routes),
        bred(routes, scoring, member),
    ensures
        member.cities.len() == routes[0].cities.len(),
{
    let (first, second, draw) = choose|first: RouteView, second: RouteView, draw: int|
        bred_from(routes, scoring, first, second, draw, member);
    lemma_pick_is_member(routes, scoring, first);
    lemma_pick_is_member(routes, scoring, second);
}

/// The winner of a tournament is one of the candidates.
pub proof fn lemma_pick_is_member(routes: Seq<RouteView>, scoring: Scoring, parent: RouteView)
    requires
        tournament_pick(routes, scoring, parent),
    ensures
        routes.contains(parent),
{
    let (sample, p) = choose|sample: Seq<usize>, p: int|
        picked_from(routes, scoring, sample, p, parent);
}

/// Crossover keeps a population uniform, with the same number of stops.
pub proof fn lemma_crossed_uniform(before: Seq<RouteView>, after: Seq<RouteView>, scoring: Scoring)
    requires
        uniform(before),
        crossed(before, after, scoring),
    ensures
        uniform(after),
        after[0].cities.len() == before[0].cities.len(),
{
    assert forall|k: int| 0 <= k < after.len() implies (#[trigger] after[k]).cities.len()
        == before[0].cities.len() by {
        if k > 0 {
            lemma_bred_keeps_length(before, scoring, after[k]);
        }
    }
}

/// Scoring keeps a population uniform, with the same number of stops.
pub proof fn lemma_rescored_uniform(before: Seq<RouteView>, scoring: Scoring)
    requires
        uniform(before),
    ensures
        uniform(rescored_all(before, scoring)),
        rescored_all(before, scoring)[0].cities.len() == before[0].cities.len(),
{
    let after = rescored_all(before, scoring);
    assert forall|k: int| 0 <= k < after.len() implies (#[trigger] after[k]).cities.len()
        == after[0].cities.len() by {
        assert(after[k].cities == before[k].cities);
    }
}

/// Mutation keeps a population uniform, with the same number of stops.
pub proof fn lemma_mutated_uniform(before: Seq<RouteView>, after: Seq<RouteView>, scoring: Scoring)
    requires
        uniform(before),
        mutated_all(before, after, scoring),
    ensures
        uniform(after),
        after[0].cities.len() == before[0].cities.len(),
{
    assert forall|k: int| 0 <= k < after.len() implies (#[trigger] after[k]).cities.len()
        == before[0].cities.len() by {
        lemma_mutation_permutes(before[k], after[k], scoring);
    }
}

/// A generation that follows a uniform one is uniform, with the same
/// numbers of candidates and of stops, and every candidate of it is scored.
pub proof fn lemma_succession(before: Seq<RouteView>, after: Seq<RouteView>, scoring: Scoring)
    requires
        uniform(before),
        succeeds(before, after, scoring),
    ensures
        uniform(after),
        after.len() == before.len(),
        after[0].cities.len() == before[0].cities.len(),
        forall|k: int| 0 <= k < after.len() ==> (#[trigger] after[k]).scored(scoring),
{
    let (children, shuffled) = choose|children: Seq<RouteView>, shuffled: Seq<RouteView>|
        succeeds_by(before, children, shuffled, after, scoring);
    lemma_crossed_uniform(before, children, scoring);
    lemma_rescored_uniform(children, scoring);
    lemma_mutated_uniform(rescored_all(children, scoring), shuffled, scoring);
    lemma_rescored_uniform(shuffled, scoring);
}

} // verus!
