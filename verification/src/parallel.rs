//! The two reductions that are fanned out over worker threads.

use vstd::prelude::*;
use std::cmp::Ordering;
use rayon::iter::{IntoParallelRefIterator, ParallelIterator};
use rayon::slice::ParallelSlice;
use crate::city::{City, tour_distance};
use crate::route::Route;

verus! {

/// Orders two candidates by their cached fitness.
pub fn fitness_order(a: &Route, b: &Route) -> (order: Ordering)
    ensures
        order == Ordering::Less <==> a.fitness < b.fitness,
        order == Ordering::Equal <==> a.fitness == b.fitness,
        order == Ordering::Greater <==> a.fitness > b.fitness,
{
    if a.fitness < b.fitness {
        Ordering::Less
    } else if a.fitness > b.fitness {
        Ordering::Greater
    } else {
        Ordering::Equal
    }
}

/// Adds up the lengths of all legs of a tour with rayon: `par_windows(2)`
/// hands out each pair of neighbouring stops, `map` measures the pair, and
/// `sum` adds the measurements. The order in which rayon adds them does not
/// matter for integers, and the precondition keeps the total, and with it
/// every partial sum, inside `u128`.
#[verifier::external_body]
pub(crate) fn sum_of_legs(cities: &Vec<City>) -> (total: u128)
    requires
        tour_distance(cities.deep_view()) <= u128::MAX,
    ensures
        total == tour_distance(cities.deep_view()),
{
    cities.par_windows(2).map(|leg| leg[0].octagonal_distance(&leg[1])).sum()
}

/// Finds a candidate of greatest fitness with rayon's `max_by` over
/// `par_iter`. It returns `None` for an empty list and otherwise one of the
/// items than which the comparison finds none greater; which one of several
/// equally fit candidates comes back is left open here.
#[verifier::external_body]
pub(crate) fn fittest(routes: &Vec<Route>) -> (best: Option<&Route>)
    ensures
        best is Some <==> routes.len() > 0,
        best is Some ==> exists|i: int|
            0 <= i < routes.len() && #[trigger] routes[i] == *best->0,
        best is Some ==> forall|j: int|
            0 <= j < routes.len() ==> (#[trigger] routes[j]).fitness <= best->0.fitness,
{
    routes.par_iter().max_by(|a, b| fitness_order(a, b))
}

} // verus!
