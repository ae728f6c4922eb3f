//! A genetic-algorithm engine for a closed-loop travelling-salesman tour:
//! find an order in which to visit a fixed list of cities, from an anchor
//! city and back to it, that keeps the tour short.
//!
//! * [`city`] holds the cities, the octagonal distance between two of them,
//!   and the length and the number of distinct places of a list of them.
//! * [`scoring`] holds the configuration of the operators and the fitness
//!   formula.
//! * [`route`] holds one candidate tour with its cached length and fitness.
//! * [`population`] holds a generation of candidates and the operators on
//!   it: mutation, tournament selection, crossover and scoring.
//! * [`engine`] holds the generation loop: one step of it, with the best
//!   candidate so far and the detection of stagnation, and a run of bounded
//!   length.
//! * [`random`] and [`parallel`] hold what is drawn at random and what is
//!   reduced on worker threads; [`text`] writes numbers as decimal text.
//!
//! All quantities are integers. Coordinates are fixed-point values in a unit
//! of the caller's choosing, distances come out in twentieths of that unit,
//! and fitness is in the unit in which the configured rewards are expressed.
//! The distance term of the fitness is a quotient that is rounded down, so
//! the distance reward is best given on a scale that leaves room below it.
//!
//! Every function is verified against its contract, with these exceptions,
//! whose contracts are taken on trust: the two draws in [`random`], the two
//! reductions in [`parallel`], and the contract given in [`route`] to the
//! swap of two elements of a slice. The set of texts in which [`city`]
//! counts distinct places is the hash set of the standard library, as vstd
//! specifies it.

pub mod city;
pub mod engine;
pub mod parallel;
pub mod population;
pub mod random;
pub mod route;
pub mod scoring;
pub mod text;
