//! The generation loop: one step of it, and a run of bounded length.

use vstd::prelude::*;
use crate::city::{City, CityView};
use crate::population::{
    breedable, is_best, lemma_fresh_population_uniform, lemma_succession, succeeds, Evolution,
    Population,
};
use crate::random::MAX_FULL_SAMPLE;
use crate::route::{is_fresh, lemma_scored_beats_placeholder, Route, RouteView};
use crate::scoring::Scoring;

verus! {

/// What a run is configured with.
pub struct Settings {
    pub scoring: Scoring,
    /// Number of candidates in every generation.
    pub population_size: usize,
    /// The run is finished once the best fitness is above this.
    pub minimum_fitness: i128,
    /// Number of generations without improvement that are tolerated before
    /// the population is replaced by a fresh one.
    pub stagnation_window: u64,
}

impl Settings {
    /// Settings are usable when the scoring is and a generation has at
    /// least one candidate and at most [`MAX_FULL_SAMPLE`].
    pub open spec fn wf(&self) -> bool {
        &&& self.scoring.wf()
        &&& 1 <= self.population_size <= MAX_FULL_SAMPLE
    }

    /// Whether the settings are usable.
    pub fn is_valid(&self) -> (ok: bool)
        ensures
            ok == self.wf(),
    {
        self.scoring.is_valid() && 1 <= self.population_size && self.population_size
            <= MAX_FULL_SAMPLE
    }
}

/// How the loop stands after a generation.
#[derive(Clone, Copy, Debug, PartialEq, Eq)]
pub enum Status {
    /// The search goes on with the current population.
    Running,
    /// Too many generations have passed without improvement: the search
    /// goes on with a fresh population.
    Stagnant,
    /// The best fitness is above the configured minimum.
    Finished,
}

/// The record of one improvement of the best candidate.
#[derive(Clone, Copy, Debug, PartialEq, Eq)]
pub struct Progress {
    /// Index of the generation that brought the improvement, counted from
    /// the last fresh population.
    pub generation: u64,
    /// The new best fitness.
    pub fitness: i128,
    /// The distance term of that fitness.
    pub reward_per_distance: u128,
}

/// What one generation reports.
#[derive(Clone, Copy, Debug, PartialEq, Eq)]
pub struct Report {
    pub progress: Option<Progress>,
    pub status: Status,
}

/// The state of the loop between two generations.
pub struct Engine {
    pub population: Population,
    /// The fittest candidate seen so far, over all populations.
    pub best: Route,
    /// Number of generations since the last fresh population.
    pub generation: u64,
    /// Number of generations since `best` last changed.
    pub stagnation: u64,
}

/// The mathematical value of an [`Engine`].
pub struct EngineView {
    pub population: Seq<RouteView>,
    pub best: RouteView,
    pub generation: u64,
    pub stagnation: u64,
}

impl View for Engine {
    type V = EngineView;

    open spec fn view(&self) -> EngineView {
        EngineView {
            population: self.population@,
            best: self.best@,
            generation: self.generation,
            stagnation: self.stagnation,
        }
    }
}

/// What a run of bounded length hands back.
pub struct Run {
    /// The state in which the run ended.
    pub end: Engine,
    /// The improvements of the best candidate, in the order in which they
    /// came.
    pub log: Vec<Progress>,
    /// Number of generations that were run.
    pub generations: u64,
}

/// One more, as far as the counter goes.
pub open spec fn counted_up(n: u64) -> u64 {
    if n < u64::MAX {
        (n + 1) as u64
    } else {
        n
    }
}

/// The progress record of a generation whose fittest candidate is `local`.
pub open spec fn progress_of(generation: u64, local: RouteView, scoring: Scoring) -> Progress {
    Progress {
        generation,
        fitness: local.fitness as i128,
        reward_per_distance: scoring.reported_term(local.distance) as u128,
    }
}

impl EngineView {
    /// Whether `local` is fitter than the best candidate so far.
    pub open spec fn improved_by(self, local: RouteView) -> bool {
        local.fitness > self.best.fitness
    }

    /// The best candidate once `local` has been taken in.
    pub open spec fn best_with(self, local: RouteView) -> RouteView {
        if self.improved_by(local) {
            local
        } else {
            self.best
        }
    }

    /// The number of generations without improvement once `local` has been
    /// taken in.
    pub open spec fn stagnation_with(self, local: RouteView) -> u64 {
        if self.improved_by(local) {
            0
        } else {
            counted_up(self.stagnation)
        }
    }

    /// How the loop stands once `local` has been taken in: finished when
    /// the best fitness is above the minimum, else stagnant when more
    /// generations than the window allows have passed without improvement.
    pub open spec fn status_with(self, local: RouteView, settings: Settings) -> Status {
        if self.best_with(local).fitness > settings.minimum_fitness {
            Status::Finished
        } else if self.stagnation_with(local) > settings.stagnation_window {
            Status::Stagnant
        } else {
            Status::Running
        }
    }

    /// What is reported once `local` has been taken in: the progress, if it
    /// is an improvement, and the status.
    pub open spec fn report_on(self, local: RouteView, settings: Settings) -> Report {
        Report {
            progress: if self.improved_by(local) {
                Some(progress_of(self.generation, local, settings.scoring))
            } else {
                None
            },
            status: self.status_with(local, settings),
        }
    }

    /// The state once `local` has been taken in. The population stays; both
    /// counters go back to zero where the search is found stagnant.
    pub open spec fn observed(self, local: RouteView, settings: Settings) -> EngineView {
        let stagnant = self.status_with(local, settings) == Status::Stagnant;
        EngineView {
            population: self.population,
            best: self.best_with(local),
            generation: if stagnant {
                0
            } else {
                counted_up(self.generation)
            },
            stagnation: if stagnant {
                0
            } else {
                self.stagnation_with(local)
            },
        }
    }
}

/// Whether `after` and `report` can be what one generation makes of
/// `before`: some generation follows the population of `before`, a fittest
/// candidate of it is taken in, and the population is either that
/// generation or, where the search is found stagnant, a fresh one.
pub open spec fn stepped(
    before: EngineView,
    after: EngineView,
    report: Report,
    catalog: Seq<CityView>,
    settings: Settings,
) -> bool {
    exists|next: Seq<RouteView>, local: RouteView|
        stepped_by(before, next, local, after, report, catalog, settings)
}

/// Whether `after` and `report` are what one generation makes of `before`
/// by way of `next`, the generation that follows its population, and
/// `local`, the fittest candidate of `next` that is taken in.
pub open spec fn stepped_by(
    before: EngineView,
    next: Seq<RouteView>,
    local: RouteView,
    after: EngineView,
    report: Report,
    catalog: Seq<CityView>,
    settings: Settings,
) -> bool {
    let taken = before.observed(local, settings);
    &&& succeeds(before.population, next, settings.scoring)
    &&& is_best(next, local)
    &&& report == before.report_on(local, settings)
    &&& after.best == taken.best
    &&& after.generation == taken.generation
    &&& after.stagnation == taken.stagnation
    &&& if report.status == Status::Stagnant {
        is_fresh_population(after.population, catalog, settings)
    } else {
        after.population == next
    }
}

/// Whether `routes` is a first generation over `catalog`.
pub open spec fn is_fresh_population(
    routes: Seq<RouteView>,
    catalog: Seq<CityView>,
    settings: Settings,
) -> bool {
    &&& routes.len() == settings.population_size
    &&& forall|k: int|
        0 <= k < routes.len() ==> is_fresh(catalog, settings.scoring, #[trigger] routes[k])
}

/// Whether `state` is one from which a search starts: a first generation
/// over `catalog`, the placeholder as the best candidate, and both counters
/// at zero.
pub open spec fn is_start(state: EngineView, catalog: Seq<CityView>, settings: Settings) -> bool {
    &&& is_fresh_population(state.population, catalog, settings)
    &&& state.best == Route::default_view()
    &&& state.generation == 0
    &&& state.stagnation == 0
}

/// Whether `states` and `reports` are the course of a search: it starts
/// afresh, and each state that is not finished is followed by what one
/// generation makes of it, with the report of that generation.
pub open spec fn is_course(
    states: Seq<EngineView>,
    reports: Seq<Report>,
    catalog: Seq<CityView>,
    settings: Settings,
) -> bool {
    &&& states.len() == reports.len() + 1
    &&& is_start(states[0], catalog, settings)
    &&& forall|i: int|
        0 <= i < reports.len() ==> #[trigger] goes_on(states, reports, i, catalog, settings)
}

/// Whether the state at position `i` of a course is not finished, and the
/// state and the report that follow it are what one generation makes of it.
pub open spec fn goes_on(
    states: Seq<EngineView>,
    reports: Seq<Report>,
    i: int,
    catalog: Seq<CityView>,
    settings: Settings,
) -> bool {
    &&& states[i].best.fitness <= settings.minimum_fitness
    &&& stepped(states[i], states[i + 1], reports[i], catalog, settings)
}

/// The progress records that the reports hold, in their order.
pub open spec fn logged(reports: Seq<Report>) -> Seq<Progress>
    decreases reports.len(),
{
    if reports.len() == 0 {
        Seq::empty()
    } else {
        let earlier = logged(reports.drop_last());
        match reports.last().progress {
            Some(record) => earlier.push(record),
            None => earlier,
        }
    }
}

/// Whether a run of `generations` generations that ends in `end` with the
/// log `log` took the course of `states` and `reports`.
pub open spec fn ran_by(
    states: Seq<EngineView>,
    reports: Seq<Report>,
    end: EngineView,
    log: Seq<Progress>,
    generations: u64,
    catalog: Seq<CityView>,
    settings: Settings,
) -> bool {
    &&& is_course(states, reports, catalog, settings)
    &&& reports.len() == generations
    &&& states.last() == end
    &&& log == logged(reports)
}

/// Whether `log` can be the improvements that led to a best candidate of
/// the given value: each entry is fitter than the one before, and the last
/// one has the fitness of the best candidate; with no entry the best
/// candidate is still the placeholder.
pub open spec fn records(log: Seq<Progress>, best: RouteView) -> bool {
    &&& forall|i: int, j: int| 0 <= i < j < log.len() ==> log[i].fitness < log[j].fitness
    &&& log.len() > 0 ==> log.last().fitness == best.fitness
    &&& log.len() == 0 ==> best == Route::default_view()
}

/// One generation never lowers the best fitness. It reports progress
/// exactly when the best fitness rose, and the best candidate is then a
/// scored one. The first generation of a search always brings progress:
/// whatever it takes in is fitter than the placeholder.
pub proof fn lemma_step_never_regresses(
    before: EngineView,
    after: EngineView,
    report: Report,
    catalog: Seq<CityView>,
    settings: Settings,
)
    requires
        breedable(before.population),
        0 < catalog.len(),
        settings.wf(),
        stepped(before, after, report, catalog, settings),
    ensures
        after.best.fitness >= before.best.fitness,
        report.progress is Some <==> after.best.fitness > before.best.fitness,
        report.progress is None ==> after.best == before.best,
        report.progress is Some ==> after.best.scored(settings.scoring),
        report.progress is Some ==> report.progress->0.fitness == after.best.fitness,
        report.status == Status::Finished <==> after.best.fitness > settings.minimum_fitness,
        before.best == Route::default_view() ==> report.progress is Some,
        breedable(after.population),
{
    let (next, local) = choose|next: Seq<RouteView>, local: RouteView|
        stepped_by(before, next, local, after, report, catalog, settings);
    lemma_succession(before.population, next, settings.scoring);
    let i = choose|i: int| 0 <= i < next.len() && next[i] == local;
    lemma_scored_beats_placeholder(settings.scoring, next[i]);
    if report.status == Status::Stagnant {
        lemma_fresh_population_uniform(after.population, catalog, settings.scoring);
    }
}

/// A course goes on with what one more generation makes of its last state,
/// and the log goes on with the progress that the generation reports.
proof fn lemma_course_goes_on(
    states: Seq<EngineView>,
    reports: Seq<Report>,
    next: EngineView,
    report: Report,
    catalog: Seq<CityView>,
    settings: Settings,
)
    requires
        is_course(states, reports, catalog, settings),
        states.last().best.fitness <= settings.minimum_fitness,
        stepped(states.last(), next, report, catalog, settings),
    ensures
        is_course(states.push(next), reports.push(report), catalog, settings),
        logged(reports.push(report)) == (match report.progress {
            Some(record) => logged(reports).push(record),
            None => logged(reports),
        }),
{
    let longer = states.push(next);
    let more = reports.push(report);
    assert(more.drop_last() =~= reports);
    assert(longer[0] == states[0]);
    assert forall|i: int| 0 <= i < more.len() implies #[trigger] goes_on(
        longer,
        more,
        i,
        catalog,
        settings,
    ) by {
        if i < reports.len() {
            assert(goes_on(states, reports, i, catalog, settings));
        }
    }
}

impl Engine {
    /// The state from which a search starts: a first random population,
    /// the placeholder as the best candidate, and both counters at zero.
    pub fn new(catalog: &Vec<City>, settings: &Settings) -> (start: Self)
        requires
            0 < catalog.len() <= MAX_FULL_SAMPLE,
            settings.wf(),
        ensures
            is_start(start@, catalog.deep_view(), *settings),
            breedable(start@.population),
    {
        let population = Population::new(catalog, settings.population_size, &settings.scoring);
        proof {
            lemma_fresh_population_uniform(population@, catalog.deep_view(), settings.scoring);
        }
        Engine { population, best: Route::default(), generation: 0, stagnation: 0 }
    }

    /// Takes in the fittest candidate of the generation that was just
    /// scored. It becomes the best when it is fitter than the best so far,
    /// and that is reported. The counters move on, or go back to zero where
    /// the search is found stagnant.
    pub fn observe(&mut self, local_best: Route, settings: &Settings) -> (report: Report)
        requires
            settings.wf(),
            local_best@.scored(settings.scoring),
        ensures
            final(self)@ == old(self)@.observed(local_best@, *settings),
            report == old(self)@.report_on(local_best@, *settings),
    {
        let progress = if local_best.fitness > self.best.fitness {
            let record = Progress {
                generation: self.generation,
                fitness: local_best.fitness,
                reward_per_distance: settings.scoring.reward_per_distance(local_best.distance),
            };
            self.best = local_best;
            self.stagnation = 0;
            Some(record)
        } else {
            self.stagnation = self.stagnation.saturating_add(1);
            None
        };
        self.generation = self.generation.saturating_add(1);
        let status = if self.best.fitness > settings.minimum_fitness {
            Status::Finished
        } else if self.stagnation > settings.stagnation_window {
            self.generation = 0;
            self.stagnation = 0;
            Status::Stagnant
        } else {
            Status::Running
        };
        Report { progress, status }
    }

    /// One generation: the population is replaced by the generation that
    /// follows it, and the fittest candidate of that is taken in as
    /// [`observe`] describes. Where the search is found stagnant, the
    /// population is replaced once more, by a fresh one over `catalog`.
    ///
    /// [`observe`]: Engine::observe
    pub fn step(&mut self, catalog: &Vec<City>, settings: &Settings) -> (report: Report)
        requires
            settings.wf(),
            0 < catalog.len() <= MAX_FULL_SAMPLE,
            breedable(old(self)@.population),
        ensures
            stepped(old(self)@, final(self)@, report, catalog.deep_view(), *settings),
            breedable(final(self)@.population),
            final(self)@.best.fitness >= old(self)@.best.fitness,
    {
        let scoring = &settings.scoring;
        let mut current = Population { routes: Vec::new() };
        std::mem::swap(&mut current, &mut self.population);
        let next = current.next_generation(scoring);
        let local_best = next.get_best();
        proof {
            lemma_succession(old(self)@.population, next@, *scoring);
        }
        let ghost bred = next@;
        let ghost local = local_best@;
        self.population = next;
        let report = self.observe(local_best, settings);
        match report.status {
            Status::Stagnant => {
                self.population = Population::new(catalog, settings.population_size, scoring);
            },
            _ => {},
        }
        proof {
            assert(stepped_by(
                old(self)@,
                bred,
                local,
                self@,
                report,
                catalog.deep_view(),
                *settings,
            ));
            lemma_step_never_regresses(old(self)@, self@, report, catalog.deep_view(), *settings);
        }
        report
    }

    /// Searches from a fresh start until the best fitness is above the
    /// configured minimum, for at most `max_generations` generations.
    ///
    /// The run takes one generation after another, as [`step`] describes,
    /// for as long as it is not finished, and logs the progress that the
    /// generations report. It stops early only when it is finished, and
    /// then the last improvement is the only one that is above the minimum.
    /// The first generation always brings an improvement.
    ///
    /// [`step`]: Engine::step
    pub fn run(catalog: &Vec<City>, settings: &Settings, max_generations: u64) -> (run: Run)
        requires
            0 < catalog.len() <= MAX_FULL_SAMPLE,
            settings.wf(),
        ensures
            exists|states: Seq<EngineView>, reports: Seq<Report>|
                ran_by(
                    states,
                    reports,
                    run.end@,
                    run.log@,
                    run.generations,
                    catalog.deep_view(),
                    *settings,
                ),
            breedable(run.end@.population),
            run.generations <= max_generations,
            run.end@.best.fitness > settings.minimum_fitness || run.generations == max_generations,
            records(run.log@, run.end@.best),
            run.generations > 0 ==> run.log@.len() > 0 && run.end@.best.scored(settings.scoring),
            run.generations == 0 ==> run.end@.best == Route::default_view(),
            forall|i: int|
                0 <= i < run.log@.len() - 1 ==> (#[trigger] run.log@[i]).fitness
                    <= settings.minimum_fitness,
    {
        let mut state = Engine::new(catalog, settings);
        let mut log: Vec<Progress> = Vec::new();
        let mut generations: u64 = 0;
        let ghost mut states: Seq<EngineView> = seq![state@];
        let ghost mut reports: Seq<Report> = Seq::empty();
        while generations < max_generations && state.best.fitness <= settings.minimum_fitness
            invariant
                0 < catalog.len() <= MAX_FULL_SAMPLE,
                settings.wf(),
                breedable(state@.population),
                generations <= max_generations,
                ran_by(
                    states,
                    reports,
                    state@,
                    log@,
                    generations,
                    catalog.deep_view(),
                    *settings,
                ),
                records(log@, state@.best),
                generations > 0 ==> log@.len() > 0 && state@.best.scored(settings.scoring),
                generations == 0 ==> state@.best == Route::default_view(),
                forall|i: int|
                    0 <= i < log@.len() ==> (#[trigger] log@[i]).fitness <= state@.best.fitness,
                forall|i: int|
                    0 <= i < log@.len() - 1 ==> (#[trigger] log@[i]).fitness
                        <= settings.minimum_fitness,
            decreases max_generations - generations,
        {
            let ghost before = log@;
            let ghost state_before = state@;
            let report = state.step(catalog, settings);
            proof {
                lemma_course_goes_on(
                    states,
                    reports,
                    state@,
                    report,
                    catalog.deep_view(),
                    *settings,
                );
                states = states.push(state@);
                reports = reports.push(report);
                lemma_step_never_regresses(
                    state_before,
                    state@,
                    report,
                    catalog.deep_view(),
                    *settings,
                );
            }
            match report.progress {
                Some(record) => {
                    log.push(record);
                    proof {
                        let now = log@;
                        assert forall|i: int, j: int| 0 <= i < j < now.len() implies now[i].fitness
                            < now[j].fitness by {
                            assert(now[i] == before[i]);
                        }
                        let minimum = settings.minimum_fitness;
                        assert forall|i: int| 0 <= i < now.len() - 1 implies (#[trigger] now[i])
                            .fitness <= minimum by {
                            assert(now[i] == before[i]);
                        }
                    }
                },
                None => {},
            }
            generations += 1;
        }
        let run = Run { end: state, log, generations };
        assert(ran_by(
            states,
            reports,
            run.end@,
            run.log@,
            run.generations,
            catalog.deep_view(),
            *settings,
        ));
        run
    }
}

} // verus!
