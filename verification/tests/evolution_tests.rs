use std::sync::Arc;

use course_evolver::course::{Course, Position};
use course_evolver::evolution::Evolution;
use course_evolver::policy::{Action, Policy};

struct Still;

impl Policy for Still {
    fn chosen(&self, _: Course, _: Position, _: Option<Action>, _: bool) -> Action {
        Action::Up
    }

    fn after(&self, _: Course, _: Position, _: Option<Action>, _: bool) -> Self {
        Still
    }

    fn choose_action(&mut self, _: &Course, _: Position, _: Option<Action>, _: bool) -> Action {
        Action::Up
    }
}

fn course() -> Arc<Course> {
    Arc::new(Course::new(4, 4, Position { x: 0, y: 0 }, Position { x: 3, y: 3 }))
}

#[test]
fn new_population_counts_ids_up_from_zero() {
    let evolution: Evolution<u32> = Evolution::new(5, 100, || 7u32);
    let ids: Vec<u64> = evolution.population().iter().map(|i| i.id).collect();
    assert_eq!(ids, vec![0, 1, 2, 3, 4]);
    assert!(evolution.population().iter().all(|i| i.genome == 7));
    assert_eq!(evolution.generation(), 0);
    assert_eq!(evolution.next_individual_id(), 5);
    assert_eq!(evolution.next_job_id(), 0);
}

#[test]
fn create_jobs_pairs_every_individual_with_every_course() {
    let mut evolution: Evolution<u32> = Evolution::new(3, 50, || 0u32);
    let courses = vec![course(), course()];
    let jobs = evolution.create_jobs(&courses, |_: &u32| Still);
    assert_eq!(jobs.len(), 6);
    let summary: Vec<(u64, u64, usize)> = jobs.iter().map(|j| (j.id, j.individual_id, j.course_index)).collect();
    assert_eq!(summary, vec![(0, 0, 0), (1, 0, 1), (2, 1, 0), (3, 1, 1), (4, 2, 0), (5, 2, 1)]);
    assert!(jobs.iter().all(|j| j.max_steps == 50 && j.generation == 0));
    assert_eq!(evolution.next_job_id(), 6);
    let again = evolution.create_jobs(&courses, |_: &u32| Still);
    assert_eq!(again[0].id, 6);
}

#[test]
fn advance_keeps_elites_breeds_children_and_adds_immigrants() {
    // Genome = the id of the individual it was first made for.
    let mut evolution: Evolution<u64> = Evolution::new(10, 50, || 0u64);
    let ranked: Vec<u64> = vec![7, 3, 9, 0, 1, 2, 4, 5, 6, 8];
    // Elites 2, parent pool 3, immigrants 1.
    evolution.advance_generation(&ranked, 2, 3, 1, |g: &u64| g + 100, || 999u64);
    let population = evolution.population();
    assert_eq!(population.len(), 10);
    assert_eq!(population[0].id, 7);
    assert_eq!(population[1].id, 3);
    assert_eq!(population[0].genome, 0);
    for (offset, individual) in population.iter().enumerate().skip(2).take(7) {
        assert_eq!(individual.id, 10 + offset as u64 - 2);
        assert_eq!(individual.genome, 100);
    }
    assert_eq!(population[9].id, 17);
    assert_eq!(population[9].genome, 999);
    assert_eq!(evolution.generation(), 1);
    assert_eq!(evolution.next_individual_id(), 18);
    let mut ids: Vec<u64> = population.iter().map(|i| i.id).collect();
    ids.sort();
    ids.dedup();
    assert_eq!(ids.len(), 10);
}

#[test]
fn advance_clamps_shares_for_a_single_individual() {
    let mut evolution: Evolution<u8> = Evolution::new(1, 10, || 1u8);
    evolution.advance_generation(&vec![0], 0, 0, 3, |g: &u8| *g, || 2u8);
    let population = evolution.population();
    assert_eq!(population.len(), 1);
    assert_eq!(population[0].id, 0);
    assert_eq!(population[0].genome, 1);
    assert_eq!(evolution.next_individual_id(), 1);
}

/// Always takes the action its genome names.
struct Fixed(u32);

impl Fixed {
    fn action(&self) -> Action {
        [Action::Up, Action::Down, Action::Left, Action::Right][self.0 as usize % 4]
    }
}

impl Policy for Fixed {
    fn chosen(&self, _: Course, _: Position, _: Option<Action>, _: bool) -> Action {
        self.action()
    }

    fn after(&self, _: Course, _: Position, _: Option<Action>, _: bool) -> Self {
        Fixed(self.0)
    }

    fn choose_action(&mut self, _: &Course, _: Position, _: Option<Action>, _: bool) -> Action {
        self.action()
    }
}

#[test]
fn create_jobs_builds_each_policy_from_its_own_genome() {
    let counter = std::cell::Cell::new(0u32);
    let mut evolution: Evolution<u32> = Evolution::new(3, 5, || {
        let genome = counter.get();
        counter.set(genome + 1);
        genome
    });
    let courses = vec![course()];
    let jobs = evolution.create_jobs(&courses, |genome: &u32| Fixed(*genome));
    let genomes: Vec<(u64, u32)> = jobs.iter().map(|j| (j.individual_id, j.policy.0)).collect();
    assert_eq!(genomes, vec![(0, 0), (1, 1), (2, 2)]);
    // The genome 1 policy only moves down: from (0, 0) the path runs down the first column.
    let outcome = jobs.into_iter().nth(1).unwrap().run();
    assert_eq!(outcome.simulation.path, vec![
        Position { x: 0, y: 0 },
        Position { x: 0, y: 1 },
        Position { x: 0, y: 2 },
        Position { x: 0, y: 3 },
    ]);
    assert_eq!(outcome.simulation.collisions, 2);
}

#[test]
fn a_ranking_that_repeats_an_id_keeps_it_twice() {
    // Evaluations are taken as given: an id ranked twice among the elites
    // is kept twice, while every id stays below the next free id.
    let mut evolution: Evolution<u8> = Evolution::new(4, 10, || 0u8);
    evolution.advance_generation(&vec![2, 2, 0, 1], 2, 2, 1, |g: &u8| *g, || 5u8);
    let ids: Vec<u64> = evolution.population().iter().map(|i| i.id).collect();
    assert_eq!(ids, vec![2, 2, 4, 5]);
    assert!(ids.iter().all(|id| *id < evolution.next_individual_id()));
}
