use std::sync::Arc;

use course_evolver::course::{Cell, Course, Position};
use course_evolver::job::Job;
use course_evolver::policy::{Action, Policy};
use course_evolver::simulation::{Agent, Simulation};

fn pos(x: usize, y: usize) -> Position {
    Position { x, y }
}

/// Plays a fixed list of actions, then repeats the last one.
struct Script {
    actions: Vec<Action>,
    next: usize,
}

impl Policy for Script {
    fn chosen(&self, _course: Course, _position: Position, _previous_action: Option<Action>, _previous_action_succeeded: bool) -> Action {
        self.actions[self.next.min(self.actions.len() - 1)]
    }

    fn after(&self, _course: Course, _position: Position, _previous_action: Option<Action>, _previous_action_succeeded: bool) -> Self {
        Script { actions: self.actions.clone(), next: self.next + 1 }
    }

    fn choose_action(
        &mut self,
        _course: &Course,
        _position: Position,
        _previous_action: Option<Action>,
        _previous_action_succeeded: bool,
    ) -> Action {
        let action = self.actions[self.next.min(self.actions.len() - 1)];
        self.next += 1;
        action
    }
}

fn script(actions: &[Action]) -> Script {
    Script { actions: actions.to_vec(), next: 0 }
}

#[test]
fn agent_starts_on_start_with_nothing_done() {
    let agent = Agent::new(pos(2, 3));
    assert_eq!(agent.position, pos(2, 3));
    assert_eq!(agent.path, vec![pos(2, 3)]);
    assert_eq!(agent.collisions, 0);
    assert_eq!(agent.previous_action, None);
    assert!(!agent.previous_action_succeeded);
}

#[test]
fn step_moves_or_collides() {
    let mut course = Course::new(3, 3, pos(0, 0), pos(2, 2));
    course.set_cell(pos(1, 0), Cell::Obstacle);
    let mut sim = Simulation::new(Arc::new(course), script(&[Action::Up, Action::Right, Action::Down]), 10);

    sim.step(); // Up from row 0: off the grid.
    assert_eq!(sim.agent.position, pos(0, 0));
    assert_eq!(sim.agent.collisions, 1);
    assert_eq!(sim.agent.previous_action, Some(Action::Up));
    assert!(!sim.agent.previous_action_succeeded);

    sim.step(); // Right into the obstacle.
    assert_eq!(sim.agent.position, pos(0, 0));
    assert_eq!(sim.agent.collisions, 2);

    sim.step(); // Down onto an open square.
    assert_eq!(sim.agent.position, pos(0, 1));
    assert_eq!(sim.agent.path, vec![pos(0, 0), pos(0, 1)]);
    assert!(sim.agent.previous_action_succeeded);
    assert_eq!(sim.steps, 3);
    assert!(!sim.finished);
}

#[test]
fn run_reaches_goal_and_stops() {
    let course = Course::new(3, 2, pos(0, 0), pos(2, 1));
    let mut sim = Simulation::new(Arc::new(course), script(&[Action::Right, Action::Right, Action::Down]), 10);
    sim.run_to_completion();
    assert!(sim.finished);
    assert!(sim.reached_goal);
    assert_eq!(sim.steps, 3);
    let result = sim.result();
    assert!(result.reached_goal);
    assert_eq!(result.steps, 3);
    assert_eq!(result.collisions, 0);
    assert_eq!(result.path, vec![pos(0, 0), pos(1, 0), pos(2, 0), pos(2, 1)]);
    // A finished run no longer changes.
    sim.step();
    assert_eq!(sim.steps, 3);
}

#[test]
fn run_stops_at_max_steps() {
    let course = Course::new(3, 3, pos(0, 0), pos(2, 2));
    let mut sim = Simulation::new(Arc::new(course), script(&[Action::Left]), 5);
    sim.run_to_completion();
    assert!(sim.finished);
    assert!(!sim.reached_goal);
    assert_eq!(sim.steps, 5);
    assert_eq!(sim.agent.collisions, 5);
    assert_eq!(sim.result().path, vec![pos(0, 0)]);
}

#[test]
fn run_on_goal_finishes_without_a_step() {
    let course = Course::new(3, 3, pos(1, 1), pos(1, 1));
    let mut sim = Simulation::new(Arc::new(course), script(&[Action::Left]), 5);
    sim.run_to_completion();
    assert!(sim.reached_goal);
    assert_eq!(sim.steps, 0);
}

#[test]
fn zero_max_steps_finishes_at_once() {
    let course = Course::new(3, 3, pos(0, 0), pos(2, 2));
    let mut sim = Simulation::new(Arc::new(course), script(&[Action::Right]), 0);
    sim.step();
    assert!(sim.finished);
    assert!(!sim.reached_goal);
    assert_eq!(sim.steps, 0);
}

#[test]
fn job_runs_and_measures() {
    let course = Arc::new(Course::new(3, 2, pos(0, 0), pos(2, 1)));
    let policy = script(&[Action::Up, Action::Right, Action::Right, Action::Down]);
    let job = Job::new(7, 2, 11, 1, course, policy, 20);
    let outcome = job.run();
    assert_eq!(outcome.job_id, 7);
    assert_eq!(outcome.generation, 2);
    assert_eq!(outcome.individual_id, 11);
    assert_eq!(outcome.course_index, 1);
    assert!(outcome.simulation.reached_goal);
    assert_eq!(outcome.simulation.steps, 4);
    assert_eq!(outcome.counts.collisions, 1);
    assert_eq!(outcome.counts.successful_moves, 3);
    assert_eq!(outcome.counts.progress_cells, 3);
    assert_eq!(outcome.counts.steps_to_closest, 3);
    assert_eq!(outcome.counts.unique_cells, 4);
}

#[test]
fn start_off_the_grid_only_collides() {
    let course = Course::new(3, 3, pos(5, 5), pos(2, 2));
    let mut sim = Simulation::new(Arc::new(course), script(&[Action::Up, Action::Left]), 3);
    sim.run_to_completion();
    assert!(!sim.reached_goal);
    assert_eq!(sim.agent.collisions, 3);
    assert_eq!(sim.result().path, vec![pos(5, 5)]);
}

#[test]
fn job_is_runnable_only_when_start_reaches_goal() {
    let open = Arc::new(Course::new(3, 3, pos(0, 0), pos(2, 2)));
    let job = Job::new(0, 0, 0, 0, open, script(&[Action::Right]), 10);
    assert!(job.is_runnable());

    // S # .
    // # . .
    // . . G
    let mut walled = Course::new(3, 3, pos(0, 0), pos(2, 2));
    walled.set_cell(pos(1, 0), Cell::Obstacle);
    walled.set_cell(pos(0, 1), Cell::Obstacle);
    let job = Job::new(0, 0, 0, 0, Arc::new(walled), script(&[Action::Right]), 10);
    assert!(!job.is_runnable());

    let off_grid = Arc::new(Course::new(3, 3, pos(3, 0), pos(2, 2)));
    let job = Job::new(0, 0, 0, 0, off_grid, script(&[Action::Right]), 10);
    assert!(!job.is_runnable());
}

#[test]
fn step_applies_the_action_the_policy_returns() {
    let course = Arc::new(Course::new(3, 3, pos(1, 1), pos(2, 2)));
    for (action, expected) in [
        (Action::Up, pos(1, 0)),
        (Action::Down, pos(1, 2)),
        (Action::Left, pos(0, 1)),
        (Action::Right, pos(2, 1)),
    ] {
        let mut simulation = Simulation::new(course.clone(), script(&[action]), 5);
        simulation.step();
        assert_eq!(simulation.agent.position, expected);
        assert_eq!(simulation.agent.previous_action, Some(action));
        assert!(simulation.agent.previous_action_succeeded);
    }
}

#[test]
fn each_step_asks_the_policy_once() {
    let course = Arc::new(Course::new(4, 1, pos(0, 0), pos(3, 0)));
    let mut simulation = Simulation::new(course, script(&[Action::Up, Action::Right]), 10);
    simulation.step();
    assert_eq!(simulation.policy.next, 1);
    assert_eq!(simulation.agent.position, pos(0, 0));
    simulation.run_to_completion();
    // Up collides, then three moves right reach the goal; the finishing
    // step asks nothing.
    assert_eq!(simulation.steps, 4);
    assert_eq!(simulation.policy.next, 4);
    assert!(simulation.reached_goal);
}
