use std::sync::Arc;

use course_evolver::course::{manhattan_distance, Cell, Course, Position};
use course_evolver::fitness::shortest_distances_to_goal;
use course_evolver::policy::{Action, Policy};
use course_evolver::simulation::Simulation;

fn pos(x: usize, y: usize) -> Position {
    Position { x, y }
}

struct Cycle {
    actions: Vec<Action>,
    next: usize,
}

impl Policy for Cycle {
    fn chosen(&self, _: Course, _: Position, _: Option<Action>, _: bool) -> Action {
        self.actions[self.next % self.actions.len()]
    }

    fn after(&self, _: Course, _: Position, _: Option<Action>, _: bool) -> Self {
        Cycle { actions: self.actions.clone(), next: self.next + 1 }
    }

    fn choose_action(&mut self, _: &Course, _: Position, _: Option<Action>, _: bool) -> Action {
        let action = self.actions[self.next % self.actions.len()];
        self.next += 1;
        action
    }
}

#[test]
fn distance_from_goal_to_start_equals_shortest_path_length() {
    let mut course = Course::new(6, 5, pos(0, 0), pos(5, 4));
    for y in 0..4 {
        course.set_cell(pos(2, y), Cell::Obstacle);
    }
    for y in 1..5 {
        course.set_cell(pos(4, y), Cell::Obstacle);
    }
    let forward = course.shortest_path_length().unwrap();
    let backward = shortest_distances_to_goal(&course)[0].unwrap();
    assert_eq!(forward, backward);
    assert_eq!(forward, 17);
}

#[test]
fn shortest_paths_of_generated_courses_are_at_least_manhattan() {
    for _ in 0..20 {
        let course = Course::random_candidate(25, 20);
        if let Some(length) = course.shortest_path_length() {
            assert!(length >= manhattan_distance(course.start, course.goal));
        }
    }
}

#[test]
fn run_paths_stay_on_the_course_and_add_up() {
    let mut course = Course::new(5, 5, pos(0, 0), pos(4, 4));
    course.set_cell(pos(1, 1), Cell::Obstacle);
    course.set_cell(pos(2, 3), Cell::Obstacle);
    let policy = Cycle { actions: vec![Action::Right, Action::Down, Action::Down, Action::Left, Action::Up], next: 0 };
    let mut sim = Simulation::new(Arc::new(course), policy, 40);
    sim.run_to_completion();
    let result = sim.result();
    assert_eq!(result.path[0], pos(0, 0));
    for p in &result.path {
        assert!(p.x < 5 && p.y < 5);
        assert!(sim.course.is_walkable(*p) || *p == pos(0, 0));
    }
    for w in result.path.windows(2) {
        assert_eq!(manhattan_distance(w[0], w[1]), 1);
    }
    assert_eq!(result.steps, result.collisions + result.path.len() - 1);
    assert!(result.steps <= 40);
}
