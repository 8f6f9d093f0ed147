use course_evolver::course::{Cell, Course, Position};
use course_evolver::fitness::{calculate_path_stats, is_measurable, measure, shortest_distances_to_goal};
use course_evolver::simulation::SimulationResult;

fn pos(x: usize, y: usize) -> Position {
    Position { x, y }
}

fn walled_course() -> Course {
    // S . .
    // # # .
    // G . .
    let mut course = Course::new(3, 3, pos(0, 0), pos(0, 2));
    course.set_cell(pos(0, 1), Cell::Obstacle);
    course.set_cell(pos(1, 1), Cell::Obstacle);
    course
}

#[test]
fn distances_to_goal_follow_walkable_squares() {
    let course = walled_course();
    let d = shortest_distances_to_goal(&course);
    assert_eq!(d.len(), 9);
    // Row 2: G=0, 1, 2; row 1: obstacles, then 3; row 0: 6, 5, 4.
    assert_eq!(d[6], Some(0));
    assert_eq!(d[7], Some(1));
    assert_eq!(d[8], Some(2));
    assert_eq!(d[5], Some(3));
    assert_eq!(d[2], Some(4));
    assert_eq!(d[1], Some(5));
    assert_eq!(d[0], Some(6));
    assert_eq!(d[3], None);
    assert_eq!(d[4], None);
}

#[test]
fn distances_to_goal_none_for_enclosed_squares() {
    let mut course = Course::new(3, 3, pos(0, 0), pos(2, 2));
    course.set_cell(pos(1, 0), Cell::Obstacle);
    course.set_cell(pos(0, 1), Cell::Obstacle);
    let d = shortest_distances_to_goal(&course);
    assert_eq!(d[0], None);
    assert_eq!(d[8], Some(0));
    assert_eq!(d[4], Some(2));
}

#[test]
fn path_stats_count_unique_cells_and_revisits() {
    let course = Course::new(4, 4, pos(0, 0), pos(3, 3));
    let path = vec![pos(0, 0), pos(1, 0), pos(0, 0), pos(0, 1), pos(0, 0)];
    let stats = calculate_path_stats(&path, &course);
    assert_eq!(stats.unique_cells, 3);
    assert_eq!(stats.revisits, 2);
    assert_eq!(stats.successful_moves, 4);
}

#[test]
fn path_stats_of_empty_path() {
    let course = Course::new(4, 4, pos(0, 0), pos(3, 3));
    let stats = calculate_path_stats(&Vec::new(), &course);
    assert_eq!(stats.unique_cells, 0);
    assert_eq!(stats.revisits, 0);
    assert_eq!(stats.successful_moves, 0);
}

#[test]
fn measure_records_first_step_at_closest_distance() {
    let course = walled_course();
    // Distances along the path: 6, 5, 4, 5, 4, 3, 4.
    let path = vec![pos(0, 0), pos(1, 0), pos(2, 0), pos(1, 0), pos(2, 0), pos(2, 1), pos(2, 0)];
    let result = SimulationResult { reached_goal: false, steps: 9, collisions: 3, path };
    let counts = measure(&result, &course);
    assert_eq!(counts.progress_cells, 3);
    assert_eq!(counts.steps_to_closest, 5);
    assert_eq!(counts.unique_cells, 4);
    assert_eq!(counts.revisits, 3);
    assert_eq!(counts.successful_moves, 6);
    assert_eq!(counts.collisions, 3);
    assert_eq!(counts.steps, 9);
    assert!(!counts.reached_goal);
}

#[test]
fn measure_without_progress_keeps_steps_at_zero() {
    let course = walled_course();
    let path = vec![pos(0, 0)];
    let result = SimulationResult { reached_goal: false, steps: 4, collisions: 4, path };
    let counts = measure(&result, &course);
    assert_eq!(counts.progress_cells, 0);
    assert_eq!(counts.steps_to_closest, 0);
    assert_eq!(counts.successful_moves, 0);
    assert_eq!(counts.successful_moves + counts.collisions, counts.steps);
}

#[test]
fn reaching_the_goal_is_full_progress() {
    let course = walled_course();
    let path = vec![pos(0, 0), pos(1, 0), pos(2, 0), pos(2, 1), pos(2, 2), pos(1, 2), pos(0, 2)];
    let result = SimulationResult { reached_goal: true, steps: 6, collisions: 0, path };
    let counts = measure(&result, &course);
    assert_eq!(counts.progress_cells, 6);
    assert_eq!(counts.steps_to_closest, 6);
    assert!(counts.reached_goal);
    assert_eq!(counts.successful_moves + counts.collisions, counts.steps);
}

#[test]
fn measurable_needs_a_reachable_start_and_a_path_on_the_grid() {
    let course = walled_course();
    let on_grid = SimulationResult { reached_goal: false, steps: 1, collisions: 0, path: vec![pos(0, 0), pos(1, 0)] };
    assert!(is_measurable(&on_grid, &course));
    let off_grid = SimulationResult { reached_goal: false, steps: 1, collisions: 0, path: vec![pos(0, 0), pos(0, 3)] };
    assert!(!is_measurable(&off_grid, &course));

    // Start enclosed: S # / # . with the goal in the far corner.
    let mut enclosed = Course::new(2, 2, pos(0, 0), pos(1, 1));
    enclosed.set_cell(pos(1, 0), Cell::Obstacle);
    enclosed.set_cell(pos(0, 1), Cell::Obstacle);
    assert!(!is_measurable(&on_grid, &enclosed));
}
