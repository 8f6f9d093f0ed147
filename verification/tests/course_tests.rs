use course_evolver::course::{manhattan_distance, Cell, Course, Position};
use course_evolver::generation::MAX_BLOCK_SIZE;

fn pos(x: usize, y: usize) -> Position {
    Position { x, y }
}

fn open_course(width: usize, height: usize) -> Course {
    Course::new(width, height, pos(0, 0), pos(width - 1, height - 1))
}

#[test]
fn new_course_is_all_open() {
    let course = open_course(4, 3);
    assert_eq!(course.cells.len(), 12);
    assert!(course.cells.iter().all(|c| *c == Cell::Open));
    assert_eq!(course.start, pos(0, 0));
    assert_eq!(course.goal, pos(3, 2));
}

#[test]
fn set_cell_then_cell_reads_it_back() {
    let mut course = open_course(4, 3);
    course.set_cell(pos(2, 1), Cell::Obstacle);
    assert_eq!(course.cell(pos(2, 1)), Cell::Obstacle);
    assert_eq!(course.cells[1 * 4 + 2], Cell::Obstacle);
    assert_eq!(course.cell(pos(1, 2)), Cell::Open);
    assert_eq!(course.cells.iter().filter(|c| **c == Cell::Obstacle).count(), 1);
}

#[test]
fn walkable_needs_bounds_and_open_cell() {
    let mut course = open_course(4, 3);
    course.set_cell(pos(1, 1), Cell::Obstacle);
    assert!(course.is_walkable(pos(0, 0)));
    assert!(!course.is_walkable(pos(1, 1)));
    assert!(!course.is_walkable(pos(4, 0)));
    assert!(!course.is_walkable(pos(0, 3)));
}

#[test]
fn shortest_path_on_open_grid_is_manhattan() {
    let course = open_course(5, 4);
    assert_eq!(course.shortest_path_length(), Some(7));
    assert_eq!(manhattan_distance(course.start, course.goal), 7);
}

#[test]
fn shortest_path_detours_around_a_wall() {
    // S . . . .
    // # # # # .
    // . . . . .
    // G . . . .   (goal at the bottom-left)
    let mut course = Course::new(5, 4, pos(0, 0), pos(0, 3));
    for x in 0..4 {
        course.set_cell(pos(x, 1), Cell::Obstacle);
    }
    // Right 4, down 2, left 4, down 1.
    assert_eq!(course.shortest_path_length(), Some(11));
}

#[test]
fn shortest_path_none_when_walled_off() {
    let mut course = open_course(5, 4);
    for x in 0..5 {
        course.set_cell(pos(x, 2), Cell::Obstacle);
    }
    assert_eq!(course.shortest_path_length(), None);
}

#[test]
fn shortest_path_zero_when_start_is_goal() {
    let course = Course::new(3, 3, pos(1, 1), pos(1, 1));
    assert_eq!(course.shortest_path_length(), Some(0));
}

#[test]
fn shortest_path_none_when_goal_off_the_grid() {
    let course = Course::new(3, 3, pos(0, 0), pos(7, 7));
    assert_eq!(course.shortest_path_length(), None);
}

#[test]
fn goal_may_be_an_obstacle_only_if_unreachable() {
    let mut course = open_course(3, 3);
    course.set_cell(pos(2, 2), Cell::Obstacle);
    assert_eq!(course.shortest_path_length(), None);
}

#[test]
fn manhattan_distance_values() {
    assert_eq!(manhattan_distance(pos(3, 1), pos(0, 5)), 7);
    assert_eq!(manhattan_distance(pos(2, 2), pos(2, 2)), 0);
}

#[test]
fn to_text_draws_start_goal_open_and_obstacles() {
    let mut course = open_course(3, 2);
    course.set_cell(pos(1, 0), Cell::Obstacle);
    assert_eq!(course.to_text(), "S#.\n..G\n");
}

#[test]
fn obstacle_count_counts_obstacles() {
    let mut course = open_course(4, 4);
    assert_eq!(course.obstacle_count(), 0);
    course.set_cell(pos(1, 1), Cell::Obstacle);
    course.set_cell(pos(2, 1), Cell::Obstacle);
    assert_eq!(course.obstacle_count(), 2);
}

#[test]
fn generation_rules_reject_too_few_obstacles() {
    let course = open_course(10, 10);
    assert!(!course.meets_generation_rules());
}

#[test]
fn generation_rules_reject_straight_paths() {
    // 30 obstacles in a 10x10 grid (density 0.30) but the border stays open,
    // so the shortest path (18) is the Manhattan distance, short of 18 * 1.25.
    let mut course = open_course(10, 10);
    let mut placed = 0;
    for y in 2..8 {
        for x in 2..7 {
            course.set_cell(pos(x, y), Cell::Obstacle);
            placed += 1;
        }
    }
    for x in 2..7 {
        course.set_cell(pos(x, 8), Cell::Obstacle);
        placed += 1;
    }
    assert_eq!(placed, 35);
    assert_eq!(course.obstacle_count(), 35);
    assert_eq!(course.shortest_path_length(), Some(18));
    assert!(!course.meets_generation_rules());
}

#[test]
fn generation_rules_accept_a_winding_course() {
    // Three walls with alternating gaps in a 10x10 grid: 27 obstacles.
    let mut course = open_course(10, 10);
    for x in 0..9 {
        course.set_cell(pos(x, 2), Cell::Obstacle);
    }
    for x in 1..10 {
        course.set_cell(pos(x, 5), Cell::Obstacle);
    }
    for x in 0..9 {
        course.set_cell(pos(x, 8), Cell::Obstacle);
    }
    assert_eq!(course.obstacle_count(), 27);
    let length = course.shortest_path_length().unwrap();
    assert!(4 * length >= 5 * 18);
    assert!(course.meets_generation_rules());
}

#[test]
fn generation_rules_reject_too_many_obstacles() {
    let mut course = open_course(10, 10);
    for y in 0..10 {
        for x in 0..10 {
            if (x + y) % 4 != 0 && !(x == 0 && y == 0) && !(x == 9 && y == 9) {
                course.set_cell(pos(x, y), Cell::Obstacle);
            }
        }
    }
    assert!(course.obstacle_count() * 2 > 100);
    assert!(!course.meets_generation_rules());
}

#[test]
fn random_candidate_keeps_start_and_goal_open() {
    for _ in 0..20 {
        let course = Course::random_candidate(20, 15);
        assert_eq!(course.width, 20);
        assert_eq!(course.height, 15);
        assert_eq!(course.cells.len(), 300);
        assert_eq!(course.start, pos(0, 0));
        assert_eq!(course.goal, pos(19, 14));
        assert_eq!(course.cell(course.start), Cell::Open);
        assert_eq!(course.cell(course.goal), Cell::Open);
        // At least one block of at least 3x3 was laid.
        assert!(course.obstacle_count() >= 9 - 2);
    }
}

#[test]
fn random_candidate_spreads_blocks_over_the_grid() {
    // Blocks are laid at random places: across several candidates some
    // obstacle lies outside the top-left block-sized corner.
    let mut far = false;
    for _ in 0..10 {
        let course = Course::random_candidate(50, 50);
        for y in 0..50 {
            for x in 0..50 {
                if (x >= MAX_BLOCK_SIZE || y >= MAX_BLOCK_SIZE) && course.cell(pos(x, y)) == Cell::Obstacle {
                    far = true;
                }
            }
        }
    }
    assert!(far);
}
