use course_evolver::evolution::{plan_next_generation, rank_positions, selection_counts, Origin};
use course_evolver::history::{group_by_individual, solved_course_count, total_courses_solved, ResultKey};
use course_evolver::viewer::{next_index, previous_index, Selection};

#[test]
fn selection_counts_clamp_the_raw_shares() {
    let c = selection_counts(20, 1, 6, 2);
    assert_eq!((c.elite_count, c.parent_pool_size, c.immigrant_count, c.child_target), (1, 6, 2, 18));
    let c = selection_counts(3, 0, 9, 5);
    assert_eq!((c.elite_count, c.parent_pool_size, c.immigrant_count, c.child_target), (1, 3, 2, 1));
    let c = selection_counts(1, 1, 1, 1);
    assert_eq!((c.elite_count, c.parent_pool_size, c.immigrant_count, c.child_target), (1, 1, 0, 1));
}

#[test]
fn rank_positions_find_first_matching_individual() {
    let population = vec![5u64, 9, 2, 9];
    let ranked = vec![9u64, 2, 5];
    assert_eq!(rank_positions(&population, &ranked), vec![1, 2, 0]);
}

#[test]
fn plan_keeps_elites_then_children_then_immigrants() {
    let counts = selection_counts(10, 2, 3, 1);
    let plan = plan_next_generation(&counts, 100);
    assert_eq!(plan.len(), 10);
    assert_eq!(plan[0], Origin::Elite { rank: 0 });
    assert_eq!(plan[1], Origin::Elite { rank: 1 });
    for (i, origin) in plan.iter().enumerate().skip(2).take(7) {
        match origin {
            Origin::Child { parent_rank, id } => {
                assert!(*parent_rank < 3);
                assert_eq!(*id, 100 + (i as u64 - 2));
            }
            _ => panic!("expected a child"),
        }
    }
    assert_eq!(plan[9], Origin::Immigrant { id: 107 });
}

#[test]
fn plan_children_draw_from_the_whole_parent_pool() {
    let counts = selection_counts(200, 1, 50, 0);
    let plan = plan_next_generation(&counts, 0);
    let mut ranks: Vec<usize> = plan
        .iter()
        .filter_map(|o| match o {
            Origin::Child { parent_rank, .. } => Some(*parent_rank),
            _ => None,
        })
        .collect();
    ranks.sort();
    ranks.dedup();
    assert!(ranks.len() > 1);
}

#[test]
fn next_and_previous_wrap_around() {
    assert_eq!(next_index(4, 5), 0);
    assert_eq!(previous_index(0, 5), 4);
    assert_eq!(previous_index(next_index(2, 5), 5), 2);
    assert_eq!(next_index(previous_index(0, 5), 5), 0);
}

#[test]
fn selection_moves_through_courses_and_restarts_playback() {
    let mut s = Selection::new();
    assert!(s.playing);
    s.playback_index = 7;
    s.toggle_playing();
    assert!(!s.playing);
    assert!(s.select_previous_course(3));
    assert_eq!(s.selected_course, 2);
    assert_eq!(s.playback_index, 0);
    assert!(s.playing);
    assert!(s.select_next_course(3));
    assert_eq!(s.selected_course, 0);
    assert!(!s.select_next_course(0));
    assert_eq!(s.selected_course, 0);
}

#[test]
fn selection_of_generations_and_best() {
    let mut s = Selection::new();
    assert_eq!(s.select_previous_generation(3), 2);
    assert_eq!(s.select_next_generation(3), 0);
    assert!(s.select_best(Some(4), Some(2)));
    assert_eq!(s.selected_individual, Some(4));
    assert_eq!(s.selected_course, 2);
    s.playback_index = 3;
    assert!(!s.select_best(None, Some(1)));
    assert_eq!(s.selected_course, 0);
    assert_eq!(s.playback_index, 3);
    s.select_next_individual(2);
    assert_eq!(s.selected_individual, Some(1));
    s.select_previous_individual(2);
    assert_eq!(s.selected_individual, Some(0));
}

#[test]
fn playback_advances_to_the_end_then_stops() {
    let mut s = Selection::new();
    assert!(s.advance_playback(3));
    assert!(s.advance_playback(3));
    assert_eq!(s.playback_index, 2);
    assert!(!s.advance_playback(3));
    assert!(!s.playing);
    s.playback_index = 10;
    s.clamp_playback(4);
    assert_eq!(s.playback_index, 3);
}

#[test]
fn grouping_orders_individuals_and_courses() {
    let keys = vec![
        ResultKey { individual_id: 9, course_index: 1 },
        ResultKey { individual_id: 3, course_index: 2 },
        ResultKey { individual_id: 9, course_index: 0 },
        ResultKey { individual_id: 3, course_index: 0 },
        ResultKey { individual_id: 3, course_index: 2 },
        ResultKey { individual_id: 5, course_index: 0 },
    ];
    let groups = group_by_individual(&keys);
    let ids: Vec<u64> = groups.iter().map(|g| g.individual_id).collect();
    assert_eq!(ids, vec![3, 5, 9]);
    assert_eq!(groups[0].members, vec![3, 1, 4]);
    assert_eq!(groups[1].members, vec![5]);
    assert_eq!(groups[2].members, vec![2, 0]);
}

#[test]
fn grouping_of_nothing_is_empty() {
    assert!(group_by_individual(&Vec::new()).is_empty());
}

#[test]
fn solved_courses_are_counted_and_summed() {
    assert_eq!(solved_course_count(&vec![true, false, true, true]), 3);
    assert_eq!(solved_course_count(&Vec::new()), 0);
    assert_eq!(total_courses_solved(&vec![3, 0, 2]), 5);
    assert_eq!(total_courses_solved(&Vec::new()), 0);
}
