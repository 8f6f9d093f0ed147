use course_evolver::viewer::{is_well_shaped, Frame, GenerationShape, IndividualShape, KeyPresses, Playback, Selection};

fn no_keys() -> KeyPresses {
    KeyPresses {
        previous_generation: false,
        next_generation: false,
        previous_individual: false,
        next_individual: false,
        best: false,
        previous_course: false,
        next_course: false,
        toggle_playing: false,
        restart: false,
    }
}

fn individual(best_course: usize, path_lengths: &[usize]) -> IndividualShape {
    IndividualShape { best_course: Some(best_course), path_lengths: path_lengths.to_vec() }
}

/// Two generations: the first with three individuals of two courses each
/// (the best is individual 1, best on course 1), the second empty.
fn history() -> Vec<GenerationShape> {
    vec![
        GenerationShape {
            best_individual: Some(1),
            individuals: vec![individual(0, &[5, 6]), individual(1, &[7, 8]), individual(0, &[9, 4])],
        },
        GenerationShape { best_individual: None, individuals: vec![] },
    ]
}

#[test]
fn update_on_an_empty_history_clears_the_selection() {
    let mut s = Selection::new();
    s.selected_generation = Some(3);
    s.selected_individual = Some(2);
    assert_eq!(s.update(&Vec::new(), no_keys()), Frame::Empty);
    assert_eq!(s.selected_generation, None);
    assert_eq!(s.selected_individual, None);
}

#[test]
fn first_update_selects_the_best_of_the_first_generation() {
    let h = history();
    let mut s = Selection::new();
    s.playback_index = 4;
    assert_eq!(s.update(&h, no_keys()), Frame::Showing { reset: true });
    assert_eq!(s.selected_generation, Some(0));
    assert_eq!(s.selected_individual, Some(1));
    assert_eq!(s.selected_course, 1);
    assert_eq!(s.playback_index, 0);
    // A second frame with no keys changes nothing.
    assert_eq!(s.update(&h, no_keys()), Frame::Showing { reset: false });
    assert_eq!(s.selected_individual, Some(1));
}

#[test]
fn individual_keys_keep_the_course_and_restart_playback() {
    let h = history();
    let mut s = Selection::new();
    s.update(&h, no_keys());
    s.playback_index = 3;
    s.playing = false;
    let keys = KeyPresses { next_individual: true, ..no_keys() };
    assert_eq!(s.update(&h, keys), Frame::Showing { reset: true });
    assert_eq!(s.selected_individual, Some(2));
    assert_eq!(s.selected_course, 1);
    assert_eq!(s.playback_index, 0);
    assert!(s.playing);
    // Right then Left in one frame comes back; B then picks the best again.
    let keys = KeyPresses { next_individual: true, previous_individual: true, best: true, ..no_keys() };
    s.update(&h, keys);
    assert_eq!(s.selected_individual, Some(1));
}

#[test]
fn generation_keys_wrap_and_reach_an_empty_generation() {
    let h = history();
    let mut s = Selection::new();
    s.update(&h, no_keys());
    let keys = KeyPresses { previous_generation: true, ..no_keys() };
    assert_eq!(s.update(&h, keys), Frame::NoIndividuals { reset: false });
    assert_eq!(s.selected_generation, Some(1));
    assert_eq!(s.selected_individual, None);
    let keys = KeyPresses { next_generation: true, ..no_keys() };
    assert_eq!(s.update(&h, keys), Frame::Showing { reset: true });
    assert_eq!(s.selected_generation, Some(0));
    assert_eq!(s.selected_individual, Some(1));
}

#[test]
fn course_and_playback_keys_act_in_order() {
    let h = history();
    let mut s = Selection::new();
    s.update(&h, no_keys());
    s.playback_index = 2;
    let keys = KeyPresses { previous_course: true, toggle_playing: true, ..no_keys() };
    assert_eq!(s.update(&h, keys), Frame::Showing { reset: true });
    assert_eq!(s.selected_course, 0);
    assert_eq!(s.playback_index, 0);
    assert!(!s.playing);
    s.playback_index = 5;
    let keys = KeyPresses { restart: true, ..no_keys() };
    assert_eq!(s.update(&h, keys), Frame::Showing { reset: true });
    assert_eq!(s.playback_index, 0);
    assert!(s.playing);
}

#[test]
fn a_course_missing_for_the_next_individual_is_reported() {
    let h = vec![GenerationShape {
        best_individual: Some(0),
        individuals: vec![individual(2, &[3, 3, 3]), individual(0, &[3])],
    }];
    let mut s = Selection::new();
    assert_eq!(s.update(&h, no_keys()), Frame::Showing { reset: true });
    assert_eq!(s.selected_course, 2);
    let keys = KeyPresses { next_individual: true, ..no_keys() };
    assert_eq!(s.update(&h, keys), Frame::MissingCourse);
}

#[test]
fn shapes_and_selections_are_checked() {
    assert!(is_well_shaped(&history()));
    let bad = vec![GenerationShape { best_individual: Some(3), individuals: vec![individual(0, &[1])] }];
    assert!(!is_well_shaped(&bad));
    let no_best = vec![GenerationShape { best_individual: None, individuals: vec![individual(0, &[1])] }];
    assert!(!is_well_shaped(&no_best));
    let mut s = Selection::new();
    assert!(s.fits_history(&history()));
    s.selected_generation = Some(2);
    assert!(!s.fits_history(&history()));
    s.selected_generation = Some(0);
    s.selected_individual = Some(3);
    assert!(!s.fits_history(&history()));
}

#[test]
fn play_moves_by_whole_steps_and_stops_at_the_end() {
    let mut s = Selection::new();
    assert_eq!(s.play(5, 3), Playback::Advanced);
    assert_eq!(s.playback_index, 3);
    assert_eq!(s.play(5, 1), Playback::Advanced);
    assert_eq!(s.playback_index, 4);
    assert!(s.playing);
    assert_eq!(s.play(5, 1), Playback::Stopped);
    assert_eq!(s.playback_index, 4);
    assert!(!s.playing);
    assert_eq!(s.play(5, 2), Playback::Idle);

    let mut s = Selection::new();
    s.playback_index = 9;
    assert_eq!(s.play(4, 0), Playback::Advanced);
    assert_eq!(s.playback_index, 3);
    assert_eq!(s.play(0, 7), Playback::Idle);
    assert_eq!(s.playback_index, 3);

    let mut s = Selection::new();
    assert_eq!(s.play(3, 10), Playback::Stopped);
    assert_eq!(s.playback_index, 2);
}

#[test]
fn shown_course_falls_back_to_the_last() {
    let mut s = Selection::new();
    s.selected_course = 1;
    assert_eq!(s.shown_course(3), 1);
    s.selected_course = 5;
    assert_eq!(s.shown_course(3), 2);
    assert_eq!(s.shown_course(1), 0);
}

#[test]
fn keys_on_even_courses_never_lose_the_course() {
    // Every individual of the first generation ran two courses.
    let h = history();
    let mut s = Selection::new();
    let presses = [
        KeyPresses { next_course: true, ..no_keys() },
        KeyPresses { next_individual: true, previous_course: true, ..no_keys() },
        KeyPresses { previous_generation: true, ..no_keys() },
        KeyPresses { next_generation: true, next_individual: true, next_course: true, ..no_keys() },
        KeyPresses { previous_individual: true, best: true, restart: true, ..no_keys() },
    ];
    for keys in presses {
        let frame = s.update(&h, keys);
        assert_ne!(frame, Frame::MissingCourse);
        assert!(s.selected_generation.is_some());
        if let Frame::Showing { .. } = frame {
            let g = s.selected_generation.unwrap();
            let i = s.selected_individual.unwrap();
            assert!(s.selected_course < h[g].individuals[i].path_lengths.len());
        } else {
            assert_eq!(s.selected_individual, None);
        }
    }
}
