//! What the viewer has selected: a generation, an individual in it, one of
//! that individual's courses, and how far the playback of its path has got.

use vstd::prelude::*;

verus! {

/// The index before `current` among `count` items, wrapping from the first
/// to the last.
pub open spec fn previous_index_spec(current: nat, count: nat) -> nat {
    if current == 0 {
        (count - 1) as nat
    } else {
        (current - 1) as nat
    }
}

/// The index after `current` among `count` items, wrapping from the last to
/// the first.
pub open spec fn next_index_spec(current: nat, count: nat) -> nat {
    (current + 1) % count
}

pub fn previous_index(current: usize, count: usize) -> (index: usize)
    requires
        count >= 1,
    ensures
        index == previous_index_spec(current as nat, count as nat),
        0 < current ==> index == current - 1,
        current == 0 ==> index == count - 1,
{
    if current == 0 {
        count - 1
    } else {
        current - 1
    }
}

pub fn next_index(current: usize, count: usize) -> (index: usize)
    requires
        count >= 1,
        current < usize::MAX,
    ensures
        index == next_index_spec(current as nat, count as nat),
        current + 1 < count ==> index == current + 1,
        current + 1 == count ==> index == 0,
        index < count,
{
    proof {
        if current + 1 <= count {
            law_index_steps(current as nat, count as nat);
        }
    }
    (current + 1) % count
}

/// Among `count` items, the next index after `current` is the one above it,
/// or the first after the last; the previous index is the one below it, or
/// the last before the first.
pub proof fn law_index_steps(current: nat, count: nat)
    requires
        current < count,
    ensures
        current + 1 < count ==> next_index_spec(current, count) == current + 1,
        current + 1 == count ==> next_index_spec(current, count) == 0,
        0 < current ==> previous_index_spec(current, count) == current - 1,
        current == 0 ==> previous_index_spec(current, count) == count - 1,
{
    if current + 1 < count {
        vstd::arithmetic::div_mod::lemma_small_mod((current + 1) as nat, count);
    } else {
        vstd::arithmetic::div_mod::lemma_mod_self_0(count as int);
    }
}

/// Stepping back and then forward, or forward and then back, returns to the
/// same index, and both stay among the `count` items.
pub proof fn law_previous_next_inverse(current: nat, count: nat)
    requires
        current < count,
    ensures
        previous_index_spec(current, count) < count,
        next_index_spec(current, count) < count,
        next_index_spec(previous_index_spec(current, count), count) == current,
        previous_index_spec(next_index_spec(current, count), count) == current,
{
    if current + 1 == count {
        assert((current + 1) % count == 0) by {
            vstd::arithmetic::div_mod::lemma_mod_self_0(count as int);
        }
    } else {
        vstd::arithmetic::div_mod::lemma_small_mod((current + 1) as nat, count);
    }
    if current == 0 {
        vstd::arithmetic::div_mod::lemma_mod_self_0(count as int);
    } else {
        vstd::arithmetic::div_mod::lemma_small_mod(current, count);
    }
}

pub struct Selection {
    pub selected_generation: Option<usize>,
    pub selected_individual: Option<usize>,
    pub selected_course: usize,
    pub playback_index: usize,
    pub playing: bool,
}

impl Selection {
    /// Nothing selected; playback at the beginning and running.
    pub fn new() -> (selection: Self)
        ensures
            selection.selected_generation == None::<usize>,
            selection.selected_individual == None::<usize>,
            selection.selected_course == 0,
            selection.playback_index == 0,
            selection.playing,
    {
        Selection {
            selected_generation: None,
            selected_individual: None,
            selected_course: 0,
            playback_index: 0,
            playing: true,
        }
    }

    /// Playback back to the first square, and running.
    pub fn restart_playback(&mut self)
        ensures
            final(self).playback_index == 0,
            final(self).playing,
            final(self).selected_generation == old(self).selected_generation,
            final(self).selected_individual == old(self).selected_individual,
            final(self).selected_course == old(self).selected_course,
    {
        self.playback_index = 0;
        self.playing = true;
    }

    /// Selects the generation before the current one (the first when none
    /// is selected), wrapping around; returns it.
    pub fn select_previous_generation(&mut self, generation_count: usize) -> (selected: usize)
        requires
            generation_count >= 1,
        ensures
            selected == previous_index_spec(
                match old(self).selected_generation {
                    Some(g) => g as nat,
                    None => 0,
                },
                generation_count as nat,
            ),
            final(self).selected_generation == Some(selected),
            final(self).selected_individual == old(self).selected_individual,
            final(self).selected_course == old(self).selected_course,
            final(self).playback_index == old(self).playback_index,
            final(self).playing == old(self).playing,
    {
        let current = match self.selected_generation {
            Some(g) => g,
            None => 0,
        };
        let next = previous_index(current, generation_count);
        self.selected_generation = Some(next);
        next
    }

    /// Selects the generation after the current one (the first when none is
    /// selected), wrapping around; returns it.
    pub fn select_next_generation(&mut self, generation_count: usize) -> (selected: usize)
        requires
            generation_count >= 1,
            old(self).selected_generation matches Some(g) ==> g < usize::MAX,
        ensures
            selected == next_index_spec(
                match old(self).selected_generation {
                    Some(g) => g as nat,
                    None => 0,
                },
                generation_count as nat,
            ),
            final(self).selected_generation == Some(selected),
            final(self).selected_individual == old(self).selected_individual,
            final(self).selected_course == old(self).selected_course,
            final(self).playback_index == old(self).playback_index,
            final(self).playing == old(self).playing,
    {
        let current = match self.selected_generation {
            Some(g) => g,
            None => 0,
        };
        let next = next_index(current, generation_count);
        self.selected_generation = Some(next);
        next
    }

    /// Selects the individual before the current one, wrapping around, and
    /// restarts playback; the selected course stays, so that one course can
    /// be compared across individuals.
    pub fn select_previous_individual(&mut self, individual_count: usize)
        requires
            individual_count >= 1,
        ensures
            final(self).selected_individual == Some(
                previous_index_spec(
                    match old(self).selected_individual {
                        Some(i) => i as nat,
                        None => 0,
                    },
                    individual_count as nat,
                ) as usize,
            ),
            final(self).selected_generation == old(self).selected_generation,
            final(self).selected_course == old(self).selected_course,
            final(self).playback_index == 0,
            final(self).playing,
    {
        let current = match self.selected_individual {
            Some(i) => i,
            None => 0,
        };
        self.selected_individual = Some(previous_index(current, individual_count));
        self.restart_playback();
    }

    /// Selects the individual after the current one, wrapping around, and
    /// restarts playback; the selected course stays.
    pub fn select_next_individual(&mut self, individual_count: usize)
        requires
            individual_count >= 1,
            old(self).selected_individual matches Some(i) ==> i < usize::MAX,
        ensures
            final(self).selected_individual == Some(
                next_index_spec(
                    match old(self).selected_individual {
                        Some(i) => i as nat,
                        None => 0,
                    },
                    individual_count as nat,
                ) as usize,
            ),
            final(self).selected_generation == old(self).selected_generation,
            final(self).selected_course == old(self).selected_course,
            final(self).playback_index == 0,
            final(self).playing,
    {
        let current = match self.selected_individual {
            Some(i) => i,
            None => 0,
        };
        self.selected_individual = Some(next_index(current, individual_count));
        self.restart_playback();
    }

    /// Selects the best individual of a generation and that individual's
    /// best course (the first when it has none); with no best individual the
    /// course goes back to the first and playback is left alone. Returns
    /// whether playback restarted.
    pub fn select_best(&mut self, best_individual: Option<usize>, best_course: Option<usize>) -> (restarted: bool)
        ensures
            restarted == best_individual is Some,
            final(self).selected_individual == best_individual,
            final(self).selected_generation == old(self).selected_generation,
            final(self).selected_course == match (best_individual, best_course) {
                (Some(_), Some(c)) => c,
                _ => 0,
            },
            restarted ==> final(self).playback_index == 0 && final(self).playing,
            !restarted ==> final(self).playback_index == old(self).playback_index
                && final(self).playing == old(self).playing,
    {
        self.selected_individual = best_individual;
        match best_individual {
            None => {
                self.selected_course = 0;
                false
            },
            Some(_) => {
                self.selected_course = match best_course {
                    Some(c) => c,
                    None => 0,
                };
                self.restart_playback();
                true
            },
        }
    }

    /// Selects the course before the current one, wrapping around, and
    /// restarts playback; nothing happens when there are no courses.
    /// Returns whether playback restarted.
    pub fn select_previous_course(&mut self, course_count: usize) -> (restarted: bool)
        ensures
            restarted == (course_count != 0),
            final(self).selected_generation == old(self).selected_generation,
            final(self).selected_individual == old(self).selected_individual,
            course_count == 0 ==> *final(self) == *old(self),
            course_count != 0 ==> {
                &&& final(self).selected_course == previous_index_spec(
                    old(self).selected_course as nat,
                    course_count as nat,
                )
                &&& final(self).playback_index == 0
                &&& final(self).playing
            },
    {
        if course_count == 0 {
            return false;
        }
        self.selected_course = previous_index(self.selected_course, course_count);
        self.restart_playback();
        true
    }

    /// Selects the course after the current one, wrapping around, and
    /// restarts playback; nothing happens when there are no courses.
    /// Returns whether playback restarted.
    pub fn select_next_course(&mut self, course_count: usize) -> (restarted: bool)
        requires
            old(self).selected_course < usize::MAX,
        ensures
            restarted == (course_count != 0),
            final(self).selected_generation == old(self).selected_generation,
            final(self).selected_individual == old(self).selected_individual,
            course_count == 0 ==> *final(self) == *old(self),
            course_count != 0 ==> {
                &&& final(self).selected_course == next_index_spec(
                    old(self).selected_course as nat,
                    course_count as nat,
                )
                &&& final(self).playback_index == 0
                &&& final(self).playing
            },
    {
        if course_count == 0 {
            return false;
        }
        self.selected_course = next_index(self.selected_course, course_count);
        self.restart_playback();
        true
    }

    /// The course to show among `course_count`: the selected one, or the
    /// last when the selection lies beyond them.
    pub fn shown_course(&self, course_count: usize) -> (index: usize)
        requires
            course_count >= 1,
        ensures
            index == if self.selected_course < course_count {
                self.selected_course as int
            } else {
                course_count - 1
            },
    {
        if self.selected_course < course_count {
            self.selected_course
        } else {
            course_count - 1
        }
    }

    /// Pauses a running playback and resumes a paused one.
    pub fn toggle_playing(&mut self)
        ensures
            final(self).playing == !old(self).playing,
            final(self).playback_index == old(self).playback_index,
            final(self).selected_generation == old(self).selected_generation,
            final(self).selected_individual == old(self).selected_individual,
            final(self).selected_course == old(self).selected_course,
    {
        self.playing = !self.playing;
    }

    /// Pulls the playback position back onto the last square of a path of
    /// `path_length` squares when it lies beyond it.
    pub fn clamp_playback(&mut self, path_length: usize)
        requires
            path_length >= 1,
        ensures
            final(self).playback_index == if old(self).playback_index >= path_length {
                (path_length - 1) as usize
            } else {
                old(self).playback_index
            },
            final(self).playing == old(self).playing,
            final(self).selected_generation == old(self).selected_generation,
            final(self).selected_individual == old(self).selected_individual,
            final(self).selected_course == old(self).selected_course,
    {
        if self.playback_index >= path_length {
            self.playback_index = path_length - 1;
        }
    }

    /// Moves playback one square along a path of `path_length` squares; at
    /// the last square it stops playing instead. Returns whether it moved.
    pub fn advance_playback(&mut self, path_length: usize) -> (advanced: bool)
        requires
            old(self).playback_index < usize::MAX,
        ensures
            advanced == (old(self).playback_index + 1 < path_length),
            advanced ==> final(self).playback_index == old(self).playback_index + 1
                && final(self).playing == old(self).playing,
            !advanced ==> final(self).playback_index == old(self).playback_index
                && !final(self).playing,
            final(self).selected_generation == old(self).selected_generation,
            final(self).selected_individual == old(self).selected_individual,
            final(self).selected_course == old(self).selected_course,
    {
        if self.playback_index + 1 >= path_length {
            self.playing = false;
            false
        } else {
            self.playback_index = self.playback_index + 1;
            true
        }
    }
}


/// The keys pressed in one frame that move the selection or the playback.
#[derive(Clone, Copy, Debug, PartialEq, Eq, Structural)]
pub struct KeyPresses {
    pub previous_generation: bool,
    pub next_generation: bool,
    pub previous_individual: bool,
    pub next_individual: bool,
    pub best: bool,
    pub previous_course: bool,
    pub next_course: bool,
    pub toggle_playing: bool,
    pub restart: bool,
}

/// What the viewer needs of one individual's results: the index of its best
/// course and the length of the path it took on each course.
pub struct IndividualShape {
    pub best_course: Option<usize>,
    pub path_lengths: Vec<usize>,
}

/// What the viewer needs of one generation: the index of its best
/// individual and the shape of each individual's results.
pub struct GenerationShape {
    pub best_individual: Option<usize>,
    pub individuals: Vec<IndividualShape>,
}

/// How a frame's update of the selection ended.
#[derive(Clone, Copy, Debug, PartialEq, Eq, Structural)]
pub enum Frame {
    /// The history is empty; nothing is selected.
    Empty,
    /// The selected generation has no individuals; no individual is
    /// selected. `reset` says whether playback was restarted on the way.
    NoIndividuals { reset: bool },
    /// The selected course does not exist for the selected individual.
    MissingCourse,
    /// A generation, an individual and one of its courses are selected.
    /// `reset` says whether playback was restarted on the way.
    Showing { reset: bool },
}

/// What one frame of playback did.
#[derive(Clone, Copy, Debug, PartialEq, Eq, Structural)]
pub enum Playback {
    /// Nothing plays: the path is empty or playback is paused.
    Idle,
    /// Playback moved by all the whole steps the frame earned.
    Advanced,
    /// Playback reached the last square of the path before using up the
    /// frame's steps, and stopped there.
    Stopped,
}

/// Each best index points at an individual or course that exists, and is
/// there exactly when there is something to choose from.
pub open spec fn well_shaped(history: Seq<GenerationShape>) -> bool {
    forall|g: int| 0 <= g < history.len() ==> generation_shaped(#[trigger] history[g])
}

/// The best indices of one generation, and of each of its individuals,
/// point at what exists, and are there exactly when there is something to
/// choose from.
pub open spec fn generation_shaped(generation: GenerationShape) -> bool {
    &&& generation.individuals@.len() <= usize::MAX
    &&& (generation.best_individual is Some) == (generation.individuals@.len() > 0)
    &&& generation.best_individual matches Some(i) ==> i < generation.individuals@.len()
    &&& forall|i: int|
        0 <= i < generation.individuals@.len() ==> {
            &&& (#[trigger] generation.individuals@[i]).path_lengths@.len() <= usize::MAX
            &&& (generation.individuals@[i].best_course is Some) == (
            generation.individuals@[i].path_lengths@.len() > 0)
            &&& generation.individuals@[i].best_course matches Some(c) ==> c
                < generation.individuals@[i].path_lengths@.len()
        }
}

/// The number of courses of individual `i` of generation `g`.
pub open spec fn course_count(history: Seq<GenerationShape>, g: int, i: int) -> nat {
    history[g].individuals@[i].path_lengths@.len()
}

/// Within each generation every individual ran the same number of courses,
/// and at least one.
pub open spec fn even_courses(history: Seq<GenerationShape>) -> bool {
    &&& forall|g: int, i: int|
        0 <= g < history.len() && 0 <= i < history[g].individuals@.len() ==> #[trigger] course_count(
            history,
            g,
            i,
        ) >= 1
    &&& forall|g: int, i: int, j: int|
        0 <= g < history.len() && 0 <= i < history[g].individuals@.len() && 0 <= j
            < history[g].individuals@.len() ==> #[trigger] course_count(history, g, i)
            == #[trigger] course_count(history, g, j)
}

impl Selection {
    /// The selected generation and individual exist in `history`.
    pub open spec fn fits(&self, history: Seq<GenerationShape>) -> bool {
        &&& self.selected_generation matches Some(g) ==> g < history.len()
        &&& (self.selected_generation, self.selected_individual) matches (Some(g), Some(i)) ==> i
            < history[g as int].individuals@.len()
        &&& self.selected_course < usize::MAX
    }

    /// When a generation and an individual are selected, both exist in
    /// `history` and so does the selected course of that individual.
    pub open spec fn course_fits(&self, history: Seq<GenerationShape>) -> bool {
        (self.selected_generation, self.selected_individual) matches (Some(g), Some(i)) ==> {
            &&& g < history.len()
            &&& i < history[g as int].individuals@.len()
            &&& self.selected_course < course_count(history, g as int, i as int)
        }
    }

    /// A generation, an individual and a course of it are selected, and all
    /// three exist in `history`.
    pub open spec fn shows(&self, history: Seq<GenerationShape>) -> bool {
        &&& self.fits(history)
        &&& self.selected_generation is Some
        &&& self.selected_individual is Some
        &&& self.selected_course < course_count(
            history,
            self.selected_generation->0 as int,
            self.selected_individual->0 as int,
        )
    }
}

/// `s` with the best individual of `generation` and that individual's best
/// course selected (course 0 without one); playback restarts when there is a
/// best individual.
pub open spec fn with_best(s: Selection, generation: GenerationShape) -> Selection {
    match generation.best_individual {
        None => Selection { selected_individual: None, selected_course: 0, ..s },
        Some(i) => Selection {
            selected_individual: Some(i),
            selected_course: match generation.individuals@[i as int].best_course {
                Some(c) => c,
                None => 0,
            },
            playback_index: 0,
            playing: true,
            ..s
        },
    }
}

/// `s` with generation `g` selected, then its best individual.
pub open spec fn in_generation(s: Selection, history: Seq<GenerationShape>, g: nat) -> Selection {
    with_best(Selection { selected_generation: Some(g as usize), ..s }, history[g as int])
}

/// The selected generation's index, 0 when none is selected.
pub open spec fn generation_or_first(s: Selection) -> nat {
    match s.selected_generation {
        Some(g) => g as nat,
        None => 0,
    }
}

/// The selected individual's index, 0 when none is selected.
pub open spec fn individual_or_first(s: Selection) -> nat {
    match s.selected_individual {
        Some(i) => i as nat,
        None => 0,
    }
}

/// The generation keys on a non-empty history: with no generation selected
/// the first is, with its best individual; then the previous and the next
/// generation keys, in that order, each selecting the best individual of
/// the generation reached. The flag says whether playback restarted.
pub open spec fn after_generation_keys(
    s: Selection,
    history: Seq<GenerationShape>,
    keys: KeyPresses,
) -> (Selection, bool) {
    let n = history.len();
    let s1 = if s.selected_generation is None { in_generation(s, history, 0) } else { s };
    let r1 = s.selected_generation is None && history[0].best_individual is Some;
    let g2 = previous_index_spec(generation_or_first(s1), n);
    let s2 = if keys.previous_generation { in_generation(s1, history, g2) } else { s1 };
    let r2 = r1 || (keys.previous_generation && history[g2 as int].best_individual is Some);
    let g3 = next_index_spec(generation_or_first(s2), n);
    let s3 = if keys.next_generation { in_generation(s2, history, g3) } else { s2 };
    let r3 = r2 || (keys.next_generation && history[g3 as int].best_individual is Some);
    (s3, r3)
}

/// The individual keys within a generation that has individuals: with no
/// individual selected its best is; then previous, next and best, in that
/// order. Moving to another individual keeps the course and restarts
/// playback. The flag says whether playback restarted.
pub open spec fn after_individual_keys(s: Selection, generation: GenerationShape, keys: KeyPresses) -> (
    Selection,
    bool,
) {
    let n = generation.individuals@.len();
    let s1 = if s.selected_individual is None { with_best(s, generation) } else { s };
    let r1 = s.selected_individual is None && generation.best_individual is Some;
    let s2 = if keys.previous_individual {
        Selection {
            selected_individual: Some(previous_index_spec(individual_or_first(s1), n) as usize),
            playback_index: 0,
            playing: true,
            ..s1
        }
    } else {
        s1
    };
    let s3 = if keys.next_individual {
        Selection {
            selected_individual: Some(next_index_spec(individual_or_first(s2), n) as usize),
            playback_index: 0,
            playing: true,
            ..s2
        }
    } else {
        s2
    };
    let s4 = if keys.best { with_best(s3, generation) } else { s3 };
    let r4 = r1 || keys.previous_individual || keys.next_individual || (keys.best
        && generation.best_individual is Some);
    (s4, r4)
}

/// The course and playback keys for an individual with `count` courses:
/// previous and next course (nothing when there are no courses), pause or
/// resume, and restart, in that order. The flag says whether playback
/// restarted.
pub open spec fn after_course_keys(s: Selection, count: nat, keys: KeyPresses) -> (Selection, bool) {
    let moves = count != 0;
    let s1 = if keys.previous_course && moves {
        Selection {
            selected_course: previous_index_spec(s.selected_course as nat, count) as usize,
            playback_index: 0,
            playing: true,
            ..s
        }
    } else {
        s
    };
    let s2 = if keys.next_course && moves {
        Selection {
            selected_course: next_index_spec(s1.selected_course as nat, count) as usize,
            playback_index: 0,
            playing: true,
            ..s1
        }
    } else {
        s1
    };
    let s3 = if keys.toggle_playing { Selection { playing: !s2.playing, ..s2 } } else { s2 };
    let s4 = if keys.restart { Selection { playback_index: 0, playing: true, ..s3 } } else { s3 };
    (s4, ((keys.previous_course || keys.next_course) && moves) || keys.restart)
}

impl Selection {
    /// Selects the best individual of `generation` and that individual's
    /// best course; returns whether playback restarted.
    fn select_best_of(&mut self, generation: &GenerationShape) -> (restarted: bool)
        requires
            generation_shaped(*generation),
        ensures
            *final(self) == with_best(*old(self), *generation),
            restarted == generation.best_individual is Some,
            final(self).selected_course < usize::MAX,
            final(self).selected_individual matches Some(i) ==> i < generation.individuals@.len(),
    {
        let best_course = match generation.best_individual {
            Some(i) => {
                let individual = &generation.individuals[i];
                let count = individual.path_lengths.len();
                assert(individual.best_course matches Some(c) ==> c < count);
                individual.best_course
            },
            None => None,
        };
        self.select_best(generation.best_individual, best_course)
    }

    /// The generation keys of one frame on a non-empty history.
    fn apply_generation_keys(&mut self, history: &Vec<GenerationShape>, keys: KeyPresses) -> (reset: bool)
        requires
            history@.len() > 0,
            well_shaped(history@),
            old(self).fits(history@),
        ensures
            (*final(self), reset) == after_generation_keys(*old(self), history@, keys),
            final(self).fits(history@),
            final(self).selected_generation is Some,
    {
        let n = history.len();
        let mut reset = false;
        if self.selected_generation.is_none() {
            self.selected_generation = Some(0);
            reset = self.select_best_of(&history[0]);
        }
        if keys.previous_generation {
            let g = self.select_previous_generation(n);
            let restarted = self.select_best_of(&history[g]);
            reset = reset || restarted;
        }
        if keys.next_generation {
            let g = self.select_next_generation(n);
            let restarted = self.select_best_of(&history[g]);
            reset = reset || restarted;
        }
        reset
    }

    /// The individual keys of one frame within a generation that has
    /// individuals.
    fn apply_individual_keys(&mut self, generation: &GenerationShape, keys: KeyPresses) -> (moved: bool)
        requires
            generation.individuals@.len() > 0,
            generation_shaped(*generation),
            old(self).selected_individual matches Some(i) ==> i < generation.individuals@.len(),
            old(self).selected_course < usize::MAX,
        ensures
            (*final(self), moved) == after_individual_keys(*old(self), *generation, keys),
            final(self).selected_individual matches Some(i) && i < generation.individuals@.len(),
            final(self).selected_course < usize::MAX,
    {
        let m = generation.individuals.len();
        let mut moved = false;
        if self.selected_individual.is_none() {
            moved = self.select_best_of(generation);
        }
        if keys.previous_individual {
            self.select_previous_individual(m);
            moved = true;
        }
        if keys.next_individual {
            self.select_next_individual(m);
            moved = true;
        }
        if keys.best {
            let restarted = self.select_best_of(generation);
            moved = moved || restarted;
        }
        moved
    }

    /// The course and playback keys of one frame for an individual with
    /// `count` courses.
    fn apply_course_keys(&mut self, count: usize, keys: KeyPresses) -> (restarted: bool)
        requires
            old(self).selected_course < usize::MAX,
        ensures
            (*final(self), restarted) == after_course_keys(*old(self), count as nat, keys),
            final(self).selected_course < usize::MAX,
    {
        let mut restarted = false;
        if keys.previous_course {
            restarted = self.select_previous_course(count);
        }
        if keys.next_course {
            let again = self.select_next_course(count);
            restarted = restarted || again;
        }
        if keys.toggle_playing {
            self.toggle_playing();
        }
        if keys.restart {
            self.restart_playback();
            restarted = true;
        }
        restarted
    }

    /// One frame's update of the selection from the keys pressed, on the
    /// history as it stands. An empty history clears the selection.
    /// Otherwise the generation keys are applied, then, when the selected
    /// generation has individuals, the individual keys, and then the course
    /// and playback keys for the selected individual (see
    /// `after_generation_keys`, `after_individual_keys` and
    /// `after_course_keys`). The result says how the frame ended and whether
    /// playback restarted; whenever it shows a course, the generation, the
    /// individual and the course all exist.
    pub fn update(&mut self, history: &Vec<GenerationShape>, keys: KeyPresses) -> (frame: Frame)
        requires
            well_shaped(history@),
            old(self).fits(history@),
        ensures
            history@.len() == 0 ==> frame == Frame::Empty && *final(self) == (Selection {
                selected_generation: None,
                selected_individual: None,
                ..*old(self)
            }),
            history@.len() > 0 ==> {
                let (s1, r1) = after_generation_keys(*old(self), history@, keys);
                let g = s1.selected_generation->0 as int;
                if history@[g].individuals@.len() == 0 {
                    &&& frame == (Frame::NoIndividuals { reset: r1 })
                    &&& *final(self) == (Selection { selected_individual: None, ..s1 })
                } else {
                    let (s2, r2) = after_individual_keys(s1, history@[g], keys);
                    let i = s2.selected_individual->0 as int;
                    let (s3, r3) = after_course_keys(s2, course_count(history@, g, i), keys);
                    &&& *final(self) == s3
                    &&& frame == if s3.selected_course < course_count(history@, g, i) {
                        Frame::Showing { reset: r1 || r2 || r3 }
                    } else {
                        Frame::MissingCourse
                    }
                }
            },
            frame != Frame::MissingCourse ==> final(self).fits(history@),
            frame is Showing ==> final(self).shows(history@),
            history@.len() > 0 && even_courses(history@) && old(self).course_fits(history@) ==> {
                &&& frame != Frame::MissingCourse
                &&& final(self).selected_generation is Some
                &&& old(self).selected_generation is None && !keys.previous_generation
                    && !keys.next_generation ==> final(self).selected_generation == Some(0usize)
                &&& (frame is Showing) == (final(self).selected_individual is Some)
                &&& final(self).course_fits(history@)
            },
    {
        let n = history.len();
        if n == 0 {
            self.selected_generation = None;
            self.selected_individual = None;
            return Frame::Empty;
        }
        proof {
            if even_courses(history@) && self.course_fits(history@) {
                law_update_keeps_course_in_range(*self, history@, keys);
            }
        }
        let reset = self.apply_generation_keys(history, keys);
        let g = match self.selected_generation {
            Some(g) => g,
            None => 0,
        };
        let generation = &history[g];
        if generation.individuals.len() == 0 {
            self.selected_individual = None;
            return Frame::NoIndividuals { reset };
        }
        let moved = self.apply_individual_keys(generation, keys);
        let i = match self.selected_individual {
            Some(i) => i,
            None => 0,
        };
        let count = generation.individuals[i].path_lengths.len();
        let restarted = self.apply_course_keys(count, keys);
        if self.selected_course < count {
            Frame::Showing { reset: reset || moved || restarted }
        } else {
            Frame::MissingCourse
        }
    }

    /// One frame of playback along a path of `path_length` squares, where
    /// `whole_steps` is the whole number of squares the frame has earned.
    /// Nothing happens on an empty path. Otherwise playback is first pulled
    /// back onto the path; a paused playback stays there; a running one
    /// moves on by `whole_steps` squares, or, when fewer are left, stops on
    /// the last square.
    pub fn play(&mut self, path_length: usize, whole_steps: usize) -> (playback: Playback)
        ensures
            final(self).selected_generation == old(self).selected_generation,
            final(self).selected_individual == old(self).selected_individual,
            final(self).selected_course == old(self).selected_course,
            path_length == 0 ==> playback == Playback::Idle && *final(self) == *old(self),
            path_length > 0 ==> {
                let start = if old(self).playback_index < path_length {
                    old(self).playback_index as int
                } else {
                    path_length - 1
                };
                let left = path_length - 1 - start;
                &&& !old(self).playing ==> playback == Playback::Idle && final(self).playback_index
                    == start && !final(self).playing
                &&& old(self).playing && whole_steps <= left ==> playback == Playback::Advanced
                    && final(self).playback_index == start + whole_steps && final(self).playing
                &&& old(self).playing && whole_steps > left ==> playback == Playback::Stopped
                    && final(self).playback_index == path_length - 1 && !final(self).playing
            },
            path_length > 0 ==> final(self).playback_index < path_length,
    {
        if path_length == 0 {
            return Playback::Idle;
        }
        self.clamp_playback(path_length);
        if !self.playing {
            return Playback::Idle;
        }
        let ghost start = self.playback_index as int;
        let mut k: usize = 0;
        while k < whole_steps
            invariant
                0 <= start < path_length,
                start == if old(self).playback_index < path_length {
                    old(self).playback_index as int
                } else {
                    path_length - 1
                },
                old(self).playing,
                k <= whole_steps,
                start + k < path_length,
                self.playback_index == start + k,
                self.playing,
                self.selected_generation == old(self).selected_generation,
                self.selected_individual == old(self).selected_individual,
                self.selected_course == old(self).selected_course,
            decreases whole_steps - k,
        {
            if !self.advance_playback(path_length) {
                return Playback::Stopped;
            }
            k = k + 1;
        }
        Playback::Advanced
    }
}

/// Whether every generation of `history` is well shaped: what `update`
/// requires of it, tested.
pub fn is_well_shaped(history: &Vec<GenerationShape>) -> (ok: bool)
    ensures
        ok == well_shaped(history@),
{
    let mut g: usize = 0;
    while g < history.len()
        invariant
            g <= history@.len(),
            forall|k: int| 0 <= k < g ==> generation_shaped(#[trigger] history@[k]),
        decreases history@.len() - g,
    {
        if !is_generation_shaped(&history[g]) {
            return false;
        }
        g = g + 1;
    }
    true
}

/// Whether one generation is well shaped.
fn is_generation_shaped(generation: &GenerationShape) -> (ok: bool)
    ensures
        ok == generation_shaped(*generation),
{
    let n = generation.individuals.len();
    match generation.best_individual {
        None => {
            if n > 0 {
                return false;
            }
        },
        Some(i) => {
            if i >= n {
                return false;
            }
        },
    }
    let mut i: usize = 0;
    while i < n
        invariant
            n == generation.individuals@.len(),
            i <= n,
            forall|k: int|
                0 <= k < i ==> {
                    &&& (#[trigger] generation.individuals@[k]).path_lengths@.len() <= usize::MAX
                    &&& (generation.individuals@[k].best_course is Some) == (
                    generation.individuals@[k].path_lengths@.len() > 0)
                    &&& generation.individuals@[k].best_course matches Some(c) ==> c
                        < generation.individuals@[k].path_lengths@.len()
                },
        decreases n - i,
    {
        let individual = &generation.individuals[i];
        let count = individual.path_lengths.len();
        match individual.best_course {
            None => {
                if count > 0 {
                    return false;
                }
            },
            Some(c) => {
                if c >= count {
                    return false;
                }
            },
        }
        i = i + 1;
    }
    true
}

impl Selection {
    /// Whether the selection fits `history`: what `update` requires of it,
    /// tested.
    pub fn fits_history(&self, history: &Vec<GenerationShape>) -> (ok: bool)
        ensures
            ok == self.fits(history@),
    {
        if self.selected_course == usize::MAX {
            return false;
        }
        match self.selected_generation {
            None => true,
            Some(g) => {
                if g >= history.len() {
                    false
                } else {
                    match self.selected_individual {
                        None => true,
                        Some(i) => i < history[g].individuals.len(),
                    }
                }
            },
        }
    }
}

/// A selection that fits a history still fits it once more generations are
/// appended.
pub proof fn law_fits_longer_history(
    selection: Selection,
    history: Seq<GenerationShape>,
    more: Seq<GenerationShape>,
)
    requires
        selection.fits(history),
    ensures
        selection.fits(history + more),
{
    if let Some(g) = selection.selected_generation {
        assert((history + more)[g as int] == history[g as int]);
    }
}

/// Selecting the best individual of generation `g` selects one that exists,
/// whenever the generation has any, with a course it ran.
proof fn lemma_best_fits(s: Selection, history: Seq<GenerationShape>, g: int)
    requires
        well_shaped(history),
        even_courses(history),
        0 <= g < history.len(),
    ensures
        ({
            let t = with_best(s, history[g]);
            &&& t.selected_individual matches Some(i) ==> i < history[g].individuals@.len()
                && t.selected_course < course_count(history, g, i as int)
            &&& history[g].individuals@.len() > 0 ==> t.selected_individual is Some
            &&& t.selected_generation == s.selected_generation
        }),
{
    assert(generation_shaped(history[g]));
    if let Some(i) = history[g].best_individual {
        assert(course_count(history, g, i as int) >= 1);
        assert(history[g].individuals@[i as int].best_course is Some);
    }
}

/// The generation keys end on a generation that exists, and keep the
/// selected course among those of the selected individual.
proof fn lemma_generation_keys_fit(s: Selection, history: Seq<GenerationShape>, keys: KeyPresses)
    requires
        well_shaped(history),
        even_courses(history),
        0 < history.len() <= usize::MAX,
        s.fits(history),
        s.course_fits(history),
    ensures
        ({
            let s1 = after_generation_keys(s, history, keys).0;
            &&& s1.selected_generation is Some
            &&& s1.selected_generation->0 < history.len()
            &&& s.selected_generation is None && !keys.previous_generation && !keys.next_generation
                ==> s1.selected_generation == Some(0usize)
            &&& s1.course_fits(history)
            &&& history[s1.selected_generation->0 as int].individuals@.len() > 0
                ==> s1.selected_individual is Some || s1.selected_generation == s.selected_generation
        }),
{
    let n = history.len();
    let a = if s.selected_generation is None { in_generation(s, history, 0) } else { s };
    if s.selected_generation is None {
        lemma_best_fits(Selection { selected_generation: Some(0usize), ..s }, history, 0);
    }
    let g2 = previous_index_spec(generation_or_first(a), n);
    let b = if keys.previous_generation { in_generation(a, history, g2) } else { a };
    if keys.previous_generation {
        lemma_best_fits(Selection { selected_generation: Some(g2 as usize), ..a }, history, g2 as int);
    }
    let g3 = next_index_spec(generation_or_first(b), n);
    if keys.next_generation {
        vstd::arithmetic::div_mod::lemma_mod_bound((generation_or_first(b) + 1) as int, n as int);
        lemma_best_fits(Selection { selected_generation: Some(g3 as usize), ..b }, history, g3 as int);
    }
}

/// Within a generation that has individuals, the individual keys end on one
/// of them, and keep the selected course among those it ran.
proof fn lemma_individual_keys_fit(s1: Selection, history: Seq<GenerationShape>, g: int, keys: KeyPresses)
    requires
        well_shaped(history),
        even_courses(history),
        0 <= g < history.len() <= usize::MAX,
        s1.selected_generation == Some(g as usize),
        history[g].individuals@.len() > 0,
        s1.course_fits(history),
    ensures
        ({
            let s2 = after_individual_keys(s1, history[g], keys).0;
            let i = s2.selected_individual->0 as int;
            &&& s2.selected_individual is Some
            &&& 0 <= i < history[g].individuals@.len()
            &&& s2.selected_course < course_count(history, g, i)
        }),
{
    let generation = history[g];
    assert(generation_shaped(generation));
    let m = generation.individuals@.len();
    let c1 = if s1.selected_individual is None { with_best(s1, generation) } else { s1 };
    if s1.selected_individual is None {
        lemma_best_fits(s1, history, g);
    }
    let i1 = individual_or_first(c1);
    assert(c1.selected_individual is Some);
    assert(i1 < m);
    assert(c1.selected_course < course_count(history, g, i1 as int));
    let p = previous_index_spec(i1, m);
    assert(p < m);
    assert(course_count(history, g, p as int) == course_count(history, g, i1 as int));
    let c2 = if keys.previous_individual {
        Selection { selected_individual: Some(p as usize), playback_index: 0, playing: true, ..c1 }
    } else {
        c1
    };
    let i2 = individual_or_first(c2);
    assert(i2 < m);
    assert(c2.selected_course < course_count(history, g, i2 as int));
    let q = next_index_spec(i2, m);
    vstd::arithmetic::div_mod::lemma_mod_bound((i2 + 1) as int, m as int);
    assert(course_count(history, g, q as int) == course_count(history, g, i2 as int));
    let c3 = if keys.next_individual {
        Selection { selected_individual: Some(q as usize), playback_index: 0, playing: true, ..c2 }
    } else {
        c2
    };
    if keys.best {
        lemma_best_fits(c3, history, g);
    }
}

/// The course keys keep the selected course among the `count` an individual
/// ran.
proof fn lemma_course_keys_fit(s2: Selection, count: nat, keys: KeyPresses)
    requires
        s2.selected_course < count <= usize::MAX,
    ensures
        after_course_keys(s2, count, keys).0.selected_course < count,
        after_course_keys(s2, count, keys).0.selected_individual == s2.selected_individual,
        after_course_keys(s2, count, keys).0.selected_generation == s2.selected_generation,
{
    let d1 = if keys.previous_course { previous_index_spec(s2.selected_course as nat, count) } else {
        s2.selected_course as nat
    };
    vstd::arithmetic::div_mod::lemma_mod_bound((d1 + 1) as int, count as int);
}

/// On a history whose generations each give all their individuals the same
/// number of courses (at least one), a frame's keys always end on a
/// generation that exists (the first, when none was selected and no
/// generation key was pressed), and, when it has individuals, on one of them
/// and on a course it ran, provided the selection it starts from fits.
pub proof fn law_update_keeps_course_in_range(s: Selection, history: Seq<GenerationShape>, keys: KeyPresses)
    requires
        well_shaped(history),
        even_courses(history),
        0 < history.len() <= usize::MAX,
        s.fits(history),
        s.course_fits(history),
    ensures
        ({
            let s1 = after_generation_keys(s, history, keys).0;
            let g = s1.selected_generation->0 as int;
            &&& s1.selected_generation is Some
            &&& 0 <= g < history.len()
            &&& s.selected_generation is None && !keys.previous_generation && !keys.next_generation
                ==> g == 0
            &&& history[g].individuals@.len() > 0 ==> {
                let s2 = after_individual_keys(s1, history[g], keys).0;
                let i = s2.selected_individual->0 as int;
                let s3 = after_course_keys(s2, course_count(history, g, i), keys).0;
                &&& s2.selected_individual is Some
                &&& 0 <= i < history[g].individuals@.len()
                &&& s3.selected_individual == s2.selected_individual
                &&& s3.selected_generation == s1.selected_generation
                &&& s3.selected_course < course_count(history, g, i)
            }
        }),
{
    lemma_generation_keys_fit(s, history, keys);
    let s1 = after_generation_keys(s, history, keys).0;
    let g = s1.selected_generation->0 as int;
    if history[g].individuals@.len() > 0 {
        lemma_individual_keys_fit(s1, history, g, keys);
        let s2 = after_individual_keys(s1, history[g], keys).0;
        let i = s2.selected_individual->0 as int;
        assert(generation_shaped(history[g]));
        lemma_course_keys_fit(s2, course_count(history, g, i), keys);
    }
}

} // verus!
