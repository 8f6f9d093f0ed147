//! The counts that fitness is computed from: how far an agent got towards
//! the goal, how quickly, how much it explored and how often it collided.

use crate::course::{Course, Position};
use crate::simulation::SimulationResult;
use vstd::prelude::*;

verus! {

/// Moves of a shortest walk from the goal to the square whose index is `j`,
/// or `None` when no walk from the goal reaches it.
pub open spec fn goal_distance_at(course: &Course, j: int) -> Option<nat> {
    let p = course.position_of(j);
    if course.reachable(course.goal, p) {
        Some(choose|d: nat| course.is_shortest_distance(course.goal, p, d))
    } else {
        None
    }
}

/// The goal distance of the square the path is on at step `i`.
pub open spec fn path_distance(course: &Course, path: Seq<Position>, i: int) -> Option<nat> {
    goal_distance_at(course, course.index_of(path[i]))
}

pub open spec fn option_nat(o: Option<usize>) -> Option<nat> {
    match o {
        Some(d) => Some(d as nat),
        None => None,
    }
}

/// `closest` is the least goal distance over `start_distance` and the
/// squares of `path` from which the goal can be reached.
pub open spec fn is_closest_distance(
    course: &Course,
    path: Seq<Position>,
    start_distance: nat,
    closest: nat,
) -> bool {
    &&& closest <= start_distance
    &&& forall|i: int|
        0 <= i < path.len() && (#[trigger] path_distance(course, path, i)) is Some ==> closest
            <= path_distance(course, path, i)->0
    &&& closest == start_distance || exists|i: int|
        0 <= i < path.len() && #[trigger] path_distance(course, path, i) == Some(closest)
}

/// `steps` is the first step at which the path came strictly closer to the
/// goal than the start, at the closest distance it ever came; 0 when it never
/// came closer than the start.
pub open spec fn is_steps_to_closest(
    course: &Course,
    path: Seq<Position>,
    start_distance: nat,
    closest: nat,
    steps: nat,
) -> bool {
    if closest == start_distance {
        steps == 0
    } else {
        &&& steps < path.len()
        &&& path_distance(course, path, steps as int) == Some(closest)
        &&& forall|i: int|
            0 <= i < steps ==> #[trigger] path_distance(course, path, i) != Some(closest)
    }
}

/// The set of row-major indices that `path` visits.
pub open spec fn visited_indices(course: &Course, path: Seq<Position>) -> Set<int> {
    Set::new(|j: int| exists|i: int| 0 <= i < path.len() && course.index_of(#[trigger] path[i]) == j)
}

/// How a path explored its course.
pub struct PathStats {
    /// Distinct squares visited.
    pub unique_cells: usize,
    /// Moves made: one fewer than the squares on the path (0 for an empty one).
    pub successful_moves: usize,
    /// Visits to squares already visited.
    pub revisits: usize,
}

/// The integer counts behind a fitness score.
pub struct FitnessCounts {
    /// Goal distance of the start less the closest goal distance reached.
    pub progress_cells: usize,
    /// Step at which that closest distance was first reached.
    pub steps_to_closest: usize,
    pub unique_cells: usize,
    pub successful_moves: usize,
    pub revisits: usize,
    pub collisions: usize,
    pub reached_goal: bool,
    pub steps: usize,
}

proof fn lemma_goal_distance(course: &Course, dist: Seq<usize>, j: int)
    requires
        course.wf(),
        course.distances_from(course.goal, dist),
        0 <= j < course.cells@.len(),
    ensures
        dist[j] == usize::MAX ==> goal_distance_at(course, j) is None,
        dist[j] != usize::MAX ==> goal_distance_at(course, j) == Some(dist[j] as nat),
{
    course.lemma_position_of(j);
    let p = course.position_of(j);
    assert(course.in_bounds(p));
    assert(dist[course.index_of(p)] == dist[j]);
    if dist[j] != usize::MAX {
        let w = choose|w: Seq<Position>| #[trigger] course.walk_between(w, course.goal, p) && w.len() == dist[j] + 1;
        assert(course.reachable(course.goal, p));
        let d = choose|d: nat| course.is_shortest_distance(course.goal, p, d);
        course.lemma_shortest_distance_unique(course.goal, p, d, dist[j] as nat);
    }
}

/// For every square, the moves of a shortest walk from the goal to it, or
/// `None` where no walk from the goal reaches it.
pub fn shortest_distances_to_goal(course: &Course) -> (distances: Vec<Option<usize>>)
    requires
        course.wf(),
        course.in_bounds(course.goal),
    ensures
        distances@.len() == course.cells@.len(),
        forall|j: int|
            0 <= j < distances@.len() ==> option_nat(#[trigger] distances@[j]) == goal_distance_at(
                course,
                j,
            ),
{
    let dist = course.search_from(course.goal);
    let mut distances: Vec<Option<usize>> = Vec::with_capacity(dist.len());
    let mut j: usize = 0;
    while j < dist.len()
        invariant
            course.wf(),
            course.distances_from(course.goal, dist@),
            dist@.len() == course.cells@.len(),
            j <= dist@.len(),
            distances@.len() == j,
            forall|k: int| 0 <= k < j ==> option_nat(#[trigger] distances@[k]) == goal_distance_at(course, k),
        decreases dist@.len() - j,
    {
        proof {
            lemma_goal_distance(course, dist@, j as int);
        }
        if dist[j] == usize::MAX {
            distances.push(None);
        } else {
            distances.push(Some(dist[j]));
        }
        j = j + 1;
    }
    distances
}

/// Counts the distinct squares a path visits (by row-major index) and its
/// revisits.
pub fn calculate_path_stats(path: &Vec<Position>, course: &Course) -> (stats: PathStats)
    requires
        course.wf(),
        forall|i: int| 0 <= i < path@.len() ==> course.index_of(#[trigger] path@[i]) < course.cells@.len(),
    ensures
        stats.unique_cells == visited_indices(course, path@).len(),
        visited_indices(course, path@).finite(),
        stats.unique_cells + stats.revisits == path@.len(),
        stats.successful_moves == if path@.len() == 0 { 0 } else { path@.len() - 1 },
{
    let n = course.cells.len();
    let mut visited: Vec<bool> = Vec::with_capacity(n);
    while visited.len() < n
        invariant
            visited@.len() <= n,
            forall|j: int| 0 <= j < visited@.len() ==> !visited@[j],
        decreases n - visited@.len(),
    {
        visited.push(false);
    }
    let mut unique_cells: usize = 0;
    let mut revisits: usize = 0;
    let ghost mut seen: Set<int> = Set::empty();
    let mut i: usize = 0;
    while i < path.len()
        invariant
            course.wf(),
            n == course.cells@.len(),
            visited@.len() == n,
            forall|k: int| 0 <= k < path@.len() ==> course.index_of(#[trigger] path@[k]) < course.cells@.len(),
            i <= path@.len(),
            seen == visited_indices(course, path@.take(i as int)),
            seen.finite(),
            seen.len() == unique_cells,
            unique_cells + revisits == i,
            forall|j: int| 0 <= j < n ==> (#[trigger] visited@[j] <==> seen.contains(j)),
        decreases path@.len() - i,
    {
        let position = path[i];
        assert(0 <= position.y * course.width) by (nonlinear_arith);
        let index = position.y * course.width + position.x;
        let ghost next = visited_indices(course, path@.take(i + 1));
        assert(next =~= seen.insert(index as int)) by {
            assert forall|j: int| next.contains(j) implies seen.insert(index as int).contains(j) by {
                let k = choose|k: int| 0 <= k < i + 1 && course.index_of(#[trigger] path@.take(i + 1)[k]) == j;
                if k < i {
                    assert(path@.take(i + 1)[k] == path@.take(i as int)[k]);
                }
            }
            assert forall|j: int| seen.insert(index as int).contains(j) implies next.contains(j) by {
                if j == index {
                    assert(path@.take(i + 1)[i as int] == position);
                } else {
                    let k = choose|k: int| 0 <= k < i && course.index_of(#[trigger] path@.take(i as int)[k]) == j;
                    assert(path@.take(i + 1)[k] == path@.take(i as int)[k]);
                }
            }
        }
        if visited[index] {
            revisits = revisits + 1;
        } else {
            visited.set(index, true);
            unique_cells = unique_cells + 1;
        }
        proof {
            seen = next;
        }
        i = i + 1;
    }
    assert(path@.take(i as int) == path@);
    let successful_moves = if path.len() == 0 { 0 } else { path.len() - 1 };
    PathStats { unique_cells, successful_moves, revisits }
}

/// Whether the grid holds one cell per square.
pub fn is_well_formed(course: &Course) -> (ok: bool)
    ensures
        ok == course.wf(),
{
    match course.width.checked_mul(course.height) {
        Some(n) => course.cells.len() == n,
        None => {
            proof {
                assert(course.cells@.len() <= usize::MAX) by {
                    let len = course.cells.len();
                }
            }
            false
        },
    }
}

/// Whether the goal lies on a well-formed grid and can be walked to from the
/// square at the start's row-major index.
pub fn start_reaches_goal(course: &Course) -> (ok: bool)
    ensures
        ok == {
            &&& course.wf()
            &&& course.in_bounds(course.goal)
            &&& course.index_of(course.start) < course.cells@.len()
            &&& goal_distance_at(course, course.index_of(course.start)) is Some
        },
{
    if !is_well_formed(course) || course.goal.x >= course.width || course.goal.y >= course.height {
        return false;
    }
    let n = course.cells.len();
    let start = course.start;
    match start.y.checked_mul(course.width) {
        None => {
            proof {
                assert(course.index_of(start) >= n) by (nonlinear_arith)
                    requires
                        start.y * course.width > usize::MAX,
                        n <= usize::MAX,
                        start.x >= 0;
            }
            false
        },
        Some(row) => match row.checked_add(start.x) {
            None => false,
            Some(index) => {
                if index >= n {
                    return false;
                }
                let distances = shortest_distances_to_goal(course);
                assert(option_nat(distances@[index as int]) == goal_distance_at(course, index as int));
                distances[index].is_some()
            },
        },
    }
}

/// Whether `measure` can take the counts of `result` on `course`: what it
/// requires, tested.
pub fn is_measurable(result: &SimulationResult, course: &Course) -> (ok: bool)
    ensures
        ok == {
            &&& course.wf()
            &&& course.in_bounds(course.goal)
            &&& course.index_of(course.start) < course.cells@.len()
            &&& goal_distance_at(course, course.index_of(course.start)) is Some
            &&& forall|i: int|
                0 <= i < result.path@.len() ==> course.index_of(#[trigger] result.path@[i])
                    < course.cells@.len()
        },
{
    if !start_reaches_goal(course) {
        return false;
    }
    let n = course.cells.len();
    let mut i: usize = 0;
    while i < result.path.len()
        invariant
            n == course.cells@.len(),
            i <= result.path@.len(),
            forall|k: int| 0 <= k < i ==> course.index_of(#[trigger] result.path@[k]) < n,
        decreases result.path@.len() - i,
    {
        let p = result.path[i];
        let ok = match p.y.checked_mul(course.width) {
            None => {
                proof {
                    assert(course.index_of(p) >= n) by (nonlinear_arith)
                        requires
                            p.y * course.width > usize::MAX,
                            n <= usize::MAX,
                            p.x >= 0;
                }
                false
            },
            Some(row) => match row.checked_add(p.x) {
                None => false,
                Some(index) => index < n,
            },
        };
        if !ok {
            return false;
        }
        i = i + 1;
    }
    true
}

/// The counts that fitness is built from, for `result` on `course`: how many
/// squares of goal distance the run gained over the start, at which step it
/// first stood closest to the goal, how it explored, and how it ended.
pub fn measure(result: &SimulationResult, course: &Course) -> (counts: FitnessCounts)
    requires
        course.wf(),
        course.in_bounds(course.goal),
        course.index_of(course.start) < course.cells@.len(),
        goal_distance_at(course, course.index_of(course.start)) is Some,
        forall|i: int|
            0 <= i < result.path@.len() ==> course.index_of(#[trigger] result.path@[i])
                < course.cells@.len(),
    ensures
        ({
            let sd = goal_distance_at(course, course.index_of(course.start))->0;
            let closest = sd - counts.progress_cells;
            &&& counts.progress_cells <= sd
            &&& is_closest_distance(course, result.path@, sd, closest as nat)
            &&& is_steps_to_closest(course, result.path@, sd, closest as nat, counts.steps_to_closest as nat)
        }),
        counts.unique_cells == visited_indices(course, result.path@).len(),
        counts.unique_cells + counts.revisits == result.path@.len(),
        counts.successful_moves == if result.path@.len() == 0 {
            0
        } else {
            result.path@.len() - 1
        },
        counts.collisions == result.collisions,
        counts.reached_goal == result.reached_goal,
        counts.steps == result.steps,
{
    let distances_to_goal = shortest_distances_to_goal(course);
    let n = course.cells.len();
    assert(0 <= course.start.y * course.width) by (nonlinear_arith);
    let start_index = course.start.y * course.width + course.start.x;
    let start_distance = match distances_to_goal[start_index] {
        Some(d) => d,
        None => {
            proof {
                assert(option_nat(distances_to_goal@[start_index as int]) == goal_distance_at(course, start_index as int));
            }
            0
        },
    };
    assert(option_nat(distances_to_goal@[start_index as int]) == goal_distance_at(course, start_index as int));
    let ghost sd = start_distance as nat;
    let ghost path = result.path@;
    let mut closest_distance = start_distance;
    let mut steps_to_closest: usize = 0;
    let mut step: usize = 0;
    while step < result.path.len()
        invariant
            course.wf(),
            n == course.cells@.len(),
            path == result.path@,
            distances_to_goal@.len() == course.cells@.len(),
            forall|j: int|
                0 <= j < distances_to_goal@.len() ==> option_nat(#[trigger] distances_to_goal@[j])
                    == goal_distance_at(course, j),
            forall|i: int| 0 <= i < path.len() ==> course.index_of(#[trigger] path[i]) < course.cells@.len(),
            step <= path.len(),
            sd == start_distance,
            is_closest_distance(course, path.take(step as int), sd, closest_distance as nat),
            is_steps_to_closest(course, path.take(step as int), sd, closest_distance as nat, steps_to_closest as nat),
        decreases path.len() - step,
    {
        let position = result.path[step];
        assert(0 <= position.y * course.width) by (nonlinear_arith);
        let index = position.y * course.width + position.x;
        let ghost pre = path.take(step as int);
        let ghost next = path.take(step + 1);
        assert forall|i: int| 0 <= i < step implies #[trigger] path_distance(course, next, i) == path_distance(course, pre, i) by {
            assert(next[i] == pre[i]);
        }
        assert(path_distance(course, next, step as int) == goal_distance_at(course, index as int)) by {
            assert(next[step as int] == position);
        }
        assert(option_nat(distances_to_goal@[index as int]) == goal_distance_at(course, index as int));
        let old_closest = closest_distance;
        match distances_to_goal[index] {
            Some(distance) => {
                if distance < closest_distance {
                    closest_distance = distance;
                    steps_to_closest = step;
                }
            },
            None => {},
        }
        proof {
            assert forall|i: int|
                0 <= i < next.len() && (#[trigger] path_distance(course, next, i)) is Some implies closest_distance
                    <= path_distance(course, next, i)->0 by {
                if i < step {
                    assert(path_distance(course, pre, i) is Some);
                }
            }
            if closest_distance != sd {
                if closest_distance == old_closest {
                    let i = choose|i: int| 0 <= i < pre.len() && #[trigger] path_distance(course, pre, i) == Some(closest_distance as nat);
                    assert(path_distance(course, next, i) == Some(closest_distance as nat));
                } else {
                    assert(path_distance(course, next, step as int) == Some(closest_distance as nat));
                }
            }
            if closest_distance != sd && closest_distance != old_closest {
                assert forall|i: int| 0 <= i < steps_to_closest implies #[trigger] path_distance(course, next, i) != Some(closest_distance as nat) by {
                    if path_distance(course, pre, i) is Some {
                        assert(old_closest <= path_distance(course, pre, i)->0);
                    }
                }
            }
            if closest_distance != sd && closest_distance == old_closest {
                assert(path_distance(course, next, steps_to_closest as int) == path_distance(course, pre, steps_to_closest as int));
            }
        }
        step = step + 1;
    }
    assert(path.take(step as int) == path);
    let progress_cells = start_distance - closest_distance;
    let path_stats = calculate_path_stats(&result.path, course);
    FitnessCounts {
        progress_cells,
        steps_to_closest,
        unique_cells: path_stats.unique_cells,
        successful_moves: path_stats.successful_moves,
        revisits: path_stats.revisits,
        collisions: result.collisions,
        reached_goal: result.reached_goal,
        steps: result.steps,
    }
}

/// A path that ends on the goal has come all the way: the closest goal
/// distance it reached is 0, so its progress equals the start's distance.
pub proof fn law_reaching_goal_is_full_progress(
    course: &Course,
    path: Seq<Position>,
    start_distance: nat,
    closest: nat,
)
    requires
        course.wf(),
        course.in_bounds(course.goal),
        path.len() >= 1,
        path[path.len() - 1] == course.goal,
        is_closest_distance(course, path, start_distance, closest),
    ensures
        closest == 0,
{
    let goal = course.goal;
    course.lemma_index_in_range(goal);
    let j = course.index_of(goal);
    course.lemma_position_of(j);
    course.lemma_index_injective(course.position_of(j), goal);
    let w = seq![goal];
    assert(course.walk_between(w, goal, goal));
    assert(course.is_shortest_distance(goal, goal, 0));
    assert(course.reachable(goal, goal));
    let d = choose|d: nat| course.is_shortest_distance(goal, goal, d);
    course.lemma_shortest_distance_unique(goal, goal, d, 0);
    assert(path_distance(course, path, path.len() - 1) == Some(0nat));
}

/// `goal_distance_at` is a shortest distance: where it is `Some(d)`, `d`
/// moves is the length of a shortest walk from the goal to the square, and
/// it is `None` exactly where no walk from the goal reaches the square.
pub proof fn law_goal_distance_is_shortest(course: &Course, j: int)
    ensures
        goal_distance_at(course, j) is None <==> !course.reachable(course.goal, course.position_of(j)),
        goal_distance_at(course, j) matches Some(d) ==> course.is_shortest_distance(
            course.goal,
            course.position_of(j),
            d,
        ),
{
    let p = course.position_of(j);
    if course.reachable(course.goal, p) {
        course.law_reachable_has_shortest_distance(course.goal, p);
    }
}

} // verus!
