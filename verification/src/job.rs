//! One unit of work: one individual's policy on one course.

use std::sync::Arc;

use crate::course::Course;
use crate::fitness::{
    start_reaches_goal,
    goal_distance_at, is_closest_distance, is_steps_to_closest, measure, visited_indices, FitnessCounts,
};
use crate::policy::Policy;
use crate::simulation::{is_policy_run, Agent, Simulation, SimulationResult};
use vstd::prelude::*;

verus! {

pub struct Job<P: Policy> {
    pub id: u64,
    pub generation: usize,
    pub individual_id: u64,
    pub course_index: usize,
    pub course: Arc<Course>,
    pub policy: P,
    pub max_steps: usize,
}

/// What running a job produced, before fitness weights are applied.
pub struct JobOutcome {
    pub job_id: u64,
    pub generation: usize,
    pub individual_id: u64,
    pub course_index: usize,
    pub course: Arc<Course>,
    pub simulation: SimulationResult,
    pub counts: FitnessCounts,
}

impl<P: Policy> Job<P> {
    pub fn new(
        id: u64,
        generation: usize,
        individual_id: u64,
        course_index: usize,
        course: Arc<Course>,
        policy: P,
        max_steps: usize,
    ) -> (job: Self)
        ensures
            job.id == id,
            job.generation == generation,
            job.individual_id == individual_id,
            job.course_index == course_index,
            job.course == course,
            job.max_steps == max_steps,
            job.policy == policy,
    {
        Job { id, generation, individual_id, course_index, course, policy, max_steps }
    }

    /// The course is one a job can run on: a well-formed grid whose start
    /// and goal lie on it, with the start reachable from the goal.
    pub open spec fn runnable(&self) -> bool {
        let course = *self.course;
        &&& course.wf()
        &&& course.in_bounds(course.start)
        &&& course.in_bounds(course.goal)
        &&& goal_distance_at(&course, course.index_of(course.start)) is Some
    }

    /// Whether the job can run: what `run` requires, tested.
    pub fn is_runnable(&self) -> (ok: bool)
        ensures
            ok == self.runnable(),
    {
        let course: &Course = &self.course;
        if course.start.x < course.width && course.start.y < course.height {
            proof {
                if course.wf() {
                    course.lemma_index_in_range(course.start);
                }
            }
            start_reaches_goal(course)
        } else {
            false
        }
    }

    /// Runs the policy on the course until the run finishes, and measures
    /// the path it took.
    pub fn run(self) -> (outcome: JobOutcome)
        requires
            self.runnable(),
        ensures
            outcome.job_id == self.id,
            outcome.generation == self.generation,
            outcome.individual_id == self.individual_id,
            outcome.course_index == self.course_index,
            outcome.course == self.course,
            outcome.simulation.steps <= self.max_steps,
            outcome.simulation.path@.len() >= 1,
            outcome.simulation.path@[0] == self.course.start,
            self.course.walk_between(outcome.simulation.path@, self.course.start, outcome.simulation.path@.last()),
            outcome.simulation.steps == outcome.simulation.collisions + (outcome.simulation.path@.len() - 1),
            outcome.simulation.reached_goal ==> outcome.simulation.path@.last() == self.course.goal,
            outcome.simulation.path@.last() == self.course.goal ==> outcome.simulation.reached_goal,
            !outcome.simulation.reached_goal ==> outcome.simulation.steps == self.max_steps,
            exists|agents: Seq<Agent>, policies: Seq<P>|
                {
                    &&& #[trigger] is_policy_run(*self.course, agents, policies)
                    &&& agents[0].position == self.course.start
                    &&& agents[0].path@ == seq![self.course.start]
                    &&& agents[0].collisions == 0
                    &&& agents[0].previous_action == None::<crate::policy::Action>
                    &&& !agents[0].previous_action_succeeded
                    &&& policies[0] == self.policy
                    &&& agents[agents.len() - 1].path@ == outcome.simulation.path@
                    &&& agents[agents.len() - 1].collisions == outcome.simulation.collisions
                    &&& agents.len() == outcome.simulation.steps + 1
                },
            outcome.counts.steps == outcome.simulation.steps,
            outcome.counts.collisions == outcome.simulation.collisions,
            outcome.counts.reached_goal == outcome.simulation.reached_goal,
            outcome.counts.successful_moves + outcome.counts.collisions == outcome.counts.steps,
            outcome.counts.successful_moves == outcome.simulation.path@.len() - 1,
            outcome.counts.unique_cells == visited_indices(&*self.course, outcome.simulation.path@).len(),
            outcome.counts.unique_cells + outcome.counts.revisits == outcome.simulation.path@.len(),
            ({
                let course = *self.course;
                let sd = goal_distance_at(&course, course.index_of(course.start))->0;
                let closest = sd - outcome.counts.progress_cells;
                &&& outcome.counts.progress_cells <= sd
                &&& is_closest_distance(&course, outcome.simulation.path@, sd, closest as nat)
                &&& is_steps_to_closest(
                    &course,
                    outcome.simulation.path@,
                    sd,
                    closest as nat,
                    outcome.counts.steps_to_closest as nat,
                )
            }),
    {
        let mut simulation = Simulation::new(self.course, self.policy, self.max_steps);
        let ghost before = simulation;
        simulation.run_to_completion();
        let ghost (agents, policies) = choose|agents: Seq<Agent>, policies: Seq<P>|
            {
                &&& #[trigger] is_policy_run(*before.course, agents, policies)
                &&& agents[0] == before.agent
                &&& policies[0] == before.policy
                &&& agents[agents.len() - 1] == simulation.agent
                &&& agents.len() == simulation.steps - before.steps + 1
            };
        assert(is_policy_run(*self.course, agents, policies));
        let simulation_result = simulation.result();
        proof {
            crate::simulation::law_path_stays_on_course(&simulation);
        }
        let counts = measure(&simulation_result, &simulation.course);
        JobOutcome {
            job_id: self.id,
            generation: self.generation,
            individual_id: self.individual_id,
            course_index: self.course_index,
            course: simulation.course,
            simulation: simulation_result,
            counts,
        }
    }
}

} // verus!
