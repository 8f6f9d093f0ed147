//! One agent walking one course under one policy.

use std::sync::Arc;

use crate::course::{adjacent, Course, Position};
use crate::fitness::FitnessCounts;
use crate::policy::{Action, Policy};
use vstd::prelude::*;

verus! {

/// Where the agent is, where it has been, and how its last move went.
pub struct Agent {
    pub position: Position,
    /// Every square the agent has stood on, in order, starting square first;
    /// a failed move adds nothing.
    pub path: Vec<Position>,
    pub collisions: usize,
    pub previous_action: Option<Action>,
    pub previous_action_succeeded: bool,
}

impl Agent {
    /// An agent standing on `start` that has not moved yet.
    pub fn new(start: Position) -> (agent: Self)
        ensures
            agent.position == start,
            agent.path@ == seq![start],
            agent.collisions == 0,
            agent.previous_action == None::<Action>,
            !agent.previous_action_succeeded,
    {
        let mut path: Vec<Position> = Vec::new();
        path.push(start);
        Agent {
            position: start,
            path,
            collisions: 0,
            previous_action: None,
            previous_action_succeeded: false,
        }
    }
}

/// The square one move away in the direction of `action`, if it lies in the
/// grid's rows and columns.
pub open spec fn target_of(course: Course, position: Position, action: Action) -> Option<Position> {
    match action {
        Action::Up => if position.y == 0 {
            None
        } else {
            Some(Position { x: position.x, y: (position.y - 1) as usize })
        },
        Action::Down => if position.y + 1 >= course.height {
            None
        } else {
            Some(Position { x: position.x, y: (position.y + 1) as usize })
        },
        Action::Left => if position.x == 0 {
            None
        } else {
            Some(Position { x: (position.x - 1) as usize, y: position.y })
        },
        Action::Right => if position.x + 1 >= course.width {
            None
        } else {
            Some(Position { x: (position.x + 1) as usize, y: position.y })
        },
    }
}

/// What an agent looks like after trying `action` once on `course`: it moves
/// when the target square is walkable, and collides otherwise.
pub open spec fn agent_moved(before: &Agent, after: &Agent, course: Course, action: Action) -> bool {
    let target = target_of(course, before.position, action);
    let moved = target is Some && course.walkable(target->0);
    &&& after.previous_action == Some(action)
    &&& after.previous_action_succeeded == moved
    &&& if moved {
        &&& after.position == target->0
        &&& after.path@ == before.path@.push(target->0)
        &&& after.collisions == before.collisions
    } else {
        &&& after.position == before.position
        &&& after.path@ == before.path@
        &&& after.collisions == before.collisions + 1
    }
}

/// `agents` is a run of the policies `policies` on `course`: each agent
/// state is the one before it after trying the action that the policy of
/// that moment picks when shown the course, where the agent stands, and its
/// previous action and whether it moved; and each policy state is the one
/// before it after making that pick.
pub open spec fn is_policy_run<P: Policy>(course: Course, agents: Seq<Agent>, policies: Seq<P>) -> bool {
    &&& agents.len() >= 1
    &&& policies.len() == agents.len()
    &&& forall|k: int|
        #![trigger agents[k], policies[k]]
        0 <= k < agents.len() - 1 ==> {
            &&& agent_moved(
                &agents[k],
                &agents[k + 1],
                course,
                policies[k].chosen(
                    course,
                    agents[k].position,
                    agents[k].previous_action,
                    agents[k].previous_action_succeeded,
                ),
            )
            &&& policies[k + 1] == policies[k].after(
                course,
                agents[k].position,
                agents[k].previous_action,
                agents[k].previous_action_succeeded,
            )
        }
}

/// The result of one finished (or stopped) simulation.
pub struct SimulationResult {
    pub reached_goal: bool,
    pub steps: usize,
    pub collisions: usize,
    pub path: Vec<Position>,
}

pub struct Simulation<P: Policy> {
    pub course: Arc<Course>,
    pub policy: P,
    pub agent: Agent,
    pub steps: usize,
    pub max_steps: usize,
    pub finished: bool,
    pub reached_goal: bool,
}

impl<P: Policy> Simulation<P> {
    /// What holds of every simulation between steps: the path is a walk on
    /// the course from its start to the agent, every step either moved the
    /// agent or collided, at most `max_steps` steps were taken, and the run
    /// counts as reached exactly when it finished on the goal.
    pub open spec fn wf(&self) -> bool {
        let course = *self.course;
        &&& course.wf()
        &&& self.agent.position.x < usize::MAX
        &&& self.agent.position.y < usize::MAX
        &&& self.agent.path@.len() >= 1
        &&& course.walk_between(self.agent.path@, course.start, self.agent.position)
        &&& self.steps == self.agent.collisions + (self.agent.path@.len() - 1)
        &&& self.steps <= self.max_steps
        &&& (self.reached_goal ==> self.finished)
        &&& (self.finished ==> (self.reached_goal <==> self.agent.position == course.goal))
        &&& (self.finished && !self.reached_goal ==> self.steps >= self.max_steps)
        &&& (self.agent.previous_action is None <==> self.steps == 0)
    }

    /// A fresh run: the agent on the start, nothing taken yet.
    pub fn new(course: Arc<Course>, policy: P, max_steps: usize) -> (simulation: Self)
        requires
            course.wf(),
            course.start.x < usize::MAX,
            course.start.y < usize::MAX,
        ensures
            simulation.wf(),
            simulation.course == course,
            simulation.policy == policy,
            simulation.agent.position == course.start,
            simulation.agent.path@ == seq![course.start],
            simulation.agent.collisions == 0,
            simulation.agent.previous_action == None::<Action>,
            !simulation.agent.previous_action_succeeded,
            simulation.steps == 0,
            simulation.max_steps == max_steps,
            !simulation.finished,
            !simulation.reached_goal,
    {
        let start = course.start;
        let simulation = Simulation {
            course,
            policy,
            agent: Agent::new(start),
            steps: 0,
            max_steps,
            finished: false,
            reached_goal: false,
        };
        assert(simulation.course.walk_between(simulation.agent.path@, start, start));
        simulation
    }

    /// Advances the run by one step: a finished run stays as it is; an agent
    /// on the goal, or one out of steps, finishes; otherwise the policy picks
    /// an action and the agent tries it.
    pub fn step(&mut self)
        requires
            old(self).wf(),
        ensures
            final(self).wf(),
            final(self).course == old(self).course,
            final(self).max_steps == old(self).max_steps,
            old(self).finished ==> *final(self) == *old(self),
            !old(self).finished && old(self).agent.position == old(self).course.goal ==> {
                &&& final(self).finished
                &&& final(self).reached_goal
                &&& final(self).agent == old(self).agent
                &&& final(self).policy == old(self).policy
                &&& final(self).steps == old(self).steps
            },
            !old(self).finished && old(self).agent.position != old(self).course.goal
                && old(self).steps >= old(self).max_steps ==> {
                &&& final(self).finished
                &&& !final(self).reached_goal
                &&& final(self).agent == old(self).agent
                &&& final(self).policy == old(self).policy
                &&& final(self).steps == old(self).steps
            },
            !old(self).finished && old(self).agent.position != old(self).course.goal
                && old(self).steps < old(self).max_steps ==> {
                &&& agent_moved(
                    &old(self).agent,
                    &final(self).agent,
                    *old(self).course,
                    old(self).policy.chosen(
                        *old(self).course,
                        old(self).agent.position,
                        old(self).agent.previous_action,
                        old(self).agent.previous_action_succeeded,
                    ),
                )
                &&& final(self).policy == old(self).policy.after(
                    *old(self).course,
                    old(self).agent.position,
                    old(self).agent.previous_action,
                    old(self).agent.previous_action_succeeded,
                )
                &&& final(self).steps == old(self).steps + 1
                &&& final(self).reached_goal == (final(self).agent.position == old(self).course.goal)
                &&& final(self).finished == (final(self).reached_goal || final(self).steps >= old(self).max_steps)
            },
    {
        if self.finished {
            return;
        }
        if self.agent.position == self.course.goal {
            self.finished = true;
            self.reached_goal = true;
            return;
        }
        if self.steps >= self.max_steps {
            self.finished = true;
            return;
        }
        let ghost before = self.agent;
        let course: &Course = &self.course;
        let action = self.policy.choose_action(
            course,
            self.agent.position,
            self.agent.previous_action,
            self.agent.previous_action_succeeded,
        );
        let position = self.agent.position;
        let target = match action {
            Action::Up => {
                if position.y == 0 {
                    None
                } else {
                    Some(Position { x: position.x, y: position.y - 1 })
                }
            },
            Action::Down => {
                if position.y + 1 >= self.course.height {
                    None
                } else {
                    Some(Position { x: position.x, y: position.y + 1 })
                }
            },
            Action::Left => {
                if position.x == 0 {
                    None
                } else {
                    Some(Position { x: position.x - 1, y: position.y })
                }
            },
            Action::Right => {
                if position.x + 1 >= self.course.width {
                    None
                } else {
                    Some(Position { x: position.x + 1, y: position.y })
                }
            },
        };
        let movement_succeeded = match target {
            Some(t) => self.course.is_walkable(t),
            None => false,
        };
        if movement_succeeded {
            let t = target.unwrap();
            self.agent.position = t;
            self.agent.path.push(t);
            proof {
                let p = self.agent.path@;
                assert forall|i: int| 1 <= i < p.len() implies self.course.walkable(#[trigger] p[i])
                    && adjacent(p[i - 1], p[i]) by {
                    if i < p.len() - 1 {
                        assert(p[i] == before.path@[i]);
                        assert(p[i - 1] == before.path@[i - 1]);
                    }
                }
            }
        } else {
            self.agent.collisions = self.agent.collisions + 1;
        }
        self.agent.previous_action = Some(action);
        self.agent.previous_action_succeeded = movement_succeeded;
        self.steps = self.steps + 1;
        if self.agent.position == self.course.goal {
            self.finished = true;
            self.reached_goal = true;
        } else if self.steps >= self.max_steps {
            self.finished = true;
        }
        assert(agent_moved(&before, &self.agent, *self.course, action));
    }

    /// Steps until the run finishes.
    pub fn run_to_completion(&mut self)
        requires
            old(self).wf(),
        ensures
            final(self).wf(),
            final(self).finished,
            final(self).course == old(self).course,
            final(self).max_steps == old(self).max_steps,
            old(self).finished ==> *final(self) == *old(self),
            final(self).steps >= old(self).steps,
            old(self).agent.path@.is_prefix_of(final(self).agent.path@),
            exists|agents: Seq<Agent>, policies: Seq<P>|
                {
                    &&& #[trigger] is_policy_run(*old(self).course, agents, policies)
                    &&& agents[0] == old(self).agent
                    &&& policies[0] == old(self).policy
                    &&& agents[agents.len() - 1] == final(self).agent
                    &&& agents.len() == final(self).steps - old(self).steps + 1
                },
    {
        let ghost start_path = self.agent.path@;
        let ghost start_steps = self.steps;
        let ghost mut agents: Seq<Agent> = seq![self.agent];
        let ghost mut policies: Seq<P> = seq![self.policy];
        while !self.finished
            invariant
                self.wf(),
                self.course == old(self).course,
                self.max_steps == old(self).max_steps,
                old(self).finished ==> *self == *old(self),
                self.steps >= start_steps,
                start_steps == old(self).steps,
                start_path == old(self).agent.path@,
                start_path.is_prefix_of(self.agent.path@),
                is_policy_run(*self.course, agents, policies),
                agents[0] == old(self).agent,
                policies[0] == old(self).policy,
                agents[agents.len() - 1] == self.agent,
                policies[policies.len() - 1] == self.policy,
                agents.len() == self.steps - start_steps + 1,
            decreases (self.max_steps - self.steps) * 2 + if self.finished { 0int } else { 1int },
        {
            let ghost prev = self.agent.path@;
            let ghost before = *self;
            self.step();
            proof {
                if self.steps == before.steps + 1 {
                    let agents2 = agents.push(self.agent);
                    let policies2 = policies.push(self.policy);
                    assert forall|k: int| #![trigger agents2[k], policies2[k]] 0 <= k < agents2.len() - 1 implies {
                        &&& agent_moved(
                            &agents2[k],
                            &agents2[k + 1],
                            *self.course,
                            policies2[k].chosen(
                                *self.course,
                                agents2[k].position,
                                agents2[k].previous_action,
                                agents2[k].previous_action_succeeded,
                            ),
                        )
                        &&& policies2[k + 1] == policies2[k].after(
                            *self.course,
                            agents2[k].position,
                            agents2[k].previous_action,
                            agents2[k].previous_action_succeeded,
                        )
                    } by {
                        if k < agents.len() - 1 {
                            assert(agents2[k] == agents[k] && agents2[k + 1] == agents[k + 1] && policies2[k] == policies[k]
                                && policies2[k + 1] == policies[k + 1]);
                        }
                    }
                    agents = agents2;
                    policies = policies2;
                }
            }
            assert(start_path.is_prefix_of(self.agent.path@)) by {
                assert(prev.is_prefix_of(self.agent.path@));
            }
        }
        assert(is_policy_run(*old(self).course, agents, policies));
    }

    /// What the run produced: whether it reached the goal, how many steps and
    /// collisions it took, and the path walked.
    pub fn result(&self) -> (result: SimulationResult)
        ensures
            result.reached_goal == self.reached_goal,
            result.steps == self.steps,
            result.collisions == self.agent.collisions,
            result.path@ == self.agent.path@,
    {
        let mut path: Vec<Position> = Vec::with_capacity(self.agent.path.len());
        let mut i: usize = 0;
        while i < self.agent.path.len()
            invariant
                i <= self.agent.path@.len(),
                path@ == self.agent.path@.take(i as int),
            decreases self.agent.path@.len() - i,
        {
            path.push(self.agent.path[i]);
            i = i + 1;
        }
        assert(self.agent.path@.take(i as int) == self.agent.path@);
        SimulationResult {
            reached_goal: self.reached_goal,
            steps: self.steps,
            collisions: self.agent.collisions,
            path,
        }
    }
}

/// When the run starts on the course, every square of its path lies on the
/// course, so its row-major index
/// is a valid index of the grid; a run that reached the goal ends on it.
pub proof fn law_path_stays_on_course<P: Policy>(simulation: &Simulation<P>)
    requires
        simulation.wf(),
        simulation.course.in_bounds(simulation.course.start),
    ensures
        forall|i: int|
            0 <= i < simulation.agent.path@.len() ==> simulation.course.in_bounds(
                #[trigger] simulation.agent.path@[i],
            ) && simulation.course.index_of(simulation.agent.path@[i]) < simulation.course.cells@.len(),
        simulation.reached_goal ==> simulation.agent.path@[simulation.agent.path@.len() - 1]
            == simulation.course.goal,
{
    let course = *simulation.course;
    let path = simulation.agent.path@;
    assert forall|i: int| 0 <= i < path.len() implies course.in_bounds(#[trigger] path[i])
        && course.index_of(path[i]) < course.cells@.len() by {
        if i > 0 {
            assert(course.walkable(path[i]));
        }
        course.lemma_index_in_range(path[i]);
    }
}

/// Every step of a run either moved the agent or collided: the moves counted
/// from its result and its collisions add up to its steps.
pub proof fn law_moves_and_collisions_make_steps<P: Policy>(
    simulation: &Simulation<P>,
    result: &SimulationResult,
    counts: &FitnessCounts,
)
    requires
        simulation.wf(),
        result.path@ == simulation.agent.path@,
        result.collisions == simulation.agent.collisions,
        result.steps == simulation.steps,
        counts.successful_moves == if result.path@.len() == 0 {
            0
        } else {
            result.path@.len() - 1
        },
        counts.collisions == result.collisions,
        counts.steps == result.steps,
    ensures
        counts.successful_moves + counts.collisions == counts.steps,
{
}

} // verus!
