//! Selection for the next generation: which individuals survive unchanged,
//! which parents the children descend from, and which ids the newcomers get.

use std::sync::Arc;

use crate::course::Course;
use crate::job::Job;
use crate::policy::Policy;
use crate::rng::{random_range_inclusive, Draw};
use vstd::prelude::*;

verus! {

/// How the next generation is divided.
#[derive(Clone, Copy, Debug, PartialEq, Eq, Structural)]
pub struct SelectionCounts {
    pub population_size: usize,
    /// Top-ranked individuals kept as they are.
    pub elite_count: usize,
    /// Children are bred from the top `parent_pool_size` ranks.
    pub parent_pool_size: usize,
    /// Newcomers with fresh random genomes.
    pub immigrant_count: usize,
    /// Size of the population once the children are added.
    pub child_target: usize,
}

impl SelectionCounts {
    pub open spec fn wf(&self) -> bool {
        &&& 1 <= self.elite_count <= self.population_size
        &&& 1 <= self.parent_pool_size <= self.population_size
        &&& self.immigrant_count <= self.population_size - self.elite_count
        &&& self.child_target == self.population_size - self.immigrant_count
    }
}

/// Where one member of the next generation comes from.
#[derive(Clone, Copy, Debug, PartialEq, Eq, Structural)]
pub enum Origin {
    /// The individual of this rank, kept unchanged with its id.
    Elite { rank: usize },
    /// A mutated copy of the individual of rank `parent_rank`, under a new id.
    Child { parent_rank: usize, id: u64 },
    /// A fresh random genome under a new id.
    Immigrant { id: u64 },
}

/// `v` clamped into `[lo, hi]`.
pub open spec fn clamp_spec(v: int, lo: int, hi: int) -> int {
    if v < lo {
        lo
    } else if v > hi {
        hi
    } else {
        v
    }
}

/// The sizes `selection_counts` derives from the raw shares.
pub open spec fn counts_for(
    population_size: usize,
    raw_elite_count: usize,
    raw_parent_pool_size: usize,
    raw_immigrant_count: usize,
) -> SelectionCounts {
    let elite = clamp_spec(raw_elite_count as int, 1, population_size as int);
    let room = population_size - elite;
    let immigrants = if raw_immigrant_count <= room {
        raw_immigrant_count as int
    } else {
        room
    };
    SelectionCounts {
        population_size,
        elite_count: elite as usize,
        parent_pool_size: clamp_spec(raw_parent_pool_size as int, 1, population_size as int) as usize,
        immigrant_count: immigrants as usize,
        child_target: (population_size - immigrants) as usize,
    }
}

/// Turns the raw shares of a population of `population_size` (each already
/// rounded up from its fraction) into the sizes of the next generation: at
/// least one elite and one parent and at most the whole population of
/// either, immigrants only where the elites leave room, children for the rest.
pub fn selection_counts(
    population_size: usize,
    raw_elite_count: usize,
    raw_parent_pool_size: usize,
    raw_immigrant_count: usize,
) -> (counts: SelectionCounts)
    requires
        population_size >= 1,
    ensures
        counts.wf(),
        counts.population_size == population_size,
        counts.elite_count == clamp_spec(raw_elite_count as int, 1, population_size as int),
        counts.parent_pool_size == clamp_spec(raw_parent_pool_size as int, 1, population_size as int),
        counts.immigrant_count == if raw_immigrant_count <= population_size - counts.elite_count {
            raw_immigrant_count as int
        } else {
            population_size - counts.elite_count
        },
        counts.child_target == population_size - counts.immigrant_count,
        counts == counts_for(population_size, raw_elite_count, raw_parent_pool_size, raw_immigrant_count),
{
    let elite_count = if raw_elite_count < 1 {
        1
    } else if raw_elite_count > population_size {
        population_size
    } else {
        raw_elite_count
    };
    let parent_pool_size = if raw_parent_pool_size < 1 {
        1
    } else if raw_parent_pool_size > population_size {
        population_size
    } else {
        raw_parent_pool_size
    };
    let room = population_size - elite_count;
    let immigrant_count = if raw_immigrant_count <= room {
        raw_immigrant_count
    } else {
        room
    };
    SelectionCounts {
        population_size,
        elite_count,
        parent_pool_size,
        immigrant_count,
        child_target: population_size - immigrant_count,
    }
}

/// For each id in `ranked_ids`, the position of the first member of
/// `population_ids` with that id.
pub fn rank_positions(population_ids: &Vec<u64>, ranked_ids: &Vec<u64>) -> (positions: Vec<usize>)
    requires
        forall|r: int| 0 <= r < ranked_ids@.len() ==> population_ids@.contains(#[trigger] ranked_ids@[r]),
    ensures
        positions@.len() == ranked_ids@.len(),
        forall|r: int|
            0 <= r < positions@.len() ==> {
                &&& #[trigger] positions@[r] < population_ids@.len()
                &&& population_ids@[positions@[r] as int] == ranked_ids@[r]
                &&& forall|k: int| 0 <= k < positions@[r] ==> population_ids@[k] != ranked_ids@[r]
            },
{
    let mut positions: Vec<usize> = Vec::with_capacity(ranked_ids.len());
    let mut r: usize = 0;
    while r < ranked_ids.len()
        invariant
            r <= ranked_ids@.len(),
            positions@.len() == r,
            forall|q: int| 0 <= q < ranked_ids@.len() ==> population_ids@.contains(#[trigger] ranked_ids@[q]),
            forall|q: int|
                0 <= q < r ==> {
                    &&& #[trigger] positions@[q] < population_ids@.len()
                    &&& population_ids@[positions@[q] as int] == ranked_ids@[q]
                    &&& forall|k: int| 0 <= k < positions@[q] ==> population_ids@[k] != ranked_ids@[q]
                },
        decreases ranked_ids@.len() - r,
    {
        let id = ranked_ids[r];
        let mut k: usize = 0;
        while k < population_ids.len() && population_ids[k] != id
            invariant
                k <= population_ids@.len(),
                population_ids@.contains(id),
                forall|kk: int| 0 <= kk < k ==> population_ids@[kk] != id,
            decreases population_ids@.len() - k,
        {
            k = k + 1;
        }
        if k == population_ids.len() {
            proof {
                let kk = choose|kk: int| 0 <= kk < population_ids@.len() && population_ids@[kk] == id;
            }
        }
        positions.push(k);
        r = r + 1;
    }
    positions
}

/// What `plan_next_generation` promises of a plan, given the counts and the
/// first free id.
pub open spec fn is_generation_plan(counts: SelectionCounts, first_id: u64, plan: Seq<Origin>) -> bool {
    &&& plan.len() == counts.population_size
    &&& forall|i: int|
        0 <= i < counts.elite_count ==> #[trigger] plan[i] == (Origin::Elite { rank: i as usize })
    &&& forall|i: int|
        counts.elite_count <= i < counts.child_target ==> {
            &&& #[trigger] plan[i] is Child
            &&& plan[i]->parent_rank < counts.parent_pool_size
            &&& plan[i]->Child_id == first_id + (i - counts.elite_count)
        }
    &&& forall|i: int|
        counts.child_target <= i < counts.population_size ==> #[trigger] plan[i] == (Origin::Immigrant {
            id: (first_id + (i - counts.elite_count)) as u64,
        })
}

/// The makeup of the next generation: the elites in rank order, then
/// children of parents drawn at random from the whole parent pool, then
/// immigrants. Each newcomer gets the next id counting up from `first_id`.
pub fn plan_next_generation(counts: &SelectionCounts, first_id: u64) -> (plan: Vec<Origin>)
    requires
        counts.wf(),
        first_id + counts.population_size <= u64::MAX,
    ensures
        is_generation_plan(*counts, first_id, plan@),
{
    let mut rng = crate::rng::thread_rng();
    let mut parent_draws: Vec<Draw> = Vec::new();
    let mut k: usize = counts.elite_count;
    while k < counts.child_target
        invariant
            counts.wf(),
            counts.elite_count <= k <= counts.child_target,
            parent_draws@.len() == k - counts.elite_count,
            forall|j: int|
                0 <= j < parent_draws@.len() ==> (#[trigger] parent_draws@[j]).low() == 0
                    && parent_draws@[j].high() == counts.parent_pool_size - 1,
        decreases counts.child_target - k,
    {
        parent_draws.push(random_range_inclusive(&mut rng, 0, counts.parent_pool_size - 1));
        k = k + 1;
    }
    plan_from_draws(counts, first_id, &parent_draws)
}

/// Parent draws made as a plan needs them can give every rank of the parent
/// pool.
pub proof fn law_parent_draws_reach_whole_pool(counts: SelectionCounts, parent_draws: Seq<Draw>, k: int, rank: int)
    requires
        counts.wf(),
        forall|j: int|
            0 <= j < parent_draws.len() ==> (#[trigger] parent_draws[j]).low() == 0
                && parent_draws[j].high() == counts.parent_pool_size - 1,
        0 <= k < parent_draws.len(),
        0 <= rank < counts.parent_pool_size,
    ensures
        parent_draws[k].low() <= rank <= parent_draws[k].high(),
{
}

/// The makeup of the next generation for given parent draws: the elites in
/// rank order, then one child per draw whose parent rank is the number
/// drawn, then immigrants. Each newcomer gets the next id counting up from
/// `first_id`. Each draw must have been made over the whole parent pool.
pub fn plan_from_draws(counts: &SelectionCounts, first_id: u64, parent_draws: &Vec<Draw>) -> (plan: Vec<Origin>)
    requires
        counts.wf(),
        first_id + counts.population_size <= u64::MAX,
        parent_draws@.len() == counts.child_target - counts.elite_count,
        forall|k: int|
            0 <= k < parent_draws@.len() ==> (#[trigger] parent_draws@[k]).low() == 0
                && parent_draws@[k].high() == counts.parent_pool_size - 1,
    ensures
        is_generation_plan(*counts, first_id, plan@),
        forall|i: int|
            counts.elite_count <= i < counts.child_target ==> (#[trigger] plan@[i])->parent_rank
                == parent_draws@[i - counts.elite_count].drawn(),
{
    let mut plan: Vec<Origin> = Vec::with_capacity(counts.population_size);
    let mut rank: usize = 0;
    while rank < counts.elite_count
        invariant
            counts.wf(),
            rank <= counts.elite_count,
            plan@.len() == rank,
            forall|i: int| 0 <= i < rank ==> #[trigger] plan@[i] == (Origin::Elite { rank: i as usize }),
        decreases counts.elite_count - rank,
    {
        plan.push(Origin::Elite { rank });
        rank = rank + 1;
    }
    let mut next_id: u64 = first_id;
    while plan.len() < counts.child_target
        invariant
            counts.wf(),
            first_id + counts.population_size <= u64::MAX,
            counts.elite_count <= plan@.len() <= counts.child_target,
            next_id == first_id + (plan@.len() - counts.elite_count),
            forall|i: int| 0 <= i < counts.elite_count ==> #[trigger] plan@[i] == (Origin::Elite { rank: i as usize }),
            forall|i: int|
                counts.elite_count <= i < plan@.len() ==> {
                    &&& #[trigger] plan@[i] is Child
                    &&& plan@[i]->parent_rank < counts.parent_pool_size
                    &&& plan@[i]->Child_id == first_id + (i - counts.elite_count)
                    &&& plan@[i]->parent_rank == parent_draws@[i - counts.elite_count].drawn()
                },
            parent_draws@.len() == counts.child_target - counts.elite_count,
            forall|k: int|
                0 <= k < parent_draws@.len() ==> (#[trigger] parent_draws@[k]).low() == 0
                    && parent_draws@[k].high() == counts.parent_pool_size - 1,
        decreases counts.child_target - plan@.len(),
    {
        let parent_rank = parent_draws[plan.len() - counts.elite_count].value();
        plan.push(Origin::Child { parent_rank, id: next_id });
        next_id = next_id + 1;
    }
    while plan.len() < counts.population_size
        invariant
            counts.wf(),
            first_id + counts.population_size <= u64::MAX,
            counts.child_target <= plan@.len() <= counts.population_size,
            next_id == first_id + (plan@.len() - counts.elite_count),
            forall|i: int| 0 <= i < counts.elite_count ==> #[trigger] plan@[i] == (Origin::Elite { rank: i as usize }),
            forall|i: int|
                counts.elite_count <= i < counts.child_target ==> {
                    &&& #[trigger] plan@[i] is Child
                    &&& plan@[i]->parent_rank < counts.parent_pool_size
                    &&& plan@[i]->Child_id == first_id + (i - counts.elite_count)
                    &&& plan@[i]->parent_rank == parent_draws@[i - counts.elite_count].drawn()
                },
            forall|i: int|
                counts.child_target <= i < plan@.len() ==> #[trigger] plan@[i] == (Origin::Immigrant {
                    id: (first_id + (i - counts.elite_count)) as u64,
                }),
        decreases counts.population_size - plan@.len(),
    {
        plan.push(Origin::Immigrant { id: next_id });
        next_id = next_id + 1;
    }
    plan
}

/// One member of the population: an id and a heritable genome.
pub struct Individual<G> {
    pub id: u64,
    pub genome: G,
}

/// The evolving population, its generation number, and the next free
/// individual and job ids.
pub struct Evolution<G> {
    population: Vec<Individual<G>>,
    generation: usize,
    next_individual_id: u64,
    next_job_id: u64,
    max_steps: usize,
}

/// `k` is the first place in `population` where `id` occurs.
pub open spec fn is_first_index<G>(population: Seq<Individual<G>>, id: u64, k: int) -> bool {
    &&& 0 <= k < population.len()
    &&& population[k].id == id
    &&& forall|j: int| 0 <= j < k ==> (#[trigger] population[j]).id != id
}

/// `genome` is a clone of the genome of the first member whose id is `id`.
pub open spec fn is_kept_copy<G: Clone>(population: Seq<Individual<G>>, id: u64, genome: G) -> bool {
    exists|k: int| is_first_index(population, id, k) && cloned(population[k].genome, genome)
}

/// `genome` is what `breed` makes of the genome of the first member whose id
/// is one of the first `pool` of `ranked`.
pub open spec fn is_bred_from<G, F: Fn(&G) -> G>(
    population: Seq<Individual<G>>,
    ranked: Seq<u64>,
    pool: int,
    breed: F,
    genome: G,
) -> bool {
    exists|r: int, k: int|
        0 <= r < pool && is_first_index(population, ranked[r], k) && breed.ensures(
            (&population[k].genome,),
            genome,
        )
}

/// Some member has id `id`.
pub open spec fn has_id<G>(population: Seq<Individual<G>>, id: u64) -> bool {
    exists|k: int| 0 <= k < population.len() && (#[trigger] population[k]).id == id
}

/// No two members share an id.
pub open spec fn ids_distinct<G>(population: Seq<Individual<G>>) -> bool {
    forall|i: int, j: int|
        0 <= i < j < population.len() ==> (#[trigger] population[i]).id != (#[trigger] population[j]).id
}

/// No id occurs twice in `ids`.
pub open spec fn distinct_ids(ids: Seq<u64>) -> bool {
    forall|i: int, j: int| 0 <= i < j < ids.len() ==> #[trigger] ids[i] != #[trigger] ids[j]
}

/// Calls `Arc::clone`: another pointer to the same course, which Verus reads
/// as the same value.
#[verifier::external_body]
fn share_course(course: &Arc<Course>) -> (shared: Arc<Course>)
    ensures
        shared == *course,
{
    Arc::clone(course)
}

impl<G> Evolution<G> {
    pub closed spec fn members(&self) -> Seq<Individual<G>> {
        self.population@
    }

    pub closed spec fn generation_number(&self) -> nat {
        self.generation as nat
    }

    pub closed spec fn next_id(&self) -> nat {
        self.next_individual_id as nat
    }

    pub closed spec fn next_job(&self) -> nat {
        self.next_job_id as nat
    }

    pub closed spec fn step_limit(&self) -> nat {
        self.max_steps as nat
    }

    /// Every member's id lies below the next free id. This holds of every
    /// `Evolution` at all times.
    #[verifier::type_invariant]
    pub open spec fn wf(&self) -> bool {
        forall|i: int| 0 <= i < self.members().len() ==> (#[trigger] self.members()[i]).id < self.next_id()
    }

}

impl<G: Clone> Evolution<G> {
    /// A first generation of `population_size` fresh genomes with ids
    /// counting up from 0.
    pub fn new(population_size: usize, max_steps: usize, fresh: impl Fn() -> G) -> (evolution: Self)
        requires
            population_size <= u64::MAX,
            fresh.requires(()),
        ensures
            evolution.wf(),
            evolution.members().len() == population_size,
            forall|i: int|
                0 <= i < population_size ==> {
                    &&& (#[trigger] evolution.members()[i]).id == i
                    &&& fresh.ensures((), evolution.members()[i].genome)
                },
            ids_distinct(evolution.members()),
            evolution.generation_number() == 0,
            evolution.next_id() == population_size,
            evolution.next_job() == 0,
            evolution.step_limit() == max_steps,
    {
        let mut population: Vec<Individual<G>> = Vec::with_capacity(population_size);
        let mut next_individual_id: u64 = 0;
        while population.len() < population_size
            invariant
                population_size <= u64::MAX,
                fresh.requires(()),
                population@.len() <= population_size,
                next_individual_id == population@.len(),
                forall|i: int|
                    0 <= i < population@.len() ==> {
                        &&& (#[trigger] population@[i]).id == i
                        &&& fresh.ensures((), population@[i].genome)
                    },
            decreases population_size - population@.len(),
        {
            let genome = fresh();
            population.push(Individual { id: next_individual_id, genome });
            next_individual_id = next_individual_id + 1;
        }
        Evolution { population, generation: 0, next_individual_id, next_job_id: 0, max_steps }
    }

    pub fn generation(&self) -> (generation: usize)
        ensures
            generation == self.generation_number(),
    {
        self.generation
    }

    /// The id the next newcomer will get.
    pub fn next_individual_id(&self) -> (id: u64)
        ensures
            id == self.next_id(),
    {
        self.next_individual_id
    }

    /// The id the next job will get.
    pub fn next_job_id(&self) -> (id: u64)
        ensures
            id == self.next_job(),
    {
        self.next_job_id
    }

    /// The current members.
    pub fn population(&self) -> (population: &Vec<Individual<G>>)
        ensures
            population@ == self.members(),
    {
        &self.population
    }

    /// One job per member and course, member by member, each on a policy
    /// built from the member's genome; the jobs take consecutive ids.
    pub fn create_jobs<P: Policy>(
        &mut self,
        courses: &Vec<Arc<Course>>,
        make_policy: impl Fn(&G) -> P,
    ) -> (jobs: Vec<Job<P>>)
        requires
            forall|g: &G| make_policy.requires((g,)),
            old(self).next_job() + old(self).members().len() * courses@.len() <= u64::MAX,
        ensures
            jobs@.len() == old(self).members().len() * courses@.len(),
            forall|i: int, c: int|
                0 <= i < old(self).members().len() && 0 <= c < courses@.len() ==> {
                    let job = #[trigger] jobs@[i * courses@.len() + c];
                    &&& job.id == old(self).next_job() + i * courses@.len() + c
                    &&& job.generation == old(self).generation_number()
                    &&& job.individual_id == old(self).members()[i].id
                    &&& job.course_index == c
                    &&& job.course == courses@[c]
                    &&& job.max_steps == old(self).step_limit()
                    &&& make_policy.ensures((&old(self).members()[i].genome,), job.policy)
                },
            final(self).next_job() == old(self).next_job() + old(self).members().len() * courses@.len(),
            final(self).members() == old(self).members(),
            final(self).generation_number() == old(self).generation_number(),
            final(self).next_id() == old(self).next_id(),
            final(self).step_limit() == old(self).step_limit(),
    {
        let n = self.population.len();
        let count = courses.len();
        proof {
            use_type_invariant(&*self);
        }
        let ghost first_job = self.next_job_id as int;
        let mut jobs: Vec<Job<P>> = Vec::new();
        let mut i: usize = 0;
        while i < n
            invariant
                n == self.population@.len(),
                count == courses@.len(),
                self.population == old(self).population,
                self.generation == old(self).generation,
                self.next_individual_id == old(self).next_individual_id,
                self.max_steps == old(self).max_steps,
                first_job == old(self).next_job_id,
                old(self).wf(),
                forall|g: &G| make_policy.requires((g,)),
                first_job + n * count <= u64::MAX,
                i <= n,
                jobs@.len() == i * count,
                self.next_job_id == first_job + i * count,
                forall|ii: int, c: int|
                    0 <= ii < i && 0 <= c < count ==> {
                        let job = #[trigger] jobs@[ii * count + c];
                        &&& job.id == first_job + ii * count + c
                        &&& job.generation == self.generation
                        &&& job.individual_id == self.population@[ii].id
                        &&& job.course_index == c
                        &&& job.course == courses@[c]
                        &&& job.max_steps == self.max_steps
                        &&& make_policy.ensures((&self.population@[ii].genome,), job.policy)
                    },
            decreases n - i,
        {
            proof {
                lemma_mul_step(i as int, n as int, count as int);
            }
            let mut c: usize = 0;
            while c < count
                invariant
                    n == self.population@.len(),
                    count == courses@.len(),
                    self.population == old(self).population,
                    self.generation == old(self).generation,
                    self.next_individual_id == old(self).next_individual_id,
                    self.max_steps == old(self).max_steps,
                    first_job == old(self).next_job_id,
                    old(self).wf(),
                    forall|g: &G| make_policy.requires((g,)),
                    first_job + n * count <= u64::MAX,
                    i < n,
                    (i + 1) * count <= n * count,
                    (i + 1) * count == i * count + count,
                    c <= count,
                    jobs@.len() == i * count + c,
                    self.next_job_id == first_job + i * count + c,
                    forall|ii: int, cc: int|
                        0 <= ii < i && 0 <= cc < count ==> {
                            let job = #[trigger] jobs@[ii * count + cc];
                            &&& job.id == first_job + ii * count + cc
                            &&& job.generation == self.generation
                            &&& job.individual_id == self.population@[ii].id
                            &&& job.course_index == cc
                            &&& job.course == courses@[cc]
                            &&& job.max_steps == self.max_steps
                            &&& make_policy.ensures((&self.population@[ii].genome,), job.policy)
                        },
                    forall|cc: int|
                        0 <= cc < c ==> {
                            let job = #[trigger] jobs@[i * count + cc];
                            &&& job.id == first_job + i * count + cc
                            &&& job.generation == self.generation
                            &&& job.individual_id == self.population@[i as int].id
                            &&& job.course_index == cc
                            &&& job.course == courses@[cc]
                            &&& job.max_steps == self.max_steps
                            &&& make_policy.ensures((&self.population@[i as int].genome,), job.policy)
                        },
                decreases count - c,
            {
                let individual = &self.population[i];
                let policy = make_policy(&individual.genome);
                let job = Job::new(
                    self.next_job_id,
                    self.generation,
                    individual.id,
                    c,
                    share_course(&courses[c]),
                    policy,
                    self.max_steps,
                );
                proof {
                    assert(self.members() == old(self).members());
                    assert(self.next_id() == old(self).next_id());
                }
                self.next_job_id = self.next_job_id + 1;
                let ghost before = jobs@;
                jobs.push(job);
                proof {
                    assert forall|ii: int, cc: int| 0 <= ii < i && 0 <= cc < count implies #[trigger] jobs@[ii * count + cc] == before[ii * count + cc] by {
                        lemma_row_before(ii, cc, i as int, count as int);
                    }
                }
                c = c + 1;
            }
            proof {
                assert forall|ii: int, cc: int| 0 <= ii < i + 1 && 0 <= cc < count implies {
                    let job = #[trigger] jobs@[ii * count + cc];
                    &&& job.id == first_job + ii * count + cc
                    &&& job.generation == self.generation
                    &&& job.individual_id == self.population@[ii].id
                    &&& job.course_index == cc
                    &&& job.course == courses@[cc]
                    &&& job.max_steps == self.max_steps
                    &&& make_policy.ensures((&self.population@[ii].genome,), job.policy)
                } by {
                    if ii == i {
                        assert(jobs@[i * count + cc] == jobs@[ii * count + cc]);
                    }
                }
            }
            i = i + 1;
        }
        jobs
    }
}

proof fn lemma_mul_step(i: int, n: int, count: int)
    by (nonlinear_arith)
    requires
        0 <= i < n,
        0 <= count,
    ensures
        (i + 1) * count <= n * count,
        (i + 1) * count == i * count + count,
{
}

proof fn lemma_row_before(ii: int, cc: int, i: int, count: int)
    by (nonlinear_arith)
    requires
        0 <= ii < i,
        0 <= cc < count,
    ensures
        ii * count + cc < i * count,
{
    assert(ii * count + cc < ii * count + count);
    assert((ii + 1) * count <= i * count);
}

impl<G: Clone> Evolution<G> {
    /// Replaces the population by the next generation. `ranked_ids` lists
    /// the members' ids from best to worst; the raw shares are the elite,
    /// parent-pool and immigrant fractions of the population, rounded up.
    /// The best `elite_count` ranks are kept with cloned genomes, children
    /// bred by `breed` from parents drawn at random among the best
    /// `parent_pool_size` ranks fill the population up to `child_target`,
    /// and `fresh` genomes make up the rest. Newcomers take consecutive ids.
    pub fn advance_generation(
        &mut self,
        ranked_ids: &Vec<u64>,
        raw_elite_count: usize,
        raw_parent_pool_size: usize,
        raw_immigrant_count: usize,
        breed: impl Fn(&G) -> G,
        fresh: impl Fn() -> G,
    )
        requires
            old(self).members().len() >= 1,
            ranked_ids@.len() == old(self).members().len(),
            forall|r: int| 0 <= r < ranked_ids@.len() ==> has_id(old(self).members(), #[trigger] ranked_ids@[r]),
            old(self).next_id() + old(self).members().len() <= u64::MAX,
            old(self).generation_number() < usize::MAX,
            forall|g: &G| breed.requires((g,)),
            fresh.requires(()),
        ensures
            ({
                let before = old(self).members();
                let after = final(self).members();
                let n = before.len();
                let counts = counts_for(
                    n as usize,
                    raw_elite_count,
                    raw_parent_pool_size,
                    raw_immigrant_count,
                );
                &&& after.len() == n
                &&& forall|i: int|
                    0 <= i < counts.elite_count ==> {
                        &&& (#[trigger] after[i]).id == ranked_ids@[i]
                        &&& is_kept_copy(before, ranked_ids@[i], after[i].genome)
                    }
                &&& forall|i: int|
                    counts.elite_count <= i < counts.child_target ==> {
                        &&& (#[trigger] after[i]).id == old(self).next_id() + (i - counts.elite_count)
                        &&& is_bred_from(before, ranked_ids@, counts.parent_pool_size as int, breed, after[i].genome)
                    }
                &&& forall|i: int|
                    counts.child_target <= i < n ==> {
                        &&& (#[trigger] after[i]).id == old(self).next_id() + (i - counts.elite_count)
                        &&& fresh.ensures((), after[i].genome)
                    }
                &&& final(self).next_id() == old(self).next_id() + n - counts.elite_count
            }),
            final(self).generation_number() == old(self).generation_number() + 1,
            final(self).next_job() == old(self).next_job(),
            final(self).step_limit() == old(self).step_limit(),
            final(self).wf(),
            distinct_ids(ranked_ids@) ==> ids_distinct(final(self).members()),
    {
        proof {
            use_type_invariant(&*self);
        }
        let n = self.population.len();
        let ghost before = self.population@;
        let mut ids: Vec<u64> = Vec::with_capacity(n);
        let mut j: usize = 0;
        while j < n
            invariant
                n == self.population@.len(),
                j <= n,
                ids@.len() == j,
                forall|k: int| 0 <= k < j ==> ids@[k] == (#[trigger] self.population@[k]).id,
            decreases n - j,
        {
            ids.push(self.population[j].id);
            j = j + 1;
        }
        proof {
            assert forall|r: int| 0 <= r < ranked_ids@.len() implies ids@.contains(#[trigger] ranked_ids@[r]) by {
                assert(has_id(before, ranked_ids@[r]));
                let k = choose|k: int| 0 <= k < before.len() && (#[trigger] before[k]).id == ranked_ids@[r];
                assert(ids@[k] == ranked_ids@[r]);
            }
        }
        let positions = rank_positions(&ids, ranked_ids);
        let counts = selection_counts(n, raw_elite_count, raw_parent_pool_size, raw_immigrant_count);
        let plan = plan_next_generation(&counts, self.next_individual_id);
        let ghost first_id = self.next_individual_id as int;
        let mut next_population: Vec<Individual<G>> = Vec::with_capacity(n);
        let mut i: usize = 0;
        while i < n
            invariant
                n == before.len(),
                self.population@ == before,
                first_id == self.next_individual_id,
                first_id + n <= u64::MAX,
                ids@.len() == n,
                forall|k: int| 0 <= k < n ==> ids@[k] == (#[trigger] before[k]).id,
                positions@.len() == n,
                forall|r: int|
                    0 <= r < n ==> {
                        &&& #[trigger] positions@[r] < n
                        &&& ids@[positions@[r] as int] == ranked_ids@[r]
                        &&& forall|k: int| 0 <= k < positions@[r] ==> ids@[k] != ranked_ids@[r]
                    },
                ranked_ids@.len() == n,
                counts == counts_for(n, raw_elite_count, raw_parent_pool_size, raw_immigrant_count),
                counts.wf(),
                is_generation_plan(counts, first_id as u64, plan@),
                forall|g: &G| breed.requires((g,)),
                fresh.requires(()),
                i <= n,
                next_population@.len() == i,
                forall|ii: int|
                    0 <= ii < i && ii < counts.elite_count ==> {
                        &&& (#[trigger] next_population@[ii]).id == ranked_ids@[ii]
                        &&& is_kept_copy(before, ranked_ids@[ii], next_population@[ii].genome)
                    },
                forall|ii: int|
                    0 <= ii < i && counts.elite_count <= ii < counts.child_target ==> {
                        &&& (#[trigger] next_population@[ii]).id == first_id + (ii - counts.elite_count)
                        &&& is_bred_from(before, ranked_ids@, counts.parent_pool_size as int, breed, next_population@[ii].genome)
                    },
                forall|ii: int|
                    0 <= ii < i && counts.child_target <= ii ==> {
                        &&& (#[trigger] next_population@[ii]).id == first_id + (ii - counts.elite_count)
                        &&& fresh.ensures((), next_population@[ii].genome)
                    },
            decreases n - i,
        {
            let origin = plan[i];
            let ghost mut witness_rank: int = 0;
            let ghost mut witness_k: int = 0;
            let member = match origin {
                Origin::Elite { rank } => {
                    let source = &self.population[positions[rank]];
                    let genome = source.genome.clone();
                    proof {
                        witness_rank = rank as int;
                        witness_k = positions@[rank as int] as int;
                        assert(is_first_index(before, ranked_ids@[rank as int], witness_k));
                        assert(cloned(before[witness_k].genome, genome));
                    }
                    Individual { id: source.id, genome }
                },
                Origin::Child { parent_rank, id } => {
                    let source = &self.population[positions[parent_rank]];
                    let genome = breed(&source.genome);
                    proof {
                        witness_rank = parent_rank as int;
                        witness_k = positions@[parent_rank as int] as int;
                        assert(is_first_index(before, ranked_ids@[parent_rank as int], witness_k));
                        assert(breed.ensures((&before[witness_k].genome,), genome));
                    }
                    Individual { id, genome }
                },
                Origin::Immigrant { id } => {
                    let genome = fresh();
                    Individual { id, genome }
                },
            };
            proof {
                if i < counts.elite_count {
                    assert(is_first_index(before, ranked_ids@[i as int], witness_k) && cloned(before[witness_k].genome, member.genome));
                } else if i < counts.child_target {
                    assert(0 <= witness_rank < counts.parent_pool_size && is_first_index(before, ranked_ids@[witness_rank], witness_k)
                        && breed.ensures((&before[witness_k].genome,), member.genome));
                }
            }
            let ghost prev_pop = next_population@;
            next_population.push(member);
            proof {
                assert forall|ii: int|
                    0 <= ii < i + 1 && ii < counts.elite_count implies {
                        &&& (#[trigger] next_population@[ii]).id == ranked_ids@[ii]
                        &&& is_kept_copy(before, ranked_ids@[ii], next_population@[ii].genome)
                    } by {
                    if ii < i {
                        assert(next_population@[ii] == prev_pop[ii]);
                    } else {
                        assert(next_population@[ii] == member);
                    }
                }
                assert forall|ii: int|
                    0 <= ii < i + 1 && counts.elite_count <= ii < counts.child_target implies {
                        &&& (#[trigger] next_population@[ii]).id == first_id + (ii - counts.elite_count)
                        &&& is_bred_from(before, ranked_ids@, counts.parent_pool_size as int, breed, next_population@[ii].genome)
                    } by {
                    if ii < i {
                        assert(next_population@[ii] == prev_pop[ii]);
                    } else {
                        assert(next_population@[ii] == member);
                        assert(0 <= witness_rank < counts.parent_pool_size && is_first_index(before, ranked_ids@[witness_rank], witness_k)
                            && breed.ensures((&before[witness_k].genome,), next_population@[ii].genome));
                    }
                }
                assert forall|ii: int|
                    0 <= ii < i + 1 && counts.child_target <= ii implies {
                        &&& (#[trigger] next_population@[ii]).id == first_id + (ii - counts.elite_count)
                        &&& fresh.ensures((), next_population@[ii].genome)
                    } by {
                    if ii < i {
                        assert(next_population@[ii] == prev_pop[ii]);
                    } else {
                        assert(next_population@[ii] == member);
                    }
                }
            }
            i = i + 1;
        }
        let ghost after = next_population@;
        let next_id = self.next_individual_id + (n - counts.elite_count) as u64;
        proof {
            assert forall|ii: int| 0 <= ii < after.len() implies (#[trigger] after[ii]).id < next_id by {
                if ii < counts.elite_count {
                    let k = choose|k: int| is_first_index(before, ranked_ids@[ii], k) && cloned(before[k].genome, after[ii].genome);
                    assert(old(self).members()[k].id < old(self).next_id());
                }
            }
            if distinct_ids(ranked_ids@) {
                assert forall|a: int, b: int| 0 <= a < b < after.len() implies (#[trigger] after[a]).id != (#[trigger] after[b]).id by {
                    if b < counts.elite_count {
                        assert(ranked_ids@[a] != ranked_ids@[b]);
                    } else if a < counts.elite_count {
                        let k = choose|k: int| is_first_index(before, ranked_ids@[a], k) && cloned(before[k].genome, after[a].genome);
                        assert(old(self).members()[k].id < old(self).next_id());
                    }
                }
            }
        }
        self.next_individual_id = next_id;
        self.population = next_population;
        self.generation = self.generation + 1;
    }
}

/// The newcomers of a plan get distinct ids, all at or above the first free
/// id and below it plus the population size.
pub proof fn law_plan_ids_fresh(counts: SelectionCounts, first_id: u64, plan: Seq<Origin>, i: int, j: int)
    requires
        counts.wf(),
        is_generation_plan(counts, first_id, plan),
        counts.elite_count <= i < counts.population_size,
        counts.elite_count <= j < counts.population_size,
        i != j,
        first_id + counts.population_size <= u64::MAX,
    ensures
        newcomer_id(plan[i]) != newcomer_id(plan[j]),
        first_id <= newcomer_id(plan[i]) < first_id + counts.population_size,
{
    if i < counts.child_target {
        assert(plan[i] is Child);
    } else {
        assert(plan[i] == (Origin::Immigrant { id: (first_id + (i - counts.elite_count)) as u64 }));
    }
    if j < counts.child_target {
        assert(plan[j] is Child);
    } else {
        assert(plan[j] == (Origin::Immigrant { id: (first_id + (j - counts.elite_count)) as u64 }));
    }
}

/// The id a newcomer is given (0 for an elite, which keeps its own).
pub open spec fn newcomer_id(origin: Origin) -> int {
    match origin {
        Origin::Elite { .. } => 0,
        Origin::Child { id, .. } => id as int,
        Origin::Immigrant { id } => id as int,
    }
}

} // verus!
