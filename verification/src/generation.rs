//! Course generation: random blocks of obstacles, and the rules a
//! generated course must meet.

use crate::course::{manhattan, manhattan_distance, Cell, Course, Position};
use crate::rng::{random_range_inclusive, thread_rng, Draw};
use vstd::prelude::*;

verus! {

/// Fewest and most blocks that a generated course is built from.
pub const MIN_BLOCK_COUNT: usize = 20;
pub const MAX_BLOCK_COUNT: usize = 35;

/// Shortest and longest side of one block.
pub const MIN_BLOCK_SIZE: usize = 3;
pub const MAX_BLOCK_SIZE: usize = 10;

/// A rectangle of obstacles laid on a course.
#[derive(Clone, Copy, Debug, PartialEq, Eq, Structural)]
pub struct Block {
    pub x: usize,
    pub y: usize,
    pub width: usize,
    pub height: usize,
}

impl Block {
    pub open spec fn covers(&self, p: Position) -> bool {
        self.x <= p.x < self.x + self.width && self.y <= p.y < self.y + self.height
    }

    /// A block of a generated course: each side within the size bounds, and
    /// inside a `width` by `height` grid.
    pub open spec fn is_generated_for(&self, width: int, height: int) -> bool {
        &&& MIN_BLOCK_SIZE <= self.width <= MAX_BLOCK_SIZE
        &&& MIN_BLOCK_SIZE <= self.height <= MAX_BLOCK_SIZE
        &&& self.x + self.width <= width
        &&& self.y + self.height <= height
    }
}

/// The four draws a random block is made from: its width and height, each
/// drawn from `MIN_BLOCK_SIZE..=MAX_BLOCK_SIZE`, then its left and top
/// sides, each drawn from the places where a block of that size fits.
pub struct BlockDraws {
    pub width: Draw,
    pub height: Draw,
    pub x: Draw,
    pub y: Draw,
}

impl BlockDraws {
    /// The block these draws describe.
    pub open spec fn block(&self) -> Block {
        Block { x: self.x.drawn(), y: self.y.drawn(), width: self.width.drawn(), height: self.height.drawn() }
    }

    /// The draws were made over the full ranges for a `width` by `height`
    /// grid: each side over every block size, each corner over every place
    /// where a block of the drawn size fits.
    pub open spec fn spans(&self, width: int, height: int) -> bool {
        &&& self.width.low() == MIN_BLOCK_SIZE
        &&& self.width.high() == MAX_BLOCK_SIZE
        &&& self.height.low() == MIN_BLOCK_SIZE
        &&& self.height.high() == MAX_BLOCK_SIZE
        &&& self.x.low() == 0
        &&& self.x.high() == width - self.width.drawn()
        &&& self.y.low() == 0
        &&& self.y.high() == height - self.height.drawn()
    }
}

/// Number of obstacle cells in `cells`.
pub open spec fn count_obstacles(cells: Seq<Cell>) -> nat
    decreases cells.len(),
{
    if cells.len() == 0 {
        0
    } else {
        count_obstacles(cells.drop_last()) + if cells.last() == Cell::Obstacle {
            1nat
        } else {
            0nat
        }
    }
}

impl Course {
    /// `self` is `before` with `blocks` laid on it: every covered square but
    /// the start and the goal became an obstacle, and nothing else changed.
    pub open spec fn lays_blocks(&self, before: &Course, blocks: Seq<Block>) -> bool {
        &&& self.wf()
        &&& self.width == before.width
        &&& self.height == before.height
        &&& self.start == before.start
        &&& self.goal == before.goal
        &&& forall|p: Position|
            #![trigger self.cell_at(p)]
            self.in_bounds(p) ==> self.cell_at(p) == if p != self.start && p != self.goal && exists|
                k: int,
            | 0 <= k < blocks.len() && #[trigger] blocks[k].covers(p) {
                Cell::Obstacle
            } else {
                before.cell_at(p)
            }
    }

    /// A course that generation may hand out: between a quarter and a half
    /// of its squares are obstacles, and its shortest walk from start to goal
    /// is at least a quarter longer than their Manhattan distance.
    pub open spec fn meets_generation_rules_spec(&self) -> bool {
        let n = self.cells@.len();
        let c = count_obstacles(self.cells@);
        &&& 4 * c >= n
        &&& 2 * c <= n
        &&& exists|d: nat|
            self.is_shortest_distance(self.start, self.goal, d) && 4 * d >= 5 * manhattan(
                self.start,
                self.goal,
            )
    }

    /// `self` is an open grid with `blocks` laid on it, as generation builds
    /// courses: between `MIN_BLOCK_COUNT` and `MAX_BLOCK_COUNT` blocks, each of
    /// a generated size and inside the grid.
    pub open spec fn is_built_from(&self, blocks: Seq<Block>) -> bool {
        &&& MIN_BLOCK_COUNT <= blocks.len() <= MAX_BLOCK_COUNT
        &&& forall|k: int|
            0 <= k < blocks.len() ==> #[trigger] blocks[k].is_generated_for(
                self.width as int,
                self.height as int,
            )
        &&& forall|p: Position|
            #![trigger self.cell_at(p)]
            self.in_bounds(p) ==> self.cell_at(p) == if p != self.start && p != self.goal && exists|
                k: int,
            | 0 <= k < blocks.len() && #[trigger] blocks[k].covers(p) {
                Cell::Obstacle
            } else {
                Cell::Open
            }
    }

    /// Turns every square that `block` covers into an obstacle, except the
    /// start and the goal.
    fn add_block(&mut self, block: Block)
        requires
            old(self).wf(),
            block.x + block.width <= old(self).width,
            block.y + block.height <= old(self).height,
        ensures
            final(self).lays_blocks(&*old(self), seq![block]),
    {
        let ghost before = *self;
        let mut dy: usize = 0;
        while dy < block.height
            invariant
                self.wf(),
                self.width == before.width,
                self.height == before.height,
                self.start == before.start,
                self.goal == before.goal,
                block.x + block.width <= self.width,
                block.y + block.height <= self.height,
                dy <= block.height,
                forall|p: Position|
                    #![trigger self.cell_at(p)]
                    self.in_bounds(p) ==> self.cell_at(p) == if p != self.start && p != self.goal
                        && block.covers(p) && p.y < block.y + dy {
                        Cell::Obstacle
                    } else {
                        before.cell_at(p)
                    },
            decreases block.height - dy,
        {
            let mut dx: usize = 0;
            while dx < block.width
                invariant
                    self.wf(),
                    self.width == before.width,
                    self.height == before.height,
                    self.start == before.start,
                    self.goal == before.goal,
                    block.x + block.width <= self.width,
                    block.y + block.height <= self.height,
                    dy < block.height,
                    dx <= block.width,
                    forall|p: Position|
                        #![trigger self.cell_at(p)]
                        self.in_bounds(p) ==> self.cell_at(p) == if p != self.start && p != self.goal
                            && block.covers(p) && (p.y < block.y + dy || (p.y == block.y + dy && p.x
                            < block.x + dx)) {
                            Cell::Obstacle
                        } else {
                            before.cell_at(p)
                        },
                decreases block.width - dx,
            {
                let position = Position { x: block.x + dx, y: block.y + dy };
                proof {
                    self.lemma_index_in_range(position);
                }
                if position != self.start && position != self.goal {
                    let ghost mid = *self;
                    self.set_cell(position, Cell::Obstacle);
                    proof {
                        assert forall|p: Position| #![trigger self.cell_at(p)] self.in_bounds(p) implies self.cell_at(p) == if p
                            != self.start && p != self.goal && block.covers(p) && (p.y < block.y + dy
                            || (p.y == block.y + dy && p.x < block.x + dx + 1)) {
                            Cell::Obstacle
                        } else {
                            before.cell_at(p)
                        } by {
                            self.lemma_index_in_range(p);
                            if p != position {
                                self.lemma_index_injective_contra(p, position);
                                assert(self.cell_at(p) == mid.cell_at(p));
                            }
                        }
                    }
                }
                dx = dx + 1;
            }
            dy = dy + 1;
        }
        proof {
            assert forall|p: Position| #![trigger self.cell_at(p)] self.in_bounds(p) implies self.cell_at(p) == if p != self.start
                && p != self.goal && exists|k: int| 0 <= k < seq![block].len() && #[trigger] seq![block][k].covers(p) {
                Cell::Obstacle
            } else {
                before.cell_at(p)
            } by {
                if block.covers(p) {
                    assert(seq![block][0].covers(p));
                }
            }
        }
    }

    proof fn lemma_index_injective_contra(&self, a: Position, b: Position)
        requires
            self.in_bounds(a),
            self.in_bounds(b),
            a != b,
        ensures
            self.index_of(a) != self.index_of(b),
    {
        if self.index_of(a) == self.index_of(b) {
            self.lemma_index_injective(a, b);
        }
    }
}

impl Course {
    proof fn lemma_lays_blocks_push(after: &Course, mid: &Course, before: &Course, blocks: Seq<Block>, b: Block)
        requires
            mid.lays_blocks(before, blocks),
            after.lays_blocks(mid, seq![b]),
        ensures
            after.lays_blocks(before, blocks.push(b)),
    {
        let all = blocks.push(b);
        assert forall|p: Position| #![trigger after.cell_at(p)] after.in_bounds(p) implies after.cell_at(p) == if p
            != after.start && p != after.goal && exists|k: int| 0 <= k < all.len() && #[trigger] all[k].covers(p) {
            Cell::Obstacle
        } else {
            before.cell_at(p)
        } by {
            if exists|k: int| 0 <= k < blocks.len() && #[trigger] blocks[k].covers(p) {
                let k = choose|k: int| 0 <= k < blocks.len() && #[trigger] blocks[k].covers(p);
                assert(all[k] == blocks[k]);
            }
            if b.covers(p) {
                assert(seq![b][0].covers(p));
                assert(all[blocks.len() as int] == b);
            }
            if exists|k: int| 0 <= k < all.len() && #[trigger] all[k].covers(p) {
                let k = choose|k: int| 0 <= k < all.len() && #[trigger] all[k].covers(p);
                if k < blocks.len() {
                    assert(blocks[k] == all[k]);
                } else {
                    assert(seq![b][0] == all[k]);
                }
            }
        }
    }

    /// Lays one block of random size at a random place inside the grid.
    /// Returns the draws the block was made from.
    fn add_random_block(&mut self, rng: &mut rand::rngs::ThreadRng) -> (draws: BlockDraws)
        requires
            old(self).wf(),
            old(self).width >= MAX_BLOCK_SIZE,
            old(self).height >= MAX_BLOCK_SIZE,
        ensures
            draws.spans(old(self).width as int, old(self).height as int),
            draws.block().is_generated_for(old(self).width as int, old(self).height as int),
            final(self).lays_blocks(&*old(self), seq![draws.block()]),
            exists|b: Block|
                b.is_generated_for(old(self).width as int, old(self).height as int)
                    && #[trigger] final(self).lays_blocks(&*old(self), seq![b]),
    {
        let width_draw = random_range_inclusive(rng, MIN_BLOCK_SIZE, MAX_BLOCK_SIZE);
        let height_draw = random_range_inclusive(rng, MIN_BLOCK_SIZE, MAX_BLOCK_SIZE);
        let width = width_draw.value();
        let height = height_draw.value();
        let x_draw = random_range_inclusive(rng, 0, self.width - width);
        let y_draw = random_range_inclusive(rng, 0, self.height - height);
        let block = Block { x: x_draw.value(), y: y_draw.value(), width, height };
        self.add_block(block);
        assert(block.is_generated_for(self.width as int, self.height as int));
        let draws = BlockDraws { width: width_draw, height: height_draw, x: x_draw, y: y_draw };
        assert(draws.block() == block);
        draws
    }

    /// Lays `count.drawn()` random blocks, where `count` was drawn over
    /// every allowed number of blocks, `MIN_BLOCK_COUNT..=MAX_BLOCK_COUNT`.
    fn lay_random_blocks(&mut self, rng: &mut rand::rngs::ThreadRng, count: &Draw)
        requires
            old(self).wf(),
            old(self).width >= MAX_BLOCK_SIZE,
            old(self).height >= MAX_BLOCK_SIZE,
            count.low() == MIN_BLOCK_COUNT,
            count.high() == MAX_BLOCK_COUNT,
        ensures
            exists|blocks: Seq<Block>|
                #[trigger] final(self).lays_blocks(&*old(self), blocks) && blocks.len() == count.drawn()
                    && forall|k: int|
                    0 <= k < blocks.len() ==> #[trigger] blocks[k].is_generated_for(
                        old(self).width as int,
                        old(self).height as int,
                    ),
    {
        let block_count = count.value();
        let ghost before = *self;
        let ghost mut blocks: Seq<Block> = Seq::empty();
        proof {
            assert forall|p: Position| #![trigger self.cell_at(p)] self.in_bounds(p) implies self.cell_at(p) == if p
                != self.start && p != self.goal && exists|k: int| 0 <= k < blocks.len() && #[trigger] blocks[k].covers(p) {
                Cell::Obstacle
            } else {
                before.cell_at(p)
            } by {
                self.lemma_index_in_range(p);
            }
        }
        let mut i: usize = 0;
        while i < block_count
            invariant
                i <= block_count,
                block_count == count.drawn(),
                before == *old(self),
                before.width >= MAX_BLOCK_SIZE,
                before.height >= MAX_BLOCK_SIZE,
                blocks.len() == i,
                self.lays_blocks(&before, blocks),
                forall|k: int|
                    0 <= k < blocks.len() ==> #[trigger] blocks[k].is_generated_for(
                        before.width as int,
                        before.height as int,
                    ),
            decreases block_count - i,
        {
            let ghost mid = *self;
            let draws = self.add_random_block(rng);
            proof {
                let b = draws.block();
                Course::lemma_lays_blocks_push(&*self, &mid, &before, blocks, b);
                blocks = blocks.push(b);
            }
            i = i + 1;
        }
    }

    /// Number of obstacle cells.
    pub fn obstacle_count(&self) -> (count: usize)
        ensures
            count == count_obstacles(self.cells@),
    {
        let mut count: usize = 0;
        let mut i: usize = 0;
        while i < self.cells.len()
            invariant
                i <= self.cells@.len(),
                count == count_obstacles(self.cells@.take(i as int)),
                count <= i,
            decreases self.cells@.len() - i,
        {
            assert(self.cells@.take(i + 1).drop_last() == self.cells@.take(i as int));
            if self.cells[i] == Cell::Obstacle {
                count = count + 1;
            }
            i = i + 1;
        }
        assert(self.cells@.take(i as int) == self.cells@);
        count
    }

    /// Whether this course is one that generation hands out: the share of
    /// obstacles lies between a quarter and a half, the goal can be reached,
    /// and the shortest walk to it is at least a quarter longer than the
    /// Manhattan distance from start to goal (rounded up).
    pub fn meets_generation_rules(&self) -> (accepted: bool)
        requires
            self.wf(),
            self.in_bounds(self.start),
            manhattan(self.start, self.goal) <= usize::MAX,
        ensures
            accepted == self.meets_generation_rules_spec(),
            accepted ==> 4 * count_obstacles(self.cells@) >= self.cells@.len(),
            accepted ==> 2 * count_obstacles(self.cells@) <= self.cells@.len(),
            accepted ==> exists|d: nat|
                #[trigger] self.is_shortest_distance(self.start, self.goal, d) && 4 * d >= 5 * manhattan(
                    self.start,
                    self.goal,
                ),
            4 * count_obstacles(self.cells@) < self.cells@.len() ==> !accepted,
            2 * count_obstacles(self.cells@) > self.cells@.len() ==> !accepted,
    {
        let n = self.cells.len() as u128;
        let count = self.obstacle_count() as u128;
        if 4 * count < n || 2 * count > n {
            return false;
        }
        match self.shortest_path_length() {
            None => {
                proof {
                    assert forall|d: nat| !self.is_shortest_distance(self.start, self.goal, d) by {
                        if self.is_shortest_distance(self.start, self.goal, d) {
                            let w = choose|w: Seq<Position>| #[trigger] self.walk_between(w, self.start, self.goal) && w.len() == d + 1;
                        }
                    }
                }
                false
            },
            Some(length) => {
                let direct = manhattan_distance(self.start, self.goal) as u128;
                let ok = 4 * (length as u128) >= 5 * direct;
                proof {
                    assert forall|d: nat| self.is_shortest_distance(self.start, self.goal, d) implies d == length by {
                        self.lemma_shortest_distance_unique(self.start, self.goal, d, length as nat);
                    }
                }
                ok
            },
        }
    }

    /// Builds one candidate course: all open, start in the top-left corner,
    /// goal in the bottom-right one, with between `MIN_BLOCK_COUNT` and
    /// `MAX_BLOCK_COUNT` random blocks laid on it.
    pub fn random_candidate(width: usize, height: usize) -> (course: Course)
        requires
            width >= MAX_BLOCK_SIZE,
            height >= MAX_BLOCK_SIZE,
            width * height <= usize::MAX,
        ensures
            course.wf(),
            course.width == width,
            course.height == height,
            course.start == (Position { x: 0, y: 0 }),
            course.goal == (Position { x: (width - 1) as usize, y: (height - 1) as usize }),
            exists|blocks: Seq<Block>| #[trigger] course.is_built_from(blocks),
    {
        let start = Position { x: 0, y: 0 };
        let goal = Position { x: width - 1, y: height - 1 };
        let mut course = Course::new(width, height, start, goal);
        let ghost blank = course;
        let mut rng = thread_rng();
        let block_count = random_range_inclusive(&mut rng, MIN_BLOCK_COUNT, MAX_BLOCK_COUNT);
        let count = block_count.value();
        course.lay_random_blocks(&mut rng, &block_count);
        let ghost blocks = choose|blocks: Seq<Block>|
            #[trigger] course.lays_blocks(&blank, blocks) && blocks.len() == count && forall|k: int|
                0 <= k < blocks.len() ==> #[trigger] blocks[k].is_generated_for(width as int, height as int);
        proof {
            assert forall|p: Position| #![trigger course.cell_at(p)] course.in_bounds(p) implies blank.cell_at(p) == Cell::Open by {
                blank.lemma_index_in_range(p);
            }
            assert(course.is_built_from(blocks));
        }
        course
    }
}

/// Draws made over the full ranges can give every block that generation
/// allows: each side of a generated block of the drawn size, and its place,
/// lies within the range it is drawn from.
pub proof fn law_draws_reach_every_generated_block(draws: BlockDraws, b: Block, width: int, height: int)
    requires
        draws.spans(width, height),
        b.is_generated_for(width, height),
        b.width == draws.width.drawn(),
        b.height == draws.height.drawn(),
    ensures
        draws.width.low() <= b.width <= draws.width.high(),
        draws.height.low() <= b.height <= draws.height.high(),
        draws.x.low() <= b.x <= draws.x.high(),
        draws.y.low() <= b.y <= draws.y.high(),
{
}

/// A course that meets the generation rules has between a quarter and a
/// half of its squares as obstacles, and a shortest walk from start to goal
/// at least five quarters of their Manhattan distance.
pub proof fn law_accepted_course_bounds(course: Course)
    requires
        course.meets_generation_rules_spec(),
    ensures
        4 * count_obstacles(course.cells@) >= course.cells@.len(),
        2 * count_obstacles(course.cells@) <= course.cells@.len(),
        exists|d: nat|
            #[trigger] course.is_shortest_distance(course.start, course.goal, d) && 4 * d >= 5 * manhattan(
                course.start,
                course.goal,
            ),
{
}

/// A generated course never puts an obstacle on its start or its goal.
pub proof fn law_generated_start_and_goal_open(course: Course, blocks: Seq<Block>)
    requires
        course.is_built_from(blocks),
        course.in_bounds(course.start),
        course.in_bounds(course.goal),
    ensures
        course.cell_at(course.start) == Cell::Open,
        course.cell_at(course.goal) == Cell::Open,
{
}

} // verus!
