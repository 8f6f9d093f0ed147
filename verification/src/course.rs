//! Rectangular obstacle courses on a grid, and the shortest walks on them.

use vstd::prelude::*;

verus! {

/// The contents of one grid square.
#[derive(Clone, Copy, Debug, PartialEq, Eq, Structural)]
pub enum Cell {
    Open,
    Obstacle,
}

/// A grid coordinate; `x` grows to the right and `y` downwards.
#[derive(Clone, Copy, Debug, PartialEq, Eq, Structural)]
pub struct Position {
    pub x: usize,
    pub y: usize,
}

/// A course: `cells` holds the grid in row-major order.
pub struct Course {
    pub width: usize,
    pub height: usize,
    pub cells: Vec<Cell>,
    pub start: Position,
    pub goal: Position,
}

/// Two positions are adjacent when they differ by one step along one axis.
pub open spec fn adjacent(a: Position, b: Position) -> bool {
    ||| a.x == b.x && (a.y + 1 == b.y || b.y + 1 == a.y)
    ||| a.y == b.y && (a.x + 1 == b.x || b.x + 1 == a.x)
}

/// `|a.x - b.x| + |a.y - b.y|`.
pub open spec fn manhattan(a: Position, b: Position) -> int {
    (if a.x >= b.x { a.x - b.x } else { b.x - a.x }) + (if a.y >= b.y { a.y - b.y } else { b.y
        - a.y })
}

proof fn lemma_row_major_index(x: int, y: int, w: int, h: int)
    by (nonlinear_arith)
    requires
        0 <= x < w,
        0 <= y < h,
    ensures
        0 <= y * w + x < w * h,
{
}

impl Course {
    /// The grid holds exactly one cell per square.
    pub open spec fn wf(&self) -> bool {
        self.cells@.len() == self.width * self.height
    }

    /// Row-major index of a position.
    pub open spec fn index_of(&self, p: Position) -> int {
        p.y * self.width + p.x
    }

    pub open spec fn in_bounds(&self, p: Position) -> bool {
        p.x < self.width && p.y < self.height
    }

    pub open spec fn cell_at(&self, p: Position) -> Cell {
        self.cells@[self.index_of(p)]
    }

    /// Inside the grid and not an obstacle.
    pub open spec fn walkable(&self, p: Position) -> bool {
        self.in_bounds(p) && self.cell_at(p) == Cell::Open
    }

    pub proof fn lemma_index_in_range(&self, p: Position)
        requires
            self.wf(),
            self.in_bounds(p),
        ensures
            0 <= self.index_of(p) < self.cells@.len(),
    {
        lemma_row_major_index(p.x as int, p.y as int, self.width as int, self.height as int);
    }

    /// An all-open course of the given size.
    pub fn new(width: usize, height: usize, start: Position, goal: Position) -> (course: Self)
        requires
            width * height <= usize::MAX,
        ensures
            course.wf(),
            course.width == width,
            course.height == height,
            course.start == start,
            course.goal == goal,
            forall|i: int| 0 <= i < course.cells@.len() ==> course.cells@[i] == Cell::Open,
    {
        let n: usize = width * height;
        let mut cells: Vec<Cell> = Vec::with_capacity(n);
        let mut i: usize = 0;
        while i < n
            invariant
                i <= n,
                cells@.len() == i,
                forall|j: int| 0 <= j < i ==> cells@[j] == Cell::Open,
            decreases n - i,
        {
            cells.push(Cell::Open);
            i = i + 1;
        }
        Course { width, height, cells, start, goal }
    }

    pub(crate) fn index(&self, position: Position) -> (i: usize)
        requires
            self.index_of(position) < self.cells@.len(),
        ensures
            i == self.index_of(position),
    {
        let cell_count = self.cells.len();
        assert(0 <= position.y * self.width) by (nonlinear_arith);
        assert(self.index_of(position) < cell_count);
        position.y * self.width + position.x
    }

    /// The cell at `position`, read at its row-major index.
    pub fn cell(&self, position: Position) -> (cell: Cell)
        requires
            self.index_of(position) < self.cells@.len(),
        ensures
            cell == self.cell_at(position),
    {
        self.cells[self.index(position)]
    }

    /// Overwrites the cell at `position`'s row-major index.
    pub fn set_cell(&mut self, position: Position, cell: Cell)
        requires
            old(self).index_of(position) < old(self).cells@.len(),
        ensures
            final(self).cells@ == old(self).cells@.update(old(self).index_of(position), cell),
            final(self).width == old(self).width,
            final(self).height == old(self).height,
            final(self).start == old(self).start,
            final(self).goal == old(self).goal,
    {
        let index = self.index(position);
        self.cells.set(index, cell);
    }

    /// Whether an agent may stand on `position`.
    pub fn is_walkable(&self, position: Position) -> (walkable: bool)
        requires
            self.wf(),
        ensures
            walkable == self.walkable(position),
    {
        if position.x < self.width && position.y < self.height {
            proof {
                self.lemma_index_in_range(position);
            }
            self.cell(position) == Cell::Open
        } else {
            false
        }
    }
}

impl Course {
    /// The in-bounds squares next to `p`: left, right, up, down, in that order.
    pub open spec fn neighbor_seq(&self, p: Position) -> Seq<Position> {
        let s0 = Seq::<Position>::empty();
        let s1 = if p.x > 0 { s0.push(Position { x: (p.x - 1) as usize, y: p.y }) } else { s0 };
        let s2 = if p.x + 1 < self.width { s1.push(Position { x: (p.x + 1) as usize, y: p.y }) } else { s1 };
        let s3 = if p.y > 0 { s2.push(Position { x: p.x, y: (p.y - 1) as usize }) } else { s2 };
        if p.y + 1 < self.height { s3.push(Position { x: p.x, y: (p.y + 1) as usize }) } else { s3 }
    }

    pub proof fn lemma_neighbor_seq(&self, p: Position)
        requires
            self.in_bounds(p),
        ensures
            forall|q: Position| #[trigger] self.neighbor_seq(p).contains(q) <==> (self.in_bounds(q) && adjacent(p, q)),
            forall|k: int| 0 <= k < self.neighbor_seq(p).len() ==> self.in_bounds(#[trigger] self.neighbor_seq(p)[k]) && adjacent(p, self.neighbor_seq(p)[k]),
    {
        let s = self.neighbor_seq(p);
        assert forall|q: Position| #[trigger] s.contains(q) implies (self.in_bounds(q) && adjacent(p, q)) by {
            let k = choose|k: int| 0 <= k < s.len() && s[k] == q;
        }
        assert forall|q: Position| self.in_bounds(q) && adjacent(p, q) implies #[trigger] s.contains(q) by {
            let s0 = Seq::<Position>::empty();
            let s1 = if p.x > 0 { s0.push(Position { x: (p.x - 1) as usize, y: p.y }) } else { s0 };
            let s2 = if p.x + 1 < self.width { s1.push(Position { x: (p.x + 1) as usize, y: p.y }) } else { s1 };
            let s3 = if p.y > 0 { s2.push(Position { x: p.x, y: (p.y - 1) as usize }) } else { s2 };
            assert(s =~= (if p.y + 1 < self.height { s3.push(Position { x: p.x, y: (p.y + 1) as usize }) } else { s3 }));
            let k: int = if q.y == p.y && q.x + 1 == p.x {
                0
            } else if q.y == p.y && q.x == p.x + 1 {
                s1.len() as int
            } else if q.x == p.x && q.y + 1 == p.y {
                s2.len() as int
            } else {
                s3.len() as int
            };
            assert(s[k] == q);
        }
    }

    /// The in-bounds squares next to `position`, in the order left, right,
    /// up, down.
    pub(crate) fn neighbors(&self, position: Position) -> (neighbors: Vec<Position>)
        requires
            self.in_bounds(position),
        ensures
            neighbors@ == self.neighbor_seq(position),
    {
        let mut neighbors: Vec<Position> = Vec::with_capacity(4);
        if position.x > 0 {
            neighbors.push(Position { x: position.x - 1, y: position.y });
        }
        if position.x + 1 < self.width {
            neighbors.push(Position { x: position.x + 1, y: position.y });
        }
        if position.y > 0 {
            neighbors.push(Position { x: position.x, y: position.y - 1 });
        }
        if position.y + 1 < self.height {
            neighbors.push(Position { x: position.x, y: position.y + 1 });
        }
        neighbors
    }
}

/// Row-major indices of in-bounds positions differ when the positions do.
proof fn lemma_row_major_injective(x1: int, y1: int, x2: int, y2: int, w: int)
    by (nonlinear_arith)
    requires
        0 <= x1 < w,
        0 <= x2 < w,
        0 <= y1,
        0 <= y2,
        y1 * w + x1 == y2 * w + x2,
    ensures
        x1 == x2,
        y1 == y2,
{
    if y1 < y2 {
        assert(y1 * w + w <= y2 * w);
    } else if y2 < y1 {
        assert(y2 * w + w <= y1 * w);
    }
}

impl Course {
    /// Each square after the first is walkable and next to the one before.
    /// The first square is where the walk begins; it need not be walkable.
    pub open spec fn is_walk(&self, w: Seq<Position>) -> bool {
        forall|i: int|
            1 <= i < w.len() ==> self.walkable(#[trigger] w[i]) && adjacent(w[i - 1], w[i])
    }

    /// `w` is a walk that begins at `s` and ends at `t`; it takes `w.len() - 1` moves.
    pub open spec fn walk_between(&self, w: Seq<Position>, s: Position, t: Position) -> bool {
        &&& w.len() >= 1
        &&& w[0] == s
        &&& w[w.len() - 1] == t
        &&& self.is_walk(w)
    }

    pub open spec fn reachable(&self, s: Position, t: Position) -> bool {
        exists|w: Seq<Position>| #[trigger] self.walk_between(w, s, t)
    }

    /// Some walk from `s` to `t` takes `d` moves, and none takes fewer.
    pub open spec fn is_shortest_distance(&self, s: Position, t: Position, d: nat) -> bool {
        &&& exists|w: Seq<Position>| #[trigger] self.walk_between(w, s, t) && w.len() == d + 1
        &&& forall|w: Seq<Position>| #[trigger] self.walk_between(w, s, t) ==> d + 1 <= w.len()
    }

    /// `dist` holds, at each in-bounds square's index, the number of moves of
    /// a shortest walk to it from `source`, or `usize::MAX` where no walk reaches it.
    pub open spec fn distances_from(&self, source: Position, dist: Seq<usize>) -> bool {
        &&& dist.len() == self.width * self.height
        &&& forall|p: Position|
            #![trigger self.index_of(p)]
            self.in_bounds(p) ==> {
                &&& (dist[self.index_of(p)] == usize::MAX <==> !self.reachable(source, p))
                &&& (dist[self.index_of(p)] != usize::MAX ==> self.is_shortest_distance(
                    source,
                    p,
                    dist[self.index_of(p)] as nat,
                ))
            }
    }

    pub proof fn lemma_index_injective(&self, a: Position, b: Position)
        requires
            self.in_bounds(a),
            self.in_bounds(b),
            self.index_of(a) == self.index_of(b),
        ensures
            a == b,
    {
        lemma_row_major_injective(a.x as int, a.y as int, b.x as int, b.y as int, self.width as int);
    }

}

proof fn lemma_row_major_position(j: int, w: int, h: int, q: int, r: int)
    by (nonlinear_arith)
    requires
        0 <= j < w * h,
        0 < w,
        j == w * q + r,
        0 <= r < w,
    ensures
        0 <= q < h,
        q * w + r == j,
{
    if q < 0 {
        assert(w * q <= -w);
    }
    if q >= h {
        assert(w * q >= w * h);
    }
}

impl Course {
    /// The square whose row-major index is `j`.
    pub open spec fn position_of(&self, j: int) -> Position {
        Position { x: (j % (self.width as int)) as usize, y: (j / (self.width as int)) as usize }
    }

    pub proof fn lemma_position_of(&self, j: int)
        requires
            self.wf(),
            0 <= j < self.cells@.len(),
        ensures
            self.in_bounds(self.position_of(j)),
            self.index_of(self.position_of(j)) == j,
    {
        let w = self.width as int;
        if w == 0 {
            assert(w * (self.height as int) == 0) by (nonlinear_arith)
                requires w == 0;
        }
        vstd::arithmetic::div_mod::lemma_fundamental_div_mod(j, w);
        vstd::arithmetic::div_mod::lemma_mod_bound(j, w);
        lemma_row_major_position(j, w, self.height as int, j / w, j % w);
    }
}

impl Course {
    /// How a square is drawn: `S` for the start, `G` for the goal, `.` for
    /// an open square and `#` for an obstacle.
    pub open spec fn symbol_at(&self, p: Position) -> char {
        if p == self.start {
            'S'
        } else if p == self.goal {
            'G'
        } else if self.cell_at(p) == Cell::Open {
            '.'
        } else {
            '#'
        }
    }

    /// The first `x` symbols of row `y`.
    pub open spec fn row_prefix(&self, y: nat, x: nat) -> Seq<char> {
        Seq::new(x, |i: int| self.symbol_at(Position { x: i as usize, y: y as usize }))
    }

    /// The first `rows` rows, each followed by a line break.
    pub open spec fn text_of_rows(&self, rows: nat) -> Seq<char>
        decreases rows,
    {
        if rows == 0 {
            Seq::empty()
        } else {
            self.text_of_rows((rows - 1) as nat) + self.row_prefix((rows - 1) as nat, self.width as nat).push('\n')
        }
    }

    /// The course drawn as text, one line per row.
    pub fn to_text(&self) -> (text: String)
        requires
            self.wf(),
        ensures
            text@ == self.text_of_rows(self.height as nat),
    {
        let mut text = String::new();
        let mut y: usize = 0;
        while y < self.height
            invariant
                self.wf(),
                y <= self.height,
                text@ == self.text_of_rows(y as nat),
            decreases self.height - y,
        {
            let mut x: usize = 0;
            while x < self.width
                invariant
                    self.wf(),
                    y < self.height,
                    x <= self.width,
                    text@ == self.text_of_rows(y as nat) + self.row_prefix(y as nat, x as nat),
                decreases self.width - x,
            {
                let position = Position { x, y };
                proof {
                    self.lemma_index_in_range(position);
                    reveal_strlit("S");
                    reveal_strlit("G");
                    reveal_strlit(".");
                    reveal_strlit("#");
                }
                let ghost before = text@;
                if position == self.start {
                    text.append("S");
                } else if position == self.goal {
                    text.append("G");
                } else {
                    match self.cell(position) {
                        Cell::Open => text.append("."),
                        Cell::Obstacle => text.append("#"),
                    }
                }
                assert(text@ == before.push(self.symbol_at(position)));
                assert(self.row_prefix(y as nat, (x + 1) as nat) == self.row_prefix(y as nat, x as nat).push(self.symbol_at(position)));
                x = x + 1;
            }
            proof {
                reveal_strlit("\n");
            }
            text.append("\n");
            y = y + 1;
        }
        text
    }
}

/// Writing a cell and then reading it gives back what was written, and every
/// other square reads as before.
pub proof fn law_read_after_write(before: Course, after: Course, position: Position, cell: Cell, other: Position)
    requires
        before.index_of(position) < before.cells@.len(),
        after.width == before.width,
        after.cells@ == before.cells@.update(before.index_of(position), cell),
        0 <= after.index_of(other) < after.cells@.len(),
    ensures
        after.cell_at(position) == cell,
        after.index_of(other) != after.index_of(position) ==> after.cell_at(other) == before.cell_at(other),
{
    assert(0 <= position.y * before.width) by (nonlinear_arith);
}

/// No walk is shorter than the Manhattan distance between its ends.
pub proof fn law_walk_at_least_manhattan(course: Course, w: Seq<Position>, s: Position, t: Position)
    requires
        course.walk_between(w, s, t),
    ensures
        manhattan(s, t) <= w.len() - 1,
    decreases w.len(),
{
    if w.len() > 1 {
        let shorter = w.drop_last();
        let mid = w[w.len() - 2];
        assert forall|i: int| 1 <= i < shorter.len() implies course.walkable(#[trigger] shorter[i]) && adjacent(shorter[i - 1], shorter[i]) by {
            assert(shorter[i] == w[i] && shorter[i - 1] == w[i - 1]);
        }
        assert(course.walkable(w[w.len() - 1]) && adjacent(w[w.len() - 2], w[w.len() - 1]));
        law_walk_at_least_manhattan(course, shorter, s, mid);
    }
}

/// Walked backwards, a walk between two walkable squares is a walk again,
/// so the shortest distance between them is the same in both directions.
pub proof fn law_distance_symmetric(course: Course, s: Position, t: Position, d: nat)
    requires
        course.walkable(s),
        course.walkable(t),
        course.is_shortest_distance(s, t, d),
    ensures
        course.is_shortest_distance(t, s, d),
{
    let w = choose|w: Seq<Position>| #[trigger] course.walk_between(w, s, t) && w.len() == d + 1;
    lemma_reverse_walk(course, w, s, t);
    assert(course.walk_between(w.reverse(), t, s));
    assert forall|v: Seq<Position>| #[trigger] course.walk_between(v, t, s) implies d + 1 <= v.len() by {
        lemma_reverse_walk(course, v, t, s);
        assert(course.walk_between(v.reverse(), s, t));
    }
}

proof fn lemma_reverse_walk(course: Course, w: Seq<Position>, s: Position, t: Position)
    requires
        course.walkable(s),
        course.walk_between(w, s, t),
    ensures
        course.walk_between(w.reverse(), t, s),
        w.reverse().len() == w.len(),
{
    let r = w.reverse();
    let n = w.len();
    assert forall|i: int| 1 <= i < r.len() implies course.walkable(#[trigger] r[i]) && adjacent(r[i - 1], r[i]) by {
        assert(r[i] == w[n - 1 - i]);
        assert(r[i - 1] == w[n - i]);
        if n - 1 - i >= 1 {
            assert(course.walkable(w[n - 1 - i]));
        }
        assert(course.walkable(w[n - i]) && adjacent(w[n - i - 1], w[n - i]));
    }
}

/// `|a.x - b.x| + |a.y - b.y|`, where the sum fits in a `usize`.
pub fn manhattan_distance(a: Position, b: Position) -> (d: usize)
    requires
        manhattan(a, b) <= usize::MAX,
    ensures
        d == manhattan(a, b),
{
    let dx = if a.x >= b.x { a.x - b.x } else { b.x - a.x };
    let dy = if a.y >= b.y { a.y - b.y } else { b.y - a.y };
    dx + dy
}

} // verus!
