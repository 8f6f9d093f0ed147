//! Shortest walks on a course, found by breadth-first search over its
//! walkable squares.

use std::collections::VecDeque;

use crate::course::{adjacent, Course, Position};
use vstd::prelude::*;

verus! {

impl Course {
    /// Once every square in `queue` has had its neighbors discovered, every
    /// square along any walk from `source` is discovered, at a distance no
    /// greater than its place on the walk.
    proof fn lemma_walks_are_discovered(
        &self,
        source: Position,
        dist: Seq<usize>,
        queue: Seq<Position>,
        slot: Seq<int>,
        w: Seq<Position>,
        k: int,
    )
        requires
            self.wf(),
            self.in_bounds(source),
            dist.len() == self.cells@.len(),
            dist[self.index_of(source)] == 0,
            forall|i: int| 0 <= i < queue.len() ==> self.in_bounds(#[trigger] queue[i]),
            forall|j: int|
                0 <= j < dist.len() && #[trigger] dist[j] != usize::MAX ==> 0 <= slot[j] < queue.len()
                    && self.index_of(queue[slot[j]]) == j,
            forall|i: int, p: Position|
                0 <= i < queue.len() && self.walkable(p) && #[trigger] adjacent(queue[i], p) ==> {
                    &&& dist[self.index_of(p)] != usize::MAX
                    &&& dist[self.index_of(p)] <= dist[self.index_of(queue[i])] + 1
                },
            self.walk_between(w, source, w[w.len() - 1]),
            0 <= k < w.len(),
        ensures
            dist[self.index_of(w[k])] != usize::MAX,
            dist[self.index_of(w[k])] <= k,
        decreases k,
    {
        if k > 0 {
            self.lemma_walks_are_discovered(source, dist, queue, slot, w, k - 1);
            let prev = w[k - 1];
            assert(self.in_bounds(prev)) by {
                if k - 1 > 0 {
                    assert(self.walkable(w[k - 1]));
                }
            }
            self.lemma_index_in_range(prev);
            let j = self.index_of(prev);
            let s = slot[j];
            assert(dist[j] != usize::MAX);
            self.lemma_index_injective(queue[s], prev);
            assert(self.walkable(w[k]) && adjacent(w[k - 1], w[k]));
            assert(adjacent(queue[s], w[k]));
        }
    }
}

impl Course {
    /// What holds of a breadth-first search from `source` before each square
    /// of `queue` from `head` on is expanded.
    spec fn search_state(
        &self,
        source: Position,
        dist: Seq<usize>,
        queue: Seq<Position>,
        walks: Seq<Seq<Position>>,
        slot: Seq<int>,
        seen: Set<int>,
        head: int,
    ) -> bool {
        &&& self.wf()
        &&& self.in_bounds(source)
        &&& dist.len() == self.cells@.len()
        &&& dist.len() <= usize::MAX
        &&& 1 <= queue.len() <= dist.len()
        &&& 0 <= head <= queue.len()
        &&& queue[0] == source
        &&& dist[self.index_of(source)] == 0
        &&& walks.len() == queue.len()
        &&& slot.len() == dist.len()
        &&& seen.finite()
        &&& seen.len() == queue.len()
        &&& forall|j: int| #[trigger] seen.contains(j) <==> (0 <= j < dist.len() && dist[j] != usize::MAX)
        &&& forall|i: int|
            0 <= i < queue.len() ==> {
                &&& self.in_bounds(#[trigger] queue[i])
                &&& dist[self.index_of(queue[i])] != usize::MAX
                &&& dist[self.index_of(queue[i])] <= i
                &&& self.walk_between(walks[i], source, queue[i])
                &&& walks[i].len() == dist[self.index_of(queue[i])] + 1
            }
        &&& forall|j: int|
            0 <= j < dist.len() && #[trigger] dist[j] != usize::MAX ==> 0 <= slot[j] < queue.len()
                && self.index_of(queue[slot[j]]) == j
        &&& forall|i: int, j: int|
            0 <= i <= j < queue.len() ==> dist[self.index_of(#[trigger] queue[i])] <= dist[self.index_of(
                #[trigger] queue[j],
            )]
        &&& head < queue.len() ==> forall|i: int|
            0 <= i < queue.len() ==> dist[self.index_of(#[trigger] queue[i])] <= dist[self.index_of(
                queue[head],
            )] + 1
        &&& forall|i: int, p: Position|
            0 <= i < head && self.walkable(p) && #[trigger] adjacent(queue[i], p) ==> {
                &&& dist[self.index_of(p)] != usize::MAX
                &&& dist[self.index_of(p)] <= dist[self.index_of(queue[i])] + 1
            }
    }

    proof fn lemma_search_complete(
        &self,
        source: Position,
        dist: Seq<usize>,
        queue: Seq<Position>,
        walks: Seq<Seq<Position>>,
        slot: Seq<int>,
        seen: Set<int>,
    )
        requires
            self.search_state(source, dist, queue, walks, slot, seen, queue.len() as int),
        ensures
            self.distances_from(source, dist),
    {
        assert forall|p: Position| #![trigger self.index_of(p)] self.in_bounds(p) implies {
            &&& (dist[self.index_of(p)] == usize::MAX <==> !self.reachable(source, p))
            &&& (dist[self.index_of(p)] != usize::MAX ==> self.is_shortest_distance(
                source,
                p,
                dist[self.index_of(p)] as nat,
            ))
        } by {
            self.lemma_index_in_range(p);
            let j = self.index_of(p);
            assert forall|w: Seq<Position>| #[trigger] self.walk_between(w, source, p) implies dist[j]
                != usize::MAX && dist[j] + 1 <= w.len() by {
                self.lemma_walks_are_discovered(source, dist, queue, slot, w, w.len() - 1);
            }
            if dist[j] != usize::MAX {
                let s = slot[j];
                self.lemma_index_injective(queue[s], p);
                assert(self.walk_between(walks[s], source, p));
            }
        }
    }

    /// Discovering one more square keeps the search state.
    proof fn lemma_search_push(
        &self,
        source: Position,
        dist: Seq<usize>,
        queue: Seq<Position>,
        walks: Seq<Seq<Position>>,
        slot: Seq<int>,
        seen: Set<int>,
        head: int,
        nb: Position,
    )
        requires
            self.search_state(source, dist, queue, walks, slot, seen, head),
            head < queue.len(),
            self.walkable(nb),
            adjacent(queue[head], nb),
            dist[self.index_of(nb)] == usize::MAX,
            queue.len() + 1 <= dist.len(),
        ensures
            ({
                let j = self.index_of(nb);
                let d = dist[self.index_of(queue[head])];
                self.search_state(
                    source,
                    dist.update(j, (d + 1) as usize),
                    queue.push(nb),
                    walks.push(walks[head].push(nb)),
                    slot.update(j, queue.len() as int),
                    seen.insert(j),
                    head,
                )
            }),
    {
        let j = self.index_of(nb);
        let c = queue[head];
        let d = dist[self.index_of(c)];
        self.lemma_index_in_range(nb);
        self.lemma_index_in_range(c);
        let dist2 = dist.update(j, (d + 1) as usize);
        let queue2 = queue.push(nb);
        let walks2 = walks.push(walks[head].push(nb));
        let slot2 = slot.update(j, queue.len() as int);
        let seen2 = seen.insert(j);
        assert(!seen.contains(j));
        assert(seen2.len() == queue2.len());
        assert(self.index_of(source) != j);
        assert forall|i: int| 0 <= i < queue.len() implies self.index_of(#[trigger] queue[i]) != j by {
            assert(dist[self.index_of(queue[i])] != usize::MAX);
        }
        assert forall|jj: int| #[trigger] seen2.contains(jj) <==> (0 <= jj < dist2.len() && dist2[jj] != usize::MAX) by {
            if jj != j {
                assert(seen2.contains(jj) <==> seen.contains(jj));
            }
        }
        assert forall|i: int| 0 <= i < queue2.len() implies {
            &&& self.in_bounds(#[trigger] queue2[i])
            &&& dist2[self.index_of(queue2[i])] != usize::MAX
            &&& dist2[self.index_of(queue2[i])] <= i
            &&& self.walk_between(walks2[i], source, queue2[i])
            &&& walks2[i].len() == dist2[self.index_of(queue2[i])] + 1
        } by {
            if i < queue.len() {
                assert(queue2[i] == queue[i]);
                assert(walks2[i] == walks[i]);
                assert(self.in_bounds(queue[i]));
                self.lemma_index_in_range(queue[i]);
                assert(dist[self.index_of(queue[i])] != usize::MAX);
                assert(self.index_of(queue[i]) != j);
                assert(dist2[self.index_of(queue2[i])] == dist[self.index_of(queue[i])]);
            } else {
                assert(queue2[i] == nb);
                assert(dist2[j] == d + 1);
                assert(dist[self.index_of(queue[head])] <= head);
                let w = walks[head].push(nb);
                assert(self.walk_between(walks[head], source, c));
                assert forall|t: int| 1 <= t < w.len() implies self.walkable(#[trigger] w[t]) && adjacent(w[t - 1], w[t]) by {
                    if t < w.len() - 1 {
                        assert(w[t] == walks[head][t]);
                        assert(w[t - 1] == walks[head][t - 1]);
                    }
                }
                assert(self.walk_between(w, source, nb));
            }
        }
        assert forall|jj: int| 0 <= jj < dist2.len() && #[trigger] dist2[jj] != usize::MAX implies 0 <= slot2[jj] < queue2.len()
            && self.index_of(queue2[slot2[jj]]) == jj by {
            if jj != j {
                assert(dist[jj] != usize::MAX);
                assert(queue2[slot[jj]] == queue[slot[jj]]);
            }
        }
        assert forall|i: int, k: int| 0 <= i <= k < queue2.len() implies dist2[self.index_of(#[trigger] queue2[i])] <= dist2[self.index_of(#[trigger] queue2[k])] by {
            if k < queue.len() {
                assert(queue2[i] == queue[i]);
                assert(queue2[k] == queue[k]);
                assert(dist[self.index_of(queue[i])] <= dist[self.index_of(queue[k])]);
            } else if i < queue.len() {
                assert(queue2[i] == queue[i]);
                assert(dist[self.index_of(queue[i])] <= d + 1);
            }
        }
        assert forall|i: int| 0 <= i < queue2.len() implies dist2[self.index_of(#[trigger] queue2[i])] <= dist2[self.index_of(queue2[head])] + 1 by {
            assert(queue2[head] == c);
            if i < queue.len() {
                assert(queue2[i] == queue[i]);
                assert(dist[self.index_of(queue[i])] <= d + 1);
            }
        }
        assert forall|i: int, p: Position| 0 <= i < head && self.walkable(p) && #[trigger] adjacent(queue2[i], p) implies {
            &&& dist2[self.index_of(p)] != usize::MAX
            &&& dist2[self.index_of(p)] <= dist2[self.index_of(queue2[i])] + 1
        } by {
            assert(queue2[i] == queue[i]);
            assert(adjacent(queue[i], p));
            self.lemma_index_in_range(p);
            self.lemma_index_in_range(queue[i]);
            assert(dist[self.index_of(p)] != usize::MAX);
            assert(self.index_of(p) != j);
            assert(self.in_bounds(queue[i]));
            assert(dist[self.index_of(queue[i])] != usize::MAX);
            assert(self.index_of(queue[i]) != j);
        }
        assert(queue2[0] == source);
        assert(dist2[self.index_of(source)] == 0);
        assert(self.search_state(source, dist2, queue2, walks2, slot2, seen2, head));
    }

    /// Breadth-first search over walkable squares from `source`.
    pub(crate) fn search_from(&self, source: Position) -> (dist: Vec<usize>)
        requires
            self.wf(),
            self.in_bounds(source),
        ensures
            self.distances_from(source, dist@),
    {
        let n = self.cells.len();
        let mut dist: Vec<usize> = Vec::with_capacity(n);
        while dist.len() < n
            invariant
                dist@.len() <= n,
                forall|j: int| 0 <= j < dist@.len() ==> dist@[j] == usize::MAX,
            decreases n - dist@.len(),
        {
            dist.push(usize::MAX);
        }
        proof {
            self.lemma_index_in_range(source);
        }
        let si = self.index(source);
        dist.set(si, 0);
        let mut queue: VecDeque<Position> = VecDeque::new();
        queue.push_back(source);
        let ghost mut order: Seq<Position> = seq![source];
        let ghost mut walks: Seq<Seq<Position>> = seq![seq![source]];
        let ghost mut slot: Seq<int> = Seq::new(n as nat, |j: int| 0int);
        let ghost mut seen: Set<int> = Set::empty().insert(si as int);
        proof {
            assert(seen.len() == 1);
            assert forall|j: int| #[trigger] seen.contains(j) <==> (0 <= j < dist@.len() && dist@[j]
                != usize::MAX) by {
                if j != si {
                    assert(seen.contains(j) <==> j == si);
                }
            }
            assert(self.walk_between(walks[0], source, order[0]));
        }
        let ghost mut head: int = 0;
        while queue.len() > 0
            invariant
                n == self.cells@.len(),
                self.search_state(source, dist@, order, walks, slot, seen, head),
                queue@ == order.subrange(head, order.len() as int),
            decreases n - head,
        {
            let current = queue.pop_front().unwrap();
            assert(current == order[head]);
            proof {
                self.lemma_index_in_range(current);
            }
            let ci = self.index(current);
            let d = dist[ci];
            let nbrs = self.neighbors(current);
            proof {
                self.lemma_neighbor_seq(current);
            }
            let mut k: usize = 0;
            while k < nbrs.len()
                invariant
                    n == self.cells@.len(),
                    self.search_state(source, dist@, order, walks, slot, seen, head),
                    queue@ == order.subrange(head + 1, order.len() as int),
                    head < order.len(),
                    current == order[head],
                    d == dist@[self.index_of(current)],
                    nbrs@ == self.neighbor_seq(current),
                    forall|q: Position| #[trigger] nbrs@.contains(q) <==> (self.in_bounds(q) && adjacent(current, q)),
                    forall|kk: int| 0 <= kk < nbrs@.len() ==> self.in_bounds(#[trigger] nbrs@[kk]) && adjacent(current, nbrs@[kk]),
                    k <= nbrs@.len(),
                    forall|kk: int|
                        0 <= kk < k && self.walkable(#[trigger] nbrs@[kk]) ==> {
                            &&& dist@[self.index_of(nbrs@[kk])] != usize::MAX
                            &&& dist@[self.index_of(nbrs@[kk])] <= d + 1
                        },
                decreases nbrs@.len() - k,
            {
                let nb = nbrs[k];
                if self.is_walkable(nb) {
                    proof {
                        self.lemma_index_in_range(nb);
                    }
                    let ni = self.index(nb);
                    if dist[ni] != usize::MAX {
                        proof {
                            let sl = slot[ni as int];
                            assert(self.index_of(order[sl]) == ni);
                            assert(dist@[self.index_of(order[sl])] <= d + 1);
                        }
                    } else {
                        let ghost old_dist = dist@;
                        let ghost old_queue = order;
                        let ghost old_walks = walks;
                        let ghost old_slot = slot;
                        let ghost old_seen = seen;
                        let ghost len = order.len() as int;
                        proof {
                            assert(!seen.contains(ni as int));
                            let range = vstd::set_lib::set_int_range(0, n as int);
                            vstd::set_lib::lemma_int_range(0, n as int);
                            assert(seen.insert(ni as int).subset_of(range));
                            vstd::set_lib::lemma_len_subset(seen.insert(ni as int), range);
                        }
                        dist.set(ni, d + 1);
                        queue.push_back(nb);
                        proof {
                            order = order.push(nb);
                            walks = walks.push(walks[head].push(nb));
                            slot = slot.update(ni as int, len);
                            seen = seen.insert(ni as int);
                            self.lemma_search_push(source, old_dist, old_queue, old_walks, old_slot, old_seen, head, nb);
                            assert(queue@ == order.subrange(head + 1, order.len() as int));
                            assert(dist@ == old_dist.update(ni as int, (d + 1) as usize));
                            assert forall|kk: int| 0 <= kk < k && self.walkable(#[trigger] nbrs@[kk]) implies {
                                &&& dist@[self.index_of(nbrs@[kk])] != usize::MAX
                                &&& dist@[self.index_of(nbrs@[kk])] <= d + 1
                            } by {
                                self.lemma_index_in_range(nbrs@[kk]);
                                assert(old_dist[self.index_of(nbrs@[kk])] != usize::MAX);
                            }
                        }
                    }
                }
                proof {
                    assert forall|kk: int| 0 <= kk < k + 1 && self.walkable(#[trigger] nbrs@[kk]) implies {
                        &&& dist@[self.index_of(nbrs@[kk])] != usize::MAX
                        &&& dist@[self.index_of(nbrs@[kk])] <= d + 1
                    } by {
                        if kk == k {
                            assert(nbrs@[kk] == nb);
                        }
                    }
                }
                k = k + 1;
            }
            proof {
                assert forall|i: int, p: Position|
                    0 <= i < head + 1 && self.walkable(p) && #[trigger] adjacent(order[i], p) implies {
                        &&& dist@[self.index_of(p)] != usize::MAX
                        &&& dist@[self.index_of(p)] <= dist@[self.index_of(order[i])] + 1
                    } by {
                    if i == head {
                        assert(nbrs@.contains(p));
                        let kk = choose|kk: int| 0 <= kk < nbrs@.len() && nbrs@[kk] == p;
                        assert(self.walkable(nbrs@[kk]));
                    }
                }
                if head + 1 < order.len() {
                    assert(dist@[self.index_of(order[head])] <= dist@[self.index_of(order[head + 1])]);
                }
                head = head + 1;
            }
        }
        proof {
            assert(head == order.len());
            self.lemma_search_complete(source, dist@, order, walks, slot, seen);
        }
        dist
    }
}

impl Course {
    pub proof fn lemma_shortest_distance_unique(&self, s: Position, t: Position, d1: nat, d2: nat)
        requires
            self.is_shortest_distance(s, t, d1),
            self.is_shortest_distance(s, t, d2),
        ensures
            d1 == d2,
    {
        let w1 = choose|w: Seq<Position>| #[trigger] self.walk_between(w, s, t) && w.len() == d1 + 1;
        let w2 = choose|w: Seq<Position>| #[trigger] self.walk_between(w, s, t) && w.len() == d2 + 1;
    }

    /// Number of moves of a shortest walk from the start to the goal, or
    /// `None` when no walk reaches the goal.
    pub fn shortest_path_length(&self) -> (length: Option<usize>)
        requires
            self.wf(),
            self.in_bounds(self.start),
        ensures
            match length {
                Some(d) => self.is_shortest_distance(self.start, self.goal, d as nat),
                None => !self.reachable(self.start, self.goal),
            },
    {
        let dist = self.search_from(self.start);
        if self.goal.x < self.width && self.goal.y < self.height {
            proof {
                self.lemma_index_in_range(self.goal);
            }
            let d = dist[self.index(self.goal)];
            if d == usize::MAX {
                None
            } else {
                Some(d)
            }
        } else {
            proof {
                assert forall|w: Seq<Position>| !#[trigger] self.walk_between(w, self.start, self.goal) by {
                    if self.walk_between(w, self.start, self.goal) && w.len() > 1 {
                        assert(self.walkable(w[w.len() - 1]));
                    }
                }
            }
            None
        }
    }
}

impl Course {
    /// Every square that some walk reaches from `s` has a shortest walk
    /// from `s`: the shortest distance is well defined.
    pub proof fn law_reachable_has_shortest_distance(&self, s: Position, t: Position)
        requires
            self.reachable(s, t),
        ensures
            exists|d: nat| self.is_shortest_distance(s, t, d),
    {
        let w = choose|w: Seq<Position>| #[trigger] self.walk_between(w, s, t);
        self.lemma_shortest_below(s, t, w);
    }

    proof fn lemma_shortest_below(&self, s: Position, t: Position, w: Seq<Position>)
        requires
            self.walk_between(w, s, t),
        ensures
            exists|d: nat| self.is_shortest_distance(s, t, d),
        decreases w.len(),
    {
        if forall|v: Seq<Position>| #[trigger] self.walk_between(v, s, t) ==> w.len() <= v.len() {
            assert(self.is_shortest_distance(s, t, (w.len() - 1) as nat));
        } else {
            let v = choose|v: Seq<Position>| #[trigger] self.walk_between(v, s, t) && v.len() < w.len();
            self.lemma_shortest_below(s, t, v);
        }
    }
}

} // verus!
