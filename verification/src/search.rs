//! Why the A* search is right: the facts that hold of its state from step
//! to step, and what follows from them for the route it hands out.

use vstd::prelude::*;
use crate::grid::{
    count, lemma_count_bounds, lemma_count_uniform, lemma_count_update, lemma_with_entry, uniform,
};
use crate::maze::Point;
use crate::solving::{finite, key_before, lemma_lowest, lowest, CostState, SolverState, SolverView};

verus! {

impl SolverView {
    /// One move changes the distance to the end by one, and a cell of the
    /// maze is never farther from the end than width plus height.
    pub proof fn lemma_estimate(self, a: Point, b: Point)
        requires
            self.maze.wf(),
            self.contains(a),
        ensures
            0 <= self.h(a) <= self.maze.width + self.maze.height - 2,
            a.adjacent(b) ==> self.h(b) == self.h(a) + 1 || self.h(b) == self.h(a) - 1,
            a.adjacent(b) ==> (a.x + a.y + b.x + b.y) % 2 == 1,
            a.adjacent(b) ==> b.adjacent(a),
    {
    }

    /// Setting up a clear solver makes it well formed.
    pub proof fn lemma_initialized(self)
        requires
            self.wf(),
            self.state == SolverState::Clear,
        ensures
            self.initialized().wf(),
            self.initialized().budget() < self.budget(),
            !self.initialized().found(),
    {
        let ready = self.initialized();
        let w = self.maze.width as nat;
        let h = self.maze.height as nat;
        let start = self.maze.start;
        let blank = uniform(w, h, usize::MAX);
        lemma_count_uniform(w, h, usize::MAX, finite());
        lemma_count_uniform(w, h, None::<Point>, |p: Option<Point>| true);
        lemma_with_entry(blank, w, h, start.x as int, start.y as int, 0usize);
        lemma_count_update(blank, finite(), start.x as int, start.y as int, 0usize);
        self.lemma_estimate(start, start);
        assert forall|p: Point| ready.contains(p) implies ready.g(p) == if p == start {
            0usize
        } else {
            usize::MAX
        } by {
            assert(ready.g(p) == ready.g_score[p.x as int][p.y as int]);
        }
        assert(ready.open.entries[0].position == start);
        assert(ready.open.has(start));
        assert forall|p: Point| ready.contains(p) implies ready.parent(p) is None by {
            assert(ready.parent(p) == ready.came_from[p.x as int][p.y as int]);
        }
        assert(ready.parity()) by {
            assert forall|p: Point| #[trigger] ready.reached(p) implies (ready.g(p) + p.x + p.y
                + start.x + start.y) % 2 == 0 by {
                assert(p == start);
                assert((0 + 2 * (start.x + start.y)) % 2 == 0);
            }
        }
        assert(ready.bounded());
        assert(ready.ordered());
        assert(ready.relaxed_but(None, Seq::empty()));
    }

    /// What taking the due cell out of the open set does. The cell joins
    /// the closed ones, which were all due no later than it.
    pub proof fn lemma_popped(self)
        requires
            self.wf(),
            self.state != SolverState::Clear,
            self.open.entries.len() > 0,
        ensures
            self.contains(self.next_up()),
            self.g(self.next_up()) + self.maze.width + self.maze.height <= usize::MAX,
            self.popped().sound(),
            self.popped().closed(self.next_up()),
            forall|p: Point| self.popped().closed(p) <==> self.closed(p) || p == self.next_up(),
            self.popped().relaxed_but(Some(self.next_up()), Seq::empty()),
            forall|c: Point| #[trigger]
                self.popped().closed(c) ==> key_before(
                    self.g(c) + self.h(c),
                    self.h(c),
                    self.g(self.next_up()) + self.h(self.next_up()),
                    self.h(self.next_up()),
                ),
            self.popped().budget() + 1 == self.budget(),
            self.next_up() == self.maze.end ==> self.popped().wf(),
            self.next_up() != self.maze.end ==> self.popped().expanding(
                self.next_up(),
                Seq::empty(),
            ),
    {
        let after = self.popped();
        let i = lowest(self.open.entries, self.open.goal);
        let u = self.next_up();
        lemma_lowest(self.open.entries, self.open.goal);
        let entries = self.open.entries;
        assert(self.reached(entries[i].position));
        lemma_count_bounds(self.g_score, finite(), self.maze.height as nat);
        assert(self.g(u) < count(self.g_score, finite()));
        assert forall|p: Point| after.open.has(p) <==> self.open.has(p) && p != u by {
            if after.open.has(p) {
                let j = choose|j: int|
                    0 <= j < after.open.entries.len() && (#[trigger] after.open.entries[j]).position
                        == p;
                let k = if j < i {
                    j
                } else {
                    j + 1
                };
                assert(entries[k].position == p);
            }
            if self.open.has(p) && p != u {
                let k = choose|k: int| 0 <= k < entries.len() && (#[trigger] entries[k]).position == p;
                let j = if k < i {
                    k
                } else {
                    k - 1
                };
                assert(after.open.entries[j].position == p);
            }
        }
        assert(self.open.has(u));
        assert forall|p: Point| after.closed(p) <==> self.closed(p) || p == u by {
            assert(after.open.has(p) <==> self.open.has(p) && p != u);
        }
        assert(after.entries_agree()) by {
            assert forall|j: int| 0 <= j < after.open.entries.len() implies after.reached(
                (#[trigger] after.open.entries[j]).position,
            ) && after.open.entries[j].cost == after.g(after.open.entries[j].position) + after.h(
                after.open.entries[j].position,
            ) by {
                let k = if j < i {
                    j
                } else {
                    j + 1
                };
                assert(after.open.entries[j] == entries[k]);
            }
            assert forall|j: int, l: int|
                0 <= j < after.open.entries.len() && 0 <= l < after.open.entries.len() && j
                    != l implies (#[trigger] after.open.entries[j]).position != (
            #[trigger] after.open.entries[l]).position by {
                let kj = if j < i {
                    j
                } else {
                    j + 1
                };
                let kl = if l < i {
                    l
                } else {
                    l + 1
                };
                assert(after.open.entries[j] == entries[kj]);
                assert(after.open.entries[l] == entries[kl]);
            }
        }
        assert(after.parents_agree()) by {
            assert forall|p: Point| after.contains(p) implies if after.reached(p) && p
                != after.maze.start {
                &&& (#[trigger] after.parent(p)) matches Some(q)
                &&& after.maze.is_open(q, p)
                &&& after.closed(q)
                &&& after.g(p) == after.g(q) + 1
            } else {
                after.parent(p) is None
            } by {
                if self.reached(p) && p != self.maze.start {
                    let q = self.parent(p)->Some_0;
                    assert(self.closed(q));
                    assert(after.closed(q) <==> self.closed(q) || q == u);
                }
            }
        }
        assert forall|c: Point| #[trigger] after.closed(c) implies key_before(
            self.g(c) + self.h(c),
            self.h(c),
            self.g(u) + self.h(u),
            self.h(u),
        ) by {
            assert(after.closed(c) <==> self.closed(c) || c == u);
            if c != u {
                assert(key_before(
                    self.g(c) + self.h(c),
                    self.h(c),
                    entries[i].cost as int,
                    self.h(entries[i].position),
                ));
            }
        }
        assert(after.ordered()) by {
            assert forall|c: Point, j: int| #[trigger]
                after.closed(c) && 0 <= j < after.open.entries.len() implies key_before(
                after.g(c) + after.h(c),
                after.h(c),
                (#[trigger] after.open.entries[j]).cost as int,
                after.h(after.open.entries[j].position),
            ) by {
                let k = if j < i {
                    j
                } else {
                    j + 1
                };
                assert(after.open.entries[j] == entries[k]);
                assert(after.closed(c) <==> self.closed(c) || c == u);
                if c == u {
                    assert(crate::solving::before(entries[i], entries[k], self.open.goal));
                    assert(self.reached(entries[k].position));
                } else {
                    assert(key_before(
                        self.g(c) + self.h(c),
                        self.h(c),
                        entries[k].cost as int,
                        self.h(entries[k].position),
                    ));
                }
            }
        }
        assert(after.parity()) by {
            assert forall|p: Point| #[trigger] after.reached(p) implies (after.g(p) + p.x + p.y
                + after.maze.start.x + after.maze.start.y) % 2 == 0 by {
                assert(self.reached(p));
            }
        }
        assert(after.bounded()) by {
            assert forall|p: Point| #[trigger] after.reached(p) implies after.g(p) < count(
                after.g_score,
                finite(),
            ) by {
                assert(self.reached(p));
            }
        }
        assert(after.relaxed_but(Some(u), Seq::empty())) by {
            assert forall|c: Point, n: Point|
                after.closed(c) && c != after.maze.end && #[trigger] after.maze.is_open(c, n) && (
                Some(c) != Some(u) || Seq::<Point>::empty().contains(n)) implies after.reached(n)
                && after.g(n) <= after.g(c) + 1 by {
                assert(after.closed(c) <==> self.closed(c) || c == u);
                assert(self.closed(c));
            }
        }
        if u == self.maze.end {
            assert(after.relaxed_but(None, Seq::empty())) by {
                assert forall|c: Point, n: Point|
                    after.closed(c) && c != after.maze.end && #[trigger] after.maze.is_open(c, n)
                        && (Some(c) != None::<Point> || Seq::<Point>::empty().contains(
                        n,
                    )) implies after.reached(n) && after.g(n) <= after.g(c) + 1 by {
                    assert(after.closed(c) <==> self.closed(c) || c == u);
                    assert(self.closed(c));
                }
            }
        }
        lemma_count_bounds(self.g_score, finite(), self.maze.height as nat);
    }

    /// While `u` is expanded, the route through `u` is never shorter than
    /// a route that is already known for one of its neighbours.
    pub proof fn lemma_no_improvement(self, u: Point, done: Seq<Point>, n: Point)
        requires
            self.expanding(u, done),
            self.maze.is_open(u, n),
            self.reached(n),
        ensures
            self.g(n) <= self.g(u) + 1,
    {
        self.lemma_estimate(u, n);
        self.lemma_estimate(n, u);
        if self.open.has(n) {
            if n != self.maze.start {
                let q = self.parent(n)->Some_0;
                assert(self.closed(q));
                self.lemma_estimate(q, n);
                self.lemma_estimate(n, q);
                assert(key_before(
                    self.g(q) + self.h(q),
                    self.h(q),
                    self.g(u) + self.h(u),
                    self.h(u),
                ));
                assert(self.reached(q));
                assert(self.reached(u));
                let base = self.maze.start.x + self.maze.start.y;
                assert((self.g(q) + q.x + q.y + base) % 2 == 0);
                assert((self.g(u) + u.x + u.y + base) % 2 == 0);
                assert((n.x + n.y + q.x + q.y) % 2 == 1);
                assert((u.x + u.y + n.x + n.y) % 2 == 1);
            }
        } else {
            assert(self.closed(n));
            assert(key_before(
                self.g(n) + self.h(n),
                self.h(n),
                self.g(u) + self.h(u),
                self.h(u),
            ));
        }
    }

    /// What noting a new route to `n` through `u` changes: the cost and the
    /// predecessor of `n`, and the open set, which `n` joins. Nothing else.
    proof fn lemma_relaxed_frame(self, u: Point, done: Seq<Point>, n: Point)
        requires
            self.expanding(u, done),
            self.contains(n),
            self.relaxed(u, n) != self,
        ensures
            !self.reached(n),
            !self.open.has(n),
            self.g(u) + 1 + self.h(n) <= usize::MAX,
            self.relaxed(u, n).maze == self.maze,
            self.relaxed(u, n).state == self.state,
            self.relaxed(u, n).shapes(),
            self.relaxed(u, n).open.entries == self.open.entries.push(
                CostState { cost: (self.g(u) + 1 + self.h(n)) as usize, position: n },
            ),
            count(self.relaxed(u, n).g_score, finite()) == count(self.g_score, finite()) + 1,
            count(self.relaxed(u, n).g_score, finite()) <= self.maze.width * self.maze.height,
            forall|p: Point|
                self.contains(p) ==> #[trigger] self.relaxed(u, n).g(p) == if p == n {
                    (self.g(u) + 1) as usize
                } else {
                    self.g(p)
                },
            forall|p: Point|
                self.contains(p) ==> #[trigger] self.relaxed(u, n).parent(p) == if p == n {
                    Some(u)
                } else {
                    self.parent(p)
                },
            forall|p: Point| #[trigger]
                self.relaxed(u, n).open.has(p) <==> self.open.has(p) || p == n,
            forall|p: Point| #[trigger]
                self.relaxed(u, n).reached(p) <==> self.reached(p) || p == n,
            forall|p: Point| #[trigger] self.relaxed(u, n).closed(p) <==> self.closed(p),
    {
        let after = self.relaxed(u, n);
        let w = self.maze.width as nat;
        let h = self.maze.height as nat;
        lemma_count_bounds(self.g_score, finite(), h);
        self.lemma_estimate(n, u);
        assert(self.reached(u));
        assert(self.g(u) < count(self.g_score, finite()));
        if self.reached(n) {
            self.lemma_no_improvement(u, done, n);
        }
        assert(!self.open.has(n)) by {
            if self.open.has(n) {
                let i = choose|i: int|
                    0 <= i < self.open.entries.len() && (#[trigger] self.open.entries[i]).position
                        == n;
                assert(self.reached(self.open.entries[i].position));
            }
        }
        let cost = (self.g(u) + 1) as usize;
        let entry = CostState { cost: (self.g(u) + 1 + self.h(n)) as usize, position: n };
        lemma_with_entry(self.g_score, w, h, n.x as int, n.y as int, cost);
        lemma_with_entry(self.came_from, w, h, n.x as int, n.y as int, Some(u));
        lemma_count_update(self.g_score, finite(), n.x as int, n.y as int, cost);
        lemma_count_bounds(after.g_score, finite(), h);
        assert forall|p: Point| self.contains(p) implies #[trigger] after.g(p) == if p == n {
            cost
        } else {
            self.g(p)
        } by {
            assert(after.g(p) == after.g_score[p.x as int][p.y as int]);
        }
        assert forall|p: Point| self.contains(p) implies #[trigger] after.parent(p) == if p == n {
            Some(u)
        } else {
            self.parent(p)
        } by {
            assert(after.parent(p) == after.came_from[p.x as int][p.y as int]);
        }
        let len = self.open.entries.len() as int;
        assert(after.open.entries[len] == entry);
        assert forall|p: Point| #[trigger] after.open.has(p) <==> self.open.has(p) || p == n by {
            if after.open.has(p) {
                let j = choose|j: int|
                    0 <= j < after.open.entries.len() && (#[trigger] after.open.entries[j]).position
                        == p;
                if j < len {
                    assert(self.open.entries[j].position == p);
                }
            }
            if self.open.has(p) {
                let j = choose|j: int|
                    0 <= j < len && (#[trigger] self.open.entries[j]).position == p;
                assert(after.open.entries[j].position == p);
            }
        }
        assert forall|p: Point| #[trigger] after.reached(p) <==> self.reached(p) || p == n by {
            if self.contains(p) {
                assert(after.g(p) == if p == n {
                    cost
                } else {
                    self.g(p)
                });
            }
        }
        assert forall|p: Point| #[trigger] after.closed(p) <==> self.closed(p) by {
            assert(after.open.has(p) <==> self.open.has(p) || p == n);
            assert(after.reached(p) <==> self.reached(p) || p == n);
        }
    }

    /// After a new route was noted the open set still agrees with the costs.
    proof fn lemma_relaxed_entries(self, u: Point, done: Seq<Point>, n: Point)
        requires
            self.expanding(u, done),
            self.contains(n),
            self.relaxed(u, n) != self,
        ensures
            self.relaxed(u, n).entries_agree(),
            self.relaxed(u, n).rooted(),
    {
        let after = self.relaxed(u, n);
        self.lemma_relaxed_frame(u, done, n);
        let len = self.open.entries.len() as int;
        assert forall|j: int| 0 <= j < after.open.entries.len() implies after.reached(
            (#[trigger] after.open.entries[j]).position,
        ) && after.open.entries[j].cost == after.g(after.open.entries[j].position) + after.h(
            after.open.entries[j].position,
        ) by {
            if j < len {
                assert(after.open.entries[j] == self.open.entries[j]);
                assert(self.reached(self.open.entries[j].position));
                assert(self.open.has(self.open.entries[j].position));
            }
            assert(after.reached(after.open.entries[j].position) <==> self.reached(
                after.open.entries[j].position,
            ) || after.open.entries[j].position == n);
        }
        assert forall|j: int, l: int|
            0 <= j < after.open.entries.len() && 0 <= l < after.open.entries.len() && j
                != l implies (#[trigger] after.open.entries[j]).position != (
        #[trigger] after.open.entries[l]).position by {
            if j < len {
                assert(after.open.entries[j] == self.open.entries[j]);
                assert(self.open.has(self.open.entries[j].position));
            }
            if l < len {
                assert(after.open.entries[l] == self.open.entries[l]);
                assert(self.open.has(self.open.entries[l].position));
            }
        }
        assert(self.reached(self.maze.start));
        assert(after.reached(self.maze.start) <==> self.reached(self.maze.start) || self.maze.start
            == n);
    }

    /// After a new route was noted every reached cell still has its
    /// predecessor, its parity and its bound.
    proof fn lemma_relaxed_parents(self, u: Point, done: Seq<Point>, n: Point)
        requires
            self.expanding(u, done),
            self.contains(n),
            self.relaxed(u, n) != self,
        ensures
            self.relaxed(u, n).parents_agree(),
            self.relaxed(u, n).parity(),
            self.relaxed(u, n).bounded(),
    {
        let after = self.relaxed(u, n);
        self.lemma_relaxed_frame(u, done, n);
        self.lemma_estimate(n, u);
        assert(self.reached(u));
        assert(after.g(u) == self.g(u));
        assert forall|p: Point| after.contains(p) implies if after.reached(p) && p
            != after.maze.start {
            &&& (#[trigger] after.parent(p)) matches Some(q)
            &&& after.maze.is_open(q, p)
            &&& after.closed(q)
            &&& after.g(p) == after.g(q) + 1
        } else {
            after.parent(p) is None
        } by {
            assert(after.reached(p) <==> self.reached(p) || p == n);
            assert(self.reached(self.maze.start));
            if p == n {
                assert(after.closed(u) <==> self.closed(u));
            } else if self.reached(p) && p != self.maze.start {
                let q = self.parent(p)->Some_0;
                assert(self.closed(q));
                assert(after.closed(q) <==> self.closed(q));
                assert(after.g(q) == self.g(q));
            }
        }
        assert forall|p: Point| #[trigger] after.reached(p) implies (after.g(p) + p.x + p.y
            + after.maze.start.x + after.maze.start.y) % 2 == 0 by {
            assert(after.reached(p) <==> self.reached(p) || p == n);
            let base = self.maze.start.x + self.maze.start.y;
            if p == n {
                assert((self.g(u) + u.x + u.y + base) % 2 == 0);
                assert((n.x + n.y + u.x + u.y) % 2 == 1);
            } else {
                assert(self.reached(p));
            }
        }
        assert forall|p: Point| #[trigger] after.reached(p) implies after.g(p) < count(
            after.g_score,
            finite(),
        ) by {
            assert(after.reached(p) <==> self.reached(p) || p == n);
            if p != n {
                assert(self.reached(p));
            }
            assert(self.g(u) < count(self.g_score, finite()));
        }
    }

    /// After a new route was noted the closed cells are still due before
    /// the open ones, and what they have handed on stays handed on.
    proof fn lemma_relaxed_order(self, u: Point, done: Seq<Point>, n: Point)
        requires
            self.expanding(u, done),
            self.contains(n),
            self.relaxed(u, n) != self,
        ensures
            self.relaxed(u, n).ordered(),
            self.relaxed(u, n).relaxed_but(Some(u), done.push(n)),
            self.relaxed(u, n).closed(u),
            forall|c: Point| #[trigger]
                self.relaxed(u, n).closed(c) ==> key_before(
                    self.relaxed(u, n).g(c) + self.h(c),
                    self.h(c),
                    self.relaxed(u, n).g(u) + self.h(u),
                    self.h(u),
                ),
    {
        let after = self.relaxed(u, n);
        self.lemma_relaxed_frame(u, done, n);
        self.lemma_estimate(n, u);
        let len = self.open.entries.len() as int;
        assert(self.reached(u));
        assert(after.g(u) == self.g(u));
        assert(after.closed(u) <==> self.closed(u));
        assert forall|c: Point, j: int| #[trigger]
            after.closed(c) && 0 <= j < after.open.entries.len() implies key_before(
            after.g(c) + after.h(c),
            after.h(c),
            (#[trigger] after.open.entries[j]).cost as int,
            after.h(after.open.entries[j].position),
        ) by {
            assert(after.closed(c) <==> self.closed(c));
            assert(after.g(c) == self.g(c));
            if j < len {
                assert(after.open.entries[j] == self.open.entries[j]);
            } else {
                assert(key_before(
                    self.g(c) + self.h(c),
                    self.h(c),
                    self.g(u) + self.h(u),
                    self.h(u),
                ));
            }
        }
        assert forall|c: Point, m: Point|
            after.closed(c) && c != after.maze.end && #[trigger] after.maze.is_open(c, m) && (Some(
                c,
            ) != Some(u) || done.push(n).contains(m)) implies after.reached(m) && after.g(m)
            <= after.g(c) + 1 by {
            assert(after.closed(c) <==> self.closed(c));
            assert(after.reached(m) <==> self.reached(m) || m == n);
            assert(after.g(c) == self.g(c));
            if c == u {
                if m != n {
                    let i = choose|i: int| 0 <= i < done.push(n).len() && done.push(n)[i] == m;
                    assert(done[i] == m);
                    assert(self.reached(m));
                    assert(after.g(m) == self.g(m));
                }
            } else {
                assert(self.reached(m));
                assert(after.g(m) == self.g(m));
            }
        }
        assert forall|c: Point| #[trigger] after.closed(c) implies key_before(
            after.g(c) + self.h(c),
            self.h(c),
            after.g(u) + self.h(u),
            self.h(u),
        ) by {
            assert(after.closed(c) <==> self.closed(c));
            assert(after.g(c) == self.g(c));
        }
    }

    /// While `u` is expanded, looking at one more neighbour keeps all that
    /// holds of the state, and uses up one step of the budget if the
    /// neighbour is new.
    pub proof fn lemma_relaxed(self, u: Point, done: Seq<Point>, n: Point)
        requires
            self.expanding(u, done),
            self.contains(n),
        ensures
            self.relaxed(u, n).expanding(u, done.push(n)),
            self.relaxed(u, n).budget() <= self.budget(),
            self.relaxed(u, n).found() == self.found(),
            self.relaxed(u, n) != self ==> !self.reached(n) && !self.open.has(n),
            self.g(u) + 1 + self.h(n) <= usize::MAX,
            self.relaxed(u, n).g(u) == self.g(u),
            self.relaxed(u, n).maze == self.maze,
            forall|p: Point| #[trigger]
                self.reached(p) ==> self.relaxed(u, n).reached(p) && self.relaxed(u, n).g(p)
                    == self.g(p),
    {
        let after = self.relaxed(u, n);
        lemma_count_bounds(self.g_score, finite(), self.maze.height as nat);
        self.lemma_estimate(n, u);
        assert(self.reached(u));
        assert(self.g(u) < count(self.g_score, finite()));
        if after == self {
            if self.maze.is_open(u, n) && self.reached(n) {
                self.lemma_no_improvement(u, done, n);
            }
            assert forall|c: Point, m: Point|
                self.closed(c) && c != self.maze.end && #[trigger] self.maze.is_open(c, m) && (Some(
                    c,
                ) != Some(u) || done.push(n).contains(m)) implies self.reached(m) && self.g(m)
                <= self.g(c) + 1 by {
                if c == u {
                    if m != n {
                        let i = choose|i: int| 0 <= i < done.push(n).len() && done.push(n)[i] == m;
                        assert(done[i] == m);
                    }
                }
            }
        } else {
            self.lemma_relaxed_frame(u, done, n);
            self.lemma_relaxed_entries(u, done, n);
            self.lemma_relaxed_parents(u, done, n);
            self.lemma_relaxed_order(u, done, n);
            assert(after.closed(self.maze.end) <==> self.closed(self.maze.end));
            assert(after.g(u) == self.g(u));
            assert forall|p: Point| #[trigger] self.reached(p) implies after.reached(p) && after.g(
                p,
            ) == self.g(p) by {
                assert(after.reached(p) <==> self.reached(p) || p == n);
            }
        }
    }

    /// Once the expanded cell has looked at all its neighbours, the state
    /// is as it has to be between two steps.
    pub proof fn lemma_expansion_complete(self, u: Point)
        requires
            self.expanding(u, u.spec_neighbors(self.maze.width, self.maze.height)),
        ensures
            self.wf(),
    {
        u.lemma_neighbors(self.maze.width, self.maze.height);
        assert forall|c: Point, n: Point|
            self.closed(c) && c != self.maze.end && #[trigger] self.maze.is_open(c, n) && (Some(c)
                != None::<Point> || Seq::<Point>::empty().contains(n)) implies self.reached(n)
            && self.g(n) <= self.g(c) + 1 by {
            if c == u {
                assert(u.spec_neighbors(self.maze.width, self.maze.height).contains(n));
            }
        }
    }

    /// Along any walk that leaves from the start, either some cell waits in
    /// the open set with a cost that the walk cannot beat, or the walk ends
    /// in a closed cell whose cost the walk does not beat.
    pub proof fn lemma_frontier(self, walk: Seq<Point>)
        requires
            self.wf(),
            self.state != SolverState::Clear,
            !self.closed(self.maze.end),
            self.maze.is_walk(walk),
            walk[0] == self.maze.start,
        ensures
            (exists|i: int|
                0 <= i < walk.len() && self.open.has(#[trigger] walk[i]) && self.reached(walk[i])
                    && self.g(walk[i]) + self.h(walk[i]) <= walk.len() - 1 + self.h(walk.last()))
                || (self.closed(walk.last()) && self.g(walk.last()) <= walk.len() - 1),
        decreases walk.len(),
    {
        let last = walk.last();
        if walk.len() == 1 {
            assert(self.reached(self.maze.start));
            if self.open.has(last) {
                assert(self.open.has(walk[0]));
            }
        } else {
            let shorter = walk.drop_last();
            self.maze.lemma_walk_drop_last(walk);
            self.lemma_frontier(shorter);
            let before_last = shorter.last();
            self.maze.lemma_walk_inside(walk, walk.len() - 2);
            self.lemma_estimate(before_last, last);
            if self.closed(before_last) && self.g(before_last) <= shorter.len() - 1 {
                assert(self.maze.is_open(before_last, last));
                assert(self.reached(last) && self.g(last) <= self.g(before_last) + 1);
                if self.open.has(last) {
                    assert(walk[walk.len() - 1] == last);
                }
            } else {
                let i = choose|i: int|
                    0 <= i < shorter.len() && self.open.has(#[trigger] shorter[i]) && self.reached(
                        shorter[i],
                    ) && self.g(shorter[i]) + self.h(shorter[i]) <= shorter.len() - 1 + self.h(
                        shorter.last(),
                    );
                assert(walk[i] == shorter[i]);
            }
        }
    }

    /// When the end is the cell that is due, its cost is the length of a
    /// shortest walk from the start: no walk gets there in fewer steps.
    pub proof fn lemma_end_is_due(self, walk: Seq<Point>)
        requires
            self.wf(),
            self.state != SolverState::Clear,
            self.open.entries.len() > 0,
            self.next_up() == self.maze.end,
            self.maze.joins(walk, self.maze.start, self.maze.end),
        ensures
            self.g(self.maze.end) + 1 <= walk.len(),
    {
        let end = self.maze.end;
        let low = lowest(self.open.entries, self.open.goal);
        lemma_lowest(self.open.entries, self.open.goal);
        assert(self.open.entries[low].position == end);
        assert(self.open.has(end));
        self.lemma_frontier(walk);
        let i = choose|i: int|
            0 <= i < walk.len() && self.open.has(#[trigger] walk[i]) && self.reached(walk[i])
                && self.g(walk[i]) + self.h(walk[i]) <= walk.len() - 1 + self.h(walk.last());
        let j = choose|j: int|
            0 <= j < self.open.entries.len() && (#[trigger] self.open.entries[j]).position
                == walk[i];
        assert(crate::solving::before(self.open.entries[low], self.open.entries[j], self.open.goal));
        assert(self.reached(self.open.entries[low].position));
        assert(self.reached(self.open.entries[j].position));
    }

    /// When the open set has run empty before the end left it, the end
    /// cannot be reached from the start.
    pub proof fn lemma_exhausted(self)
        requires
            self.wf(),
            self.state != SolverState::Clear,
            self.open.entries.len() == 0,
            !self.closed(self.maze.end),
        ensures
            !self.maze.connected(self.maze.start, self.maze.end),
    {
        if self.maze.connected(self.maze.start, self.maze.end) {
            let walk = choose|walk: Seq<Point>|
                self.maze.joins(walk, self.maze.start, self.maze.end);
            self.lemma_frontier(walk);
        }
    }

    /// The predecessors of a reached cell lead back to the start: the trail
    /// of the cell is a walk from the start to it, as long as its cost says.
    pub proof fn lemma_trail(self, p: Point)
        requires
            self.sound(),
            self.reached(p),
        ensures
            self.maze.joins(self.trail(p, self.g(p) as nat), self.maze.start, p),
            self.trail(p, self.g(p) as nat).len() == self.g(p) + 1,
        decreases self.g(p),
    {
        if p != self.maze.start {
            let q = self.parent(p)->Some_0;
            assert(self.closed(q));
            self.lemma_trail(q);
            self.maze.lemma_walk_push(self.trail(q, self.g(q) as nat), p);
        }
    }

    /// Looking at a neighbour leaves the maze, the shape of the tables and
    /// the cost of the expanded cell as they are.
    pub proof fn lemma_relaxed_shape(self, u: Point, n: Point)
        requires
            self.maze.wf(),
            self.shapes(),
            self.contains(u),
            self.contains(n),
        ensures
            self.relaxed(u, n).shapes(),
            self.relaxed(u, n).maze == self.maze,
            self.relaxed(u, n).state == self.state,
            self.relaxed(u, n).g(u) == self.g(u),
    {
        let w = self.maze.width as nat;
        let h = self.maze.height as nat;
        if self.relaxed(u, n) != self {
            let cost = (self.g(u) + 1) as usize;
            lemma_with_entry(self.g_score, w, h, n.x as int, n.y as int, cost);
            lemma_with_entry(self.came_from, w, h, n.x as int, n.y as int, Some(u));
            assert(self.relaxed(u, n).g(u) == self.relaxed(u, n).g_score[u.x as int][u.y as int]);
        }
    }

    /// Expanding a cell all the way keeps all that holds of the state.
    pub proof fn lemma_expanded(self, u: Point, neighbors: Seq<Point>)
        requires
            self.expanding(u, Seq::empty()),
            forall|i: int| 0 <= i < neighbors.len() ==> self.contains(#[trigger] neighbors[i]),
        ensures
            self.expanded(u, neighbors).expanding(u, neighbors),
            self.expanded(u, neighbors).budget() <= self.budget(),
            self.expanded(u, neighbors).found() == self.found(),
            self.expanded(u, neighbors).maze == self.maze,
            self.expanded(u, neighbors).g(u) == self.g(u),
            forall|p: Point| #[trigger]
                self.reached(p) ==> self.expanded(u, neighbors).reached(p) && self.expanded(
                    u,
                    neighbors,
                ).g(p) == self.g(p),
        decreases neighbors.len(),
    {
        if neighbors.len() == 0 {
            assert(neighbors =~= Seq::empty());
        } else {
            let rest = neighbors.drop_last();
            assert forall|i: int| 0 <= i < rest.len() implies self.contains(#[trigger] rest[i]) by {
                assert(rest[i] == neighbors[i]);
            }
            self.lemma_expanded(u, rest);
            assert(self.contains(neighbors[neighbors.len() - 1]));
            self.expanded(u, rest).lemma_relaxed(u, rest, neighbors.last());
            assert(rest.push(neighbors.last()) =~= neighbors);
            assert forall|p: Point| #[trigger] self.reached(p) implies self.expanded(
                u,
                neighbors,
            ).reached(p) && self.expanded(u, neighbors).g(p) == self.g(p) by {
                assert(self.expanded(u, rest).reached(p));
            }
        }
    }

    /// Declaring a run done when the open set is empty keeps the solver
    /// well formed.
    pub proof fn lemma_done(self)
        requires
            self.wf(),
            self.state != SolverState::Clear,
            self.open.entries.len() == 0,
        ensures
            (SolverView { state: SolverState::Done, ..self }).wf(),
            (SolverView { state: SolverState::Done, ..self }).found() == self.found(),
            self.state != SolverState::Done ==> self.budget() > 0,
    {
        let done = SolverView { state: SolverState::Done, ..self };
        lemma_count_bounds(self.g_score, finite(), self.maze.height as nat);
        assert forall|p: Point| done.closed(p) == self.closed(p) by {}
        assert forall|p: Point| done.reached(p) == self.reached(p) by {}
        assert(done.entries_agree());
        assert(done.rooted());
        assert(done.parents_agree()) by {
            assert forall|p: Point| done.contains(p) implies if done.reached(p) && p
                != done.maze.start {
                &&& (#[trigger] done.parent(p)) matches Some(q)
                &&& done.maze.is_open(q, p)
                &&& done.closed(q)
                &&& done.g(p) == done.g(q) + 1
            } else {
                done.parent(p) is None
            } by {
                assert(self.parent(p) == done.parent(p));
                if self.reached(p) && p != self.maze.start {
                    let q = self.parent(p)->Some_0;
                    assert(self.closed(q));
                }
            }
        }
        assert(done.parity()) by {
            assert forall|p: Point| #[trigger] done.reached(p) implies (done.g(p) + p.x + p.y
                + done.maze.start.x + done.maze.start.y) % 2 == 0 by {
                assert(self.reached(p));
            }
        }
        assert(done.ordered());
        assert(done.bounded()) by {
            assert forall|p: Point| #[trigger] done.reached(p) implies done.g(p) < count(
                done.g_score,
                finite(),
            ) by {
                assert(self.reached(p));
            }
        }
        assert(done.relaxed_but(None, Seq::empty())) by {
            assert forall|c: Point, n: Point|
                done.closed(c) && c != done.maze.end && #[trigger] done.maze.is_open(c, n) && (Some(
                    c,
                ) != None::<Point> || Seq::<Point>::empty().contains(n)) implies done.reached(n)
                && done.g(n) <= done.g(c) + 1 by {
                assert(self.closed(c));
                assert(self.maze.is_open(c, n));
            }
        }
    }

    /// One step from a solver that has been set up keeps it well formed,
    /// uses up the budget, and, when it takes the end out of the open set,
    /// has found a shortest route.
    pub proof fn lemma_stepped_ready(self)
        requires
            self.wf(),
            self.state != SolverState::Clear,
        ensures
            self.stepped().wf(),
            self.stepped().maze == self.maze,
            self.state == SolverState::Done ==> self.stepped() == self,
            self.state != SolverState::Done ==> self.stepped().budget() < self.budget(),
            self.finds() ==> !self.found(),
            self.stepped().found() == (self.found() || self.finds()),
            self.finds() ==> self.stepped().sound() && self.stepped().reached(self.maze.end)
                && self.maze.is_shortest(
                self.stepped().trail(self.maze.end, self.stepped().g(self.maze.end) as nat),
                self.maze.start,
                self.maze.end,
            ),
            forall|p: Point| #[trigger]
                self.reached(p) && self.state != SolverState::Clear ==> self.stepped().reached(p)
                    && self.stepped().g(p) == self.g(p),
    {
        let after = self.stepped();
        if self.open.entries.len() == 0 {
            self.lemma_done();
        } else {
            let u = self.next_up();
            let end = self.maze.end;
            self.lemma_popped();
            lemma_lowest(self.open.entries, self.open.goal);
            assert(self.open.entries[lowest(self.open.entries, self.open.goal)].position == u);
            assert(self.open.has(u));
            assert(self.popped().closed(end) <==> self.closed(end) || end == u);
            if u == end {
                after.lemma_trail(end);
                let route = after.trail(end, after.g(end) as nat);
                assert forall|walk: Seq<Point>| #[trigger]
                    self.maze.joins(walk, self.maze.start, end) implies route.len()
                    <= walk.len() by {
                    self.lemma_end_is_due(walk);
                }
            } else {
                let neighbors = u.spec_neighbors(self.maze.width, self.maze.height);
                u.lemma_neighbors(self.maze.width, self.maze.height);
                assert forall|i: int| 0 <= i < neighbors.len() implies self.popped().contains(
                    #[trigger] neighbors[i],
                ) by {
                    assert(neighbors.contains(neighbors[i]));
                }
                self.popped().lemma_expanded(u, neighbors);
                after.lemma_expansion_complete(u);
                assert forall|p: Point| #[trigger] self.reached(p) implies after.reached(p)
                    && after.g(p) == self.g(p) by {
                    assert(self.popped().reached(p));
                }
            }
        }
    }

    /// One step keeps a solver well formed, uses up the budget, leaves the
    /// cost of every reached cell as it is, and, when it takes the end out
    /// of the open set, has found a shortest route.
    pub proof fn lemma_stepped(self)
        requires
            self.wf(),
        ensures
            self.stepped().wf(),
            self.stepped().maze == self.maze,
            self.state == SolverState::Done ==> self.stepped() == self,
            self.state != SolverState::Done ==> self.stepped().budget() < self.budget(),
            self.finds() ==> !self.found(),
            self.stepped().found() == (self.found() || self.finds()),
            self.finds() ==> self.stepped().sound() && self.stepped().reached(self.maze.end)
                && self.maze.is_shortest(
                self.stepped().trail(self.maze.end, self.stepped().g(self.maze.end) as nat),
                self.maze.start,
                self.maze.end,
            ),
            forall|p: Point| #[trigger]
                self.reached(p) && self.state != SolverState::Clear ==> self.stepped().reached(p)
                    && self.stepped().g(p) == self.g(p),
    {
        if self.state == SolverState::Clear {
            self.lemma_initialized();
            self.initialized().lemma_stepped_ready();
        } else {
            self.lemma_stepped_ready();
        }
    }
}

} // verus!
