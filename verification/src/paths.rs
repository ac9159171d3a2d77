//! Walks through a maze: what it means to get from one cell to another
//! through open walls, and the facts about walks that the algorithms rest on.

use vstd::prelude::*;
use crate::maze::{MazeView, Point};

verus! {

impl MazeView {
    /// A walk is a non-empty sequence of cells in which every cell is
    /// followed by one that can be stepped to.
    pub open spec fn is_walk(self, walk: Seq<Point>) -> bool {
        &&& walk.len() > 0
        &&& self.contains(walk[0])
        &&& forall|i: int| 0 <= i < walk.len() - 1 ==> self.is_open(#[trigger] walk[i], walk[i + 1])
    }

    /// `walk` leads from `a` to `b`.
    pub open spec fn joins(self, walk: Seq<Point>, a: Point, b: Point) -> bool {
        self.is_walk(walk) && walk[0] == a && walk.last() == b
    }

    /// `b` can be reached from `a` through open walls.
    pub open spec fn connected(self, a: Point, b: Point) -> bool {
        exists|walk: Seq<Point>| self.joins(walk, a, b)
    }

    /// `route` leads from `a` to `b` and no walk from `a` to `b` is shorter.
    pub open spec fn is_shortest(self, route: Seq<Point>, a: Point, b: Point) -> bool {
        &&& self.joins(route, a, b)
        &&& forall|walk: Seq<Point>| #[trigger] self.joins(walk, a, b) ==> route.len() <= walk.len()
    }

    /// Every cell of the maze can be reached from `a`.
    pub open spec fn spans_from(self, a: Point) -> bool {
        forall|p: Point| self.contains(p) ==> self.connected(a, p)
    }

    /// Every step that `self` allows, `other` allows too.
    pub open spec fn opens_at_least(self, other: MazeView) -> bool {
        forall|a: Point, b: Point| #[trigger] self.is_open(a, b) ==> other.is_open(a, b)
    }

    /// Every cell of a walk lies in the maze.
    pub proof fn lemma_walk_inside(self, walk: Seq<Point>, i: int)
        requires
            self.is_walk(walk),
            0 <= i < walk.len(),
        ensures
            self.contains(walk[i]),
    {
        if i > 0 {
            assert(self.is_open(walk[i - 1], walk[i - 1 + 1]));
        }
    }

    /// A walk can be prolonged by one step.
    pub proof fn lemma_walk_push(self, walk: Seq<Point>, next: Point)
        requires
            self.is_walk(walk),
            self.is_open(walk.last(), next),
        ensures
            self.is_walk(walk.push(next)),
            walk.push(next)[0] == walk[0],
            walk.push(next).last() == next,
    {
        let longer = walk.push(next);
        assert forall|i: int| 0 <= i < longer.len() - 1 implies self.is_open(
            #[trigger] longer[i],
            longer[i + 1],
        ) by {
            if i < walk.len() - 1 {
                assert(self.is_open(walk[i], walk[i + 1]));
            }
        }
    }

    /// A walk without its last step is still a walk.
    pub proof fn lemma_walk_drop_last(self, walk: Seq<Point>)
        requires
            self.is_walk(walk),
            walk.len() > 1,
        ensures
            self.is_walk(walk.drop_last()),
            walk.drop_last()[0] == walk[0],
            self.is_open(walk.drop_last().last(), walk.last()),
    {
        let shorter = walk.drop_last();
        assert forall|i: int| 0 <= i < shorter.len() - 1 implies self.is_open(
            #[trigger] shorter[i],
            shorter[i + 1],
        ) by {
            assert(self.is_open(walk[i], walk[i + 1]));
        }
        assert(self.is_open(walk[walk.len() - 2], walk[walk.len() - 2 + 1]));
    }

    /// A walk stays a walk when walls are only taken away.
    pub proof fn lemma_walk_survives(self, other: MazeView, walk: Seq<Point>)
        requires
            self.is_walk(walk),
            self.opens_at_least(other),
            other.width == self.width,
            other.height == self.height,
        ensures
            other.is_walk(walk),
    {
        assert forall|i: int| 0 <= i < walk.len() - 1 implies other.is_open(
            #[trigger] walk[i],
            walk[i + 1],
        ) by {
            assert(self.is_open(walk[i], walk[i + 1]));
        }
    }

    /// In an enclosed maze with symmetric walls a cell lacks its east wall
    /// exactly when one can step to its eastern neighbour, and its south
    /// wall exactly when one can step to its southern neighbour.
    pub proof fn lemma_passage(self, p: Point)
        requires
            self.wf(),
            self.walls_symmetric(),
            self.enclosed(),
            self.contains(p),
        ensures
            !self.cell(p).walls.east <==> p.x + 1 < self.width && self.is_open(
                p,
                Point { x: (p.x + 1) as usize, y: p.y },
            ),
            !self.cell(p).walls.south <==> p.y + 1 < self.height && self.is_open(
                p,
                Point { x: p.x, y: (p.y + 1) as usize },
            ),
    {
        if p.x + 1 < self.width {
            let q = Point { x: (p.x + 1) as usize, y: p.y };
            assert(p.adjacent(q));
        }
        if p.y + 1 < self.height {
            let q = Point { x: p.x, y: (p.y + 1) as usize };
            assert(p.adjacent(q));
        }
    }

    /// A cell is connected to itself.
    pub proof fn lemma_connected_self(self, a: Point)
        requires
            self.contains(a),
        ensures
            self.connected(a, a),
    {
        assert(self.joins(seq![a], a, a));
    }

    /// Connection carries over one more open step.
    pub proof fn lemma_connected_step(self, a: Point, b: Point, c: Point)
        requires
            self.connected(a, b),
            self.is_open(b, c),
        ensures
            self.connected(a, c),
    {
        let walk = choose|walk: Seq<Point>| self.joins(walk, a, b);
        self.lemma_walk_push(walk, c);
        assert(self.joins(walk.push(c), a, c));
    }

    /// Connection survives when walls are only taken away.
    pub proof fn lemma_connected_survives(self, other: MazeView, a: Point, b: Point)
        requires
            self.connected(a, b),
            self.opens_at_least(other),
            other.width == self.width,
            other.height == self.height,
        ensures
            other.connected(a, b),
    {
        let walk = choose|walk: Seq<Point>| self.joins(walk, a, b);
        self.lemma_walk_survives(other, walk);
        assert(other.joins(walk, a, b));
    }
}

impl Point {
    /// The neighbours listed by `spec_neighbors` are exactly the adjacent
    /// points inside the rectangle, each listed once.
    pub proof fn lemma_neighbors(self, x_limit: usize, y_limit: usize)
        ensures
            forall|q: Point|
                self.spec_neighbors(x_limit, y_limit).contains(q) <==> (q.within(x_limit, y_limit)
                    && self.adjacent(q)),
            self.spec_neighbors(x_limit, y_limit).no_duplicates(),
            self.spec_neighbors(x_limit, y_limit).len() <= 4,
    {
        let all = self.spec_neighbors(x_limit, y_limit);
        assert forall|q: Point| q.within(x_limit, y_limit) && self.adjacent(q) implies all.contains(
            q,
        ) by {
            let west_len: int = if 0 < self.x <= x_limit && self.y < y_limit { 1 } else { 0 };
            let east_len: int = if self.x + 1 < x_limit && self.y < y_limit { 1 } else { 0 };
            let south_len: int = if self.x < x_limit && self.y + 1 < y_limit { 1 } else { 0 };
            let i: int = if q.x < self.x {
                0
            } else if q.x > self.x {
                west_len
            } else if q.y > self.y {
                west_len + east_len
            } else {
                west_len + east_len + south_len
            };
            assert(all[i] == q);
        }
    }

    /// Two different neighbours of a point lie on different sides of it.
    pub proof fn lemma_sides_differ(self, a: Point, b: Point)
        requires
            self.adjacent(a),
            self.adjacent(b),
            a != b,
        ensures
            self.direction_to(a) != self.direction_to(b),
    {
    }

    /// Looking back from a neighbour one faces the opposite side.
    pub proof fn lemma_facing_sides(self, a: Point)
        requires
            self.adjacent(a),
        ensures
            a.direction_to(self) == self.direction_to(a).opposite(),
    {
    }
}

} // verus!
