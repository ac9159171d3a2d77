//! Carving a maze by randomized depth-first search with backtracking, one
//! step per call.

use vstd::prelude::*;
use rand::rngs::StdRng;
use rand::seq::SliceRandom;
use rand::SeedableRng;
use crate::grid::{
    count, duplicate, filled, has_shape, lemma_count_bounds, lemma_count_uniform,
    lemma_count_update, lemma_with_entry, set_entry, table_view, uniform, with_entry,
};
use crate::maze::{east_open, south_open, Cell, Direction, Maze, MazeError, MazeView, Point, WallSet};

verus! {

/// Where a generator stands in its run.
#[derive(Copy, Clone, Eq, PartialEq, Debug, Structural)]
pub enum GeneratorState {
    Clear,
    Initialised,
    InProgress,
    Done,
}

/// What the generator knows of one cell.
#[derive(Clone, Eq, Copy, PartialEq, Debug, Structural)]
pub enum BacktrackingCellState {
    Unvisited,
    Visited,
    Current,
}

/// The predicate "not visited yet", for counting.
pub open spec fn unvisited() -> spec_fn(BacktrackingCellState) -> bool {
    |s: BacktrackingCellState| s == BacktrackingCellState::Unvisited
}

/// The generator as a mathematical value.
pub struct GeneratorView {
    pub width: usize,
    pub height: usize,
    pub maze: MazeView,
    /// The path from the first cell to the cell being worked on, bottom first.
    pub stack: Seq<Point>,
    pub current: Point,
    pub state: GeneratorState,
    /// `cells[x][y]` is what is known of the cell in column `x`, row `y`.
    pub cells: Seq<Seq<BacktrackingCellState>>,
}

impl GeneratorView {
    /// The cell where carving starts.
    pub open spec fn origin() -> Point {
        Point { x: 0, y: 0 }
    }

    /// Whether `p` is a position of the maze.
    pub open spec fn contains(self, p: Point) -> bool {
        p.x < self.width && p.y < self.height
    }

    /// What is known of the cell at `p`.
    pub open spec fn cell_state(self, p: Point) -> BacktrackingCellState {
        self.cells[p.x as int][p.y as int]
    }

    /// A cell counts as visited once the search has reached it.
    pub open spec fn visited(self, p: Point) -> bool {
        self.contains(p) && self.cell_state(p) != BacktrackingCellState::Unvisited
    }

    /// The generator before its first step: a fully walled maze, nothing
    /// visited, the first cell marked as current.
    pub open spec fn fresh(width: usize, height: usize) -> GeneratorView {
        GeneratorView {
            width,
            height,
            maze: MazeView::blank(width, height),
            stack: Seq::empty(),
            current: Self::origin(),
            state: GeneratorState::Clear,
            cells: with_entry(
                uniform(width as nat, height as nat, BacktrackingCellState::Unvisited),
                0,
                0,
                BacktrackingCellState::Current,
            ),
        }
    }

    /// The number of calls of `next_step` that it takes from here to reach `Done`.
    pub open spec fn steps_remaining(self) -> nat {
        match self.state {
            GeneratorState::Done => 0,
            GeneratorState::Clear => 2 * (self.width * self.height) as nat,
            _ => 2 * count(self.cells, unvisited()) + self.stack.len() + 1,
        }
    }

    /// The unvisited neighbours of `p`, west first, then east, south, north.
    pub open spec fn candidates(self, p: Point) -> Seq<Point> {
        p.spec_neighbors(self.width, self.height).filter(
            |q: Point| self.cell_state(q) == BacktrackingCellState::Unvisited,
        )
    }

    /// A choice is valid for the cell on top of the stack when it names one
    /// of that cell's unvisited neighbours, or none if there is none.
    pub open spec fn valid_choice(self, choice: Option<Point>) -> bool {
        match choice {
            Some(next) => self.stack.len() > 0 && self.candidates(self.stack.last()).contains(next),
            None => self.stack.len() > 0 ==> self.candidates(self.stack.last()).len() == 0,
        }
    }

    /// The generator once the search has been set up: the first cell is on
    /// the stack and current, nothing else is visited.
    pub open spec fn initialized(self) -> GeneratorView {
        GeneratorView {
            stack: seq![self.maze.start],
            current: self.maze.start,
            state: GeneratorState::Initialised,
            cells: with_entry(
                uniform(self.width as nat, self.height as nat, BacktrackingCellState::Unvisited),
                self.maze.start.x as int,
                self.maze.start.y as int,
                BacktrackingCellState::Current,
            ),
            ..self
        }
    }

    /// The maze with the wall between the adjacent cells `a` and `b` taken
    /// away on both sides.
    pub open spec fn carved(maze: MazeView, a: Point, b: Point) -> MazeView {
        let opened = maze.with_cell(
            a,
            Cell {
                position: maze.cell(a).position,
                walls: maze.cell(a).walls.without(a.direction_to(b)),
            },
        );
        opened.with_cell(
            b,
            Cell {
                position: opened.cell(b).position,
                walls: opened.cell(b).walls.without(b.direction_to(a)),
            },
        )
    }

    /// One move of the search from a state with a non-empty stack: the top
    /// of the stack becomes the current cell; if a neighbour was chosen,
    /// the wall to it falls and both cells go on the stack.
    pub open spec fn advanced(self, choice: Option<Point>) -> GeneratorView {
        let popped = self.stack.last();
        let marked = with_entry(
            with_entry(
                self.cells,
                self.current.x as int,
                self.current.y as int,
                BacktrackingCellState::Visited,
            ),
            popped.x as int,
            popped.y as int,
            BacktrackingCellState::Current,
        );
        match choice {
            None => GeneratorView {
                stack: self.stack.drop_last(),
                current: popped,
                state: GeneratorState::InProgress,
                cells: marked,
                ..self
            },
            Some(next) => GeneratorView {
                stack: self.stack.push(next),
                current: popped,
                state: GeneratorState::InProgress,
                cells: with_entry(
                    marked,
                    next.x as int,
                    next.y as int,
                    BacktrackingCellState::Visited,
                ),
                maze: Self::carved(self.maze, popped, next),
                ..self
            },
        }
    }

    /// One whole step: set up if need be, finish if the stack is empty,
    /// move otherwise.
    pub open spec fn stepped(self, choice: Option<Point>) -> GeneratorView {
        let ready = if self.state == GeneratorState::Clear {
            self.initialized()
        } else {
            self
        };
        if ready.stack.len() == 0 {
            GeneratorView { state: GeneratorState::Done, ..ready }
        } else {
            ready.advanced(choice)
        }
    }

    /// The cells among which the coming step chooses: the unvisited
    /// neighbours of the cell that it moves on to; none if it does not move.
    pub open spec fn choices(self) -> Seq<Point> {
        let ready = if self.state == GeneratorState::Clear {
            self.initialized()
        } else {
            self
        };
        if ready.stack.len() == 0 {
            Seq::empty()
        } else {
            ready.candidates(ready.stack.last())
        }
    }

    /// Whether the coming step may take `choice`: it names an unvisited
    /// neighbour of the cell that the step moves on to, or nothing if
    /// there is none, or if the step does not move.
    pub open spec fn allows(self, choice: Option<Point>) -> bool {
        if self.state == GeneratorState::Clear {
            self.initialized().valid_choice(choice)
        } else {
            self.valid_choice(choice)
        }
    }

    /// The generator after as many steps as there are choices, each step
    /// taking its choice.
    pub open spec fn run(self, choices: Seq<Option<Point>>) -> GeneratorView
        decreases choices.len(),
    {
        if choices.len() == 0 {
            self
        } else {
            self.run(choices.drop_last()).stepped(choices.last())
        }
    }

    /// Whether every choice may be taken by the step that it is for.
    pub open spec fn allows_run(self, choices: Seq<Option<Point>>) -> bool {
        forall|k: int|
            0 <= k < choices.len() ==> (#[trigger] self.run(choices.take(k))).allows(choices[k])
    }

    /// The passages grow with the search: the outer wall stands, a cell
    /// that the search has not reached has all its walls, and there is one
    /// passage for every visited cell but the first.
    pub open spec fn grown(self) -> bool {
        &&& self.maze.enclosed()
        &&& forall|p: Point|
            self.contains(p) && !self.visited(p) ==> (#[trigger] self.maze.cell(p)).walls == (
            WallSet { north: true, south: true, east: true, west: true })
        &&& self.maze.passages() + count(self.cells, unvisited()) + 1 == self.width * self.height
    }

    /// What holds of a generator at every moment of its life.
    pub open spec fn wf(self) -> bool {
        &&& self.width > 0 && self.height > 0
        &&& self.maze.wf()
        &&& self.maze.width == self.width && self.maze.height == self.height
        &&& self.maze.start == Self::origin()
        &&& self.maze.walls_symmetric()
        &&& self.grown()
        &&& has_shape(self.cells, self.width as nat, self.height as nat)
        &&& self.contains(self.current)
        &&& forall|p: Point|
            self.contains(p) ==> (#[trigger] self.cell_state(p) == BacktrackingCellState::Current
                <==> p == self.current)
        &&& forall|i: int| 0 <= i < self.stack.len() ==> self.visited(#[trigger] self.stack[i])
        &&& forall|p: Point| #[trigger] self.visited(p) ==> self.maze.connected(Self::origin(), p)
        &&& self.steps_remaining() <= 2 * (self.width * self.height)
        &&& self.state == GeneratorState::Clear ==> self == Self::fresh(self.width, self.height)
        &&& self.state != GeneratorState::Clear ==> {
            &&& self.visited(Self::origin())
            &&& self.stack.len() > 0 ==> self.stack[0] == Self::origin()
            &&& self.stack.len() == 0 ==> self.current == Self::origin()
            &&& forall|p: Point, q: Point|
                self.visited(p) && !self.stack.contains(p) && self.contains(q)
                    && #[trigger] p.adjacent(q) ==> self.visited(q)
        }
        &&& self.state == GeneratorState::Initialised ==> self.stack.len() > 0
        &&& self.state == GeneratorState::Done ==> self.stack.len() == 0
    }
}

/// What carving the wall between two adjacent cells does to a maze: the
/// step between the two opens, every other step stays as it was, and the
/// walls stay the same on both sides of every pair of neighbours.
pub proof fn lemma_carved(maze: MazeView, a: Point, b: Point)
    requires
        maze.wf(),
        maze.walls_symmetric(),
        maze.contains(a),
        maze.contains(b),
        a.adjacent(b),
    ensures
        GeneratorView::carved(maze, a, b).wf(),
        GeneratorView::carved(maze, a, b).walls_symmetric(),
        GeneratorView::carved(maze, a, b).width == maze.width,
        GeneratorView::carved(maze, a, b).height == maze.height,
        GeneratorView::carved(maze, a, b).start == maze.start,
        GeneratorView::carved(maze, a, b).end == maze.end,
        GeneratorView::carved(maze, a, b).is_open(a, b),
        GeneratorView::carved(maze, a, b).is_open(b, a),
        maze.opens_at_least(GeneratorView::carved(maze, a, b)),
        forall|p: Point|
            maze.contains(p) ==> (#[trigger] GeneratorView::carved(maze, a, b).cell(p)).walls == if p
                == a {
                maze.cell(a).walls.without(a.direction_to(b))
            } else if p == b {
                maze.cell(b).walls.without(b.direction_to(a))
            } else {
                maze.cell(p).walls
            },
{
    let w = maze.width as nat;
    let h = maze.height as nat;
    let first = Cell {
        position: maze.cell(a).position,
        walls: maze.cell(a).walls.without(a.direction_to(b)),
    };
    let opened = maze.with_cell(a, first);
    lemma_with_entry(maze.cells, w, h, a.x as int, a.y as int, first);
    let second = Cell {
        position: opened.cell(b).position,
        walls: opened.cell(b).walls.without(b.direction_to(a)),
    };
    let carved = GeneratorView::carved(maze, a, b);
    lemma_with_entry(opened.cells, w, h, b.x as int, b.y as int, second);
    assert forall|p: Point| maze.contains(p) implies #[trigger] carved.cell(p) == if p == a {
        first
    } else if p == b {
        second
    } else {
        maze.cell(p)
    } by {
        assert(carved.cell(p) == carved.cells[p.x as int][p.y as int]);
        assert(opened.cell(p) == opened.cells[p.x as int][p.y as int]);
    }
    assert(opened.cell(b) == maze.cell(b));
    assert forall|p: Point| carved.contains(p) implies (#[trigger] carved.cell(p)).position
        == p by {
        assert(maze.cell(p).position == p);
        assert(maze.cell(a).position == a);
        assert(maze.cell(b).position == b);
    }
    a.lemma_facing_sides(b);
    assert forall|p: Point, q: Point|
        carved.contains(p) && carved.contains(q) && #[trigger] p.adjacent(q) implies (carved.cell(
        p,
    ).has_wall(p.direction_to(q)) <==> carved.cell(q).has_wall(q.direction_to(p))) by {
        assert(maze.cell(p).has_wall(p.direction_to(q)) <==> maze.cell(q).has_wall(
            q.direction_to(p),
        ));
        p.lemma_facing_sides(q);
        if p == a && q != b {
            a.lemma_sides_differ(q, b);
        }
        if p == b && q != a {
            b.lemma_sides_differ(q, a);
        }
        if q == a && p != b {
            a.lemma_sides_differ(p, b);
        }
        if q == b && p != a {
            b.lemma_sides_differ(p, a);
        }
    }
    assert forall|p: Point, q: Point| #[trigger] maze.is_open(p, q) implies carved.is_open(
        p,
        q,
    ) by {
        assert(carved.cell(p) == if p == a {
            first
        } else if p == b {
            second
        } else {
            maze.cell(p)
        });
        assert(carved.cell(q) == if q == a {
            first
        } else if q == b {
            second
        } else {
            maze.cell(q)
        });
    }
}

/// Carving through a wall that stands makes one passage more and leaves
/// the outer wall as it is.
pub proof fn lemma_carved_passage(maze: MazeView, a: Point, b: Point)
    requires
        maze.wf(),
        maze.enclosed(),
        maze.contains(a),
        maze.contains(b),
        a.adjacent(b),
        maze.cell(a).has_wall(a.direction_to(b)),
        maze.cell(b).has_wall(b.direction_to(a)),
    ensures
        GeneratorView::carved(maze, a, b).enclosed(),
        GeneratorView::carved(maze, a, b).passages() == maze.passages() + 1,
{
    let w = maze.width as nat;
    let h = maze.height as nat;
    let first = Cell {
        position: maze.cell(a).position,
        walls: maze.cell(a).walls.without(a.direction_to(b)),
    };
    let opened = maze.with_cell(a, first);
    lemma_with_entry(maze.cells, w, h, a.x as int, a.y as int, first);
    let second = Cell {
        position: opened.cell(b).position,
        walls: opened.cell(b).walls.without(b.direction_to(a)),
    };
    let carved = GeneratorView::carved(maze, a, b);
    lemma_with_entry(opened.cells, w, h, b.x as int, b.y as int, second);
    assert(opened.cell(b) == maze.cell(b)) by {
        assert(opened.cell(b) == opened.cells[b.x as int][b.y as int]);
    }
    lemma_count_update(maze.cells, east_open(), a.x as int, a.y as int, first);
    lemma_count_update(maze.cells, south_open(), a.x as int, a.y as int, first);
    lemma_count_update(opened.cells, east_open(), b.x as int, b.y as int, second);
    lemma_count_update(opened.cells, south_open(), b.x as int, b.y as int, second);
    a.lemma_facing_sides(b);
    assert forall|p: Point| carved.contains(p) implies {
        &&& p.x == 0 ==> (#[trigger] carved.cell(p)).walls.west
        &&& p.x + 1 == carved.width ==> carved.cell(p).walls.east
        &&& p.y == 0 ==> carved.cell(p).walls.north
        &&& p.y + 1 == carved.height ==> carved.cell(p).walls.south
    } by {
        assert(carved.cell(p) == carved.cells[p.x as int][p.y as int]);
        assert(opened.cell(p) == opened.cells[p.x as int][p.y as int]);
        assert(maze.cell(p) == maze.cells[p.x as int][p.y as int]);
        assert(maze.cell(p).walls.west || p.x != 0);
        assert(carved.cell(p) == if p == b {
            second
        } else if p == a {
            first
        } else {
            maze.cell(p)
        });
        if p == a {
            assert(maze.contains(b) && a.adjacent(b));
        }
        if p == b {
            assert(maze.contains(a) && b.adjacent(a));
        }
    }
}

/// In a generator whose stack has run empty, the search has been everywhere.
pub proof fn lemma_flood(view: GeneratorView, p: Point)
    requires
        view.wf(),
        view.state != GeneratorState::Clear,
        view.stack.len() == 0,
        view.contains(p),
    ensures
        view.visited(p),
    decreases p.x + p.y,
{
    if p.x > 0 {
        let q = Point { x: (p.x - 1) as usize, y: p.y };
        lemma_flood(view, q);
        assert(q.adjacent(p));
    } else if p.y > 0 {
        let q = Point { x: p.x, y: (p.y - 1) as usize };
        lemma_flood(view, q);
        assert(q.adjacent(p));
    }
}

/// A run is over after at most twice as many steps as the maze has cells:
/// that many are left before the first step, every step takes one away,
/// and none is left exactly when the run is done.
pub proof fn lemma_steps_bounded(view: GeneratorView)
    requires
        view.wf(),
    ensures
        view.steps_remaining() <= 2 * (view.width * view.height),
        view.state == GeneratorState::Clear ==> view.steps_remaining() == 2 * (view.width
            * view.height),
        view.steps_remaining() == 0 <==> view.state == GeneratorState::Done,
{
    assert(view.width * view.height > 0) by (nonlinear_arith)
        requires
            view.width > 0,
            view.height > 0,
    ;
}

/// When a run is done the walls are the same on both sides of every pair
/// of neighbours, every cell can be reached from the first one through
/// passages that number one less than the cells, so that the maze is a
/// tree, and the search has come back to the first cell with every other
/// cell visited.
pub proof fn lemma_done_spans(view: GeneratorView)
    requires
        view.wf(),
        view.state == GeneratorState::Done,
    ensures
        view.maze.walls_symmetric(),
        view.maze.enclosed(),
        view.maze.spans_from(view.maze.start),
        view.maze.passages() + 1 == view.width * view.height,
        view.current == GeneratorView::origin(),
        forall|p: Point|
            view.contains(p) ==> view.cell_state(p) == if p == GeneratorView::origin() {
                BacktrackingCellState::Current
            } else {
                BacktrackingCellState::Visited
            },
{
    lemma_finished(view);
    assert forall|p: Point| view.contains(p) implies view.cell_state(p) == if p
        == GeneratorView::origin() {
        BacktrackingCellState::Current
    } else {
        BacktrackingCellState::Visited
    } by {
        assert(view.visited(p));
        assert(view.cell_state(p) == BacktrackingCellState::Current <==> p == view.current);
    }
}

/// Before the first step, and so after every restart, no cell but the
/// first is visited, and no wall is open.
pub proof fn lemma_fresh_unvisited(width: usize, height: usize, p: Point)
    requires
        Maze::valid_size(width, height),
        p.within(width, height),
    ensures
        GeneratorView::fresh(width, height).cell_state(p) == if p == GeneratorView::origin() {
            BacktrackingCellState::Current
        } else {
            BacktrackingCellState::Unvisited
        },
        forall|q: Point| !GeneratorView::fresh(width, height).maze.is_open(p, q),
{
    let view = GeneratorView::fresh(width, height);
    let blank = uniform(width as nat, height as nat, BacktrackingCellState::Unvisited);
    lemma_count_uniform(width as nat, height as nat, BacktrackingCellState::Unvisited, unvisited());
    lemma_with_entry(blank, width as nat, height as nat, 0, 0, BacktrackingCellState::Current);
    assert(view.cell_state(p) == view.cells[p.x as int][p.y as int]);
}

/// At every moment of a run the walls are the same on both sides of every
/// pair of neighbours: where one can step from a cell to its neighbour,
/// one can step back.
pub proof fn lemma_walls_symmetric(view: GeneratorView, a: Point, b: Point)
    requires
        view.wf(),
        view.contains(a),
        view.contains(b),
        a.adjacent(b),
    ensures
        view.maze.cell(a).has_wall(a.direction_to(b)) <==> view.maze.cell(b).has_wall(
            b.direction_to(a),
        ),
        view.maze.is_open(a, b) <==> view.maze.is_open(b, a),
{
    assert(b.adjacent(a));
}

/// A generator that has not started is well formed.
pub proof fn lemma_fresh_wf(width: usize, height: usize)
    requires
        Maze::valid_size(width, height),
    ensures
        GeneratorView::fresh(width, height).wf(),
{
    let view = GeneratorView::fresh(width, height);
    let blank = uniform(width as nat, height as nat, BacktrackingCellState::Unvisited);
    lemma_count_uniform(width as nat, height as nat, BacktrackingCellState::Unvisited, unvisited());
    lemma_with_entry(blank, width as nat, height as nat, 0, 0, BacktrackingCellState::Current);
    assert forall|p: Point| view.contains(p) implies (#[trigger] view.cell_state(p)
        == BacktrackingCellState::Current <==> p == view.current) by {
        assert(view.cell_state(p) == view.cells[p.x as int][p.y as int]);
    }
    assert forall|p: Point| #[trigger] view.visited(p) implies view.maze.connected(
        GeneratorView::origin(),
        p,
    ) by {
        assert(view.cell_state(p) == view.cells[p.x as int][p.y as int]);
        view.maze.lemma_connected_self(p);
    }
    assert(view.maze.wf());
    lemma_fresh_grown(width, height);
}

/// A generator that has not started has no passage yet.
proof fn lemma_fresh_grown(width: usize, height: usize)
    requires
        Maze::valid_size(width, height),
    ensures
        GeneratorView::fresh(width, height).grown(),
        GeneratorView::fresh(width, height).maze.passages() == 0,
{
    let view = GeneratorView::fresh(width, height);
    let blank = uniform(width as nat, height as nat, BacktrackingCellState::Unvisited);
    lemma_count_uniform(width as nat, height as nat, BacktrackingCellState::Unvisited, unvisited());
    lemma_with_entry(blank, width as nat, height as nat, 0, 0, BacktrackingCellState::Current);
    lemma_count_update(blank, unvisited(), 0, 0, BacktrackingCellState::Current);
    lemma_count_bounds(view.maze.cells, east_open(), height as nat);
    lemma_count_bounds(view.maze.cells, south_open(), height as nat);
}

/// Setting up a fresh generator keeps it well formed and leaves as many
/// steps to go as before.
pub proof fn lemma_initialized_wf(view: GeneratorView)
    requires
        view.wf(),
        view.state == GeneratorState::Clear,
    ensures
        view.initialized().wf(),
        view.initialized().steps_remaining() == view.steps_remaining(),
{
    let ready = view.initialized();
    let w = view.width as nat;
    let h = view.height as nat;
    let blank = uniform(w, h, BacktrackingCellState::Unvisited);
    lemma_count_uniform(w, h, BacktrackingCellState::Unvisited, unvisited());
    lemma_with_entry(blank, w, h, 0, 0, BacktrackingCellState::Current);
    lemma_count_update(blank, unvisited(), 0, 0, BacktrackingCellState::Current);
    assert(ready.cells == view.cells);
    assert forall|p: Point| ready.contains(p) implies (#[trigger] ready.cell_state(p)
        == BacktrackingCellState::Current <==> p == ready.current) by {
        assert(view.cell_state(p) == ready.cell_state(p));
    }
    assert forall|p: Point| #[trigger] ready.visited(p) implies ready.maze.connected(
        GeneratorView::origin(),
        p,
    ) by {
        assert(view.visited(p));
    }
    assert(ready.visited(GeneratorView::origin())) by {
        assert(view.cell_state(GeneratorView::origin()) == BacktrackingCellState::Current);
    }
    assert forall|p: Point, q: Point|
        ready.visited(p) && !ready.stack.contains(p) && ready.contains(q) && #[trigger] p.adjacent(
            q,
        ) implies ready.visited(q) by {
        assert(view.cell_state(p) == ready.cell_state(p));
        assert(ready.cells[p.x as int][p.y as int] == if p.x == 0 && p.y == 0 {
            BacktrackingCellState::Current
        } else {
            blank[p.x as int][p.y as int]
        });
        assert(p == ready.stack[0]);
    }
    assert(ready.stack[0] == GeneratorView::origin());
    assert(count(ready.cells, unvisited()) == w * h - 1);
    assert(2 * (w * h - 1) + 2 == 2 * (w * h));
    assert(ready.grown()) by {
        assert forall|p: Point| ready.contains(p) && !ready.visited(p) implies (
        #[trigger] ready.maze.cell(p)).walls == (WallSet {
            north: true,
            south: true,
            east: true,
            west: true,
        }) by {
            assert(view.cell_state(p) == ready.cell_state(p));
            assert(!view.visited(p));
        }
    }
}

/// What the cell table holds after one move of the search.
proof fn lemma_advanced_cells(view: GeneratorView, choice: Option<Point>)
    requires
        view.wf(),
        view.state != GeneratorState::Clear,
        view.stack.len() > 0,
        view.valid_choice(choice),
    ensures
        has_shape(view.advanced(choice).cells, view.width as nat, view.height as nat),
        forall|p: Point|
            view.contains(p) ==> #[trigger] view.advanced(choice).cell_state(p) == if p
                == view.stack.last() {
                BacktrackingCellState::Current
            } else if choice == Some(p) || p == view.current {
                BacktrackingCellState::Visited
            } else {
                view.cell_state(p)
            },
        choice matches Some(next) ==> view.contains(next) && view.stack.last().adjacent(next)
            && view.cell_state(next) == BacktrackingCellState::Unvisited,
        choice is None ==> forall|q: Point|
            view.contains(q) && #[trigger] view.stack.last().adjacent(q) ==> view.visited(q),
        count(view.advanced(choice).cells, unvisited()) + (if choice is Some {
            1int
        } else {
            0int
        }) == count(view.cells, unvisited()),
{
    let after = view.advanced(choice);
    let w = view.width as nat;
    let h = view.height as nat;
    let popped = view.stack.last();
    let current = view.current;
    let neighbors = popped.spec_neighbors(view.width, view.height);
    let pred = |q: Point| view.cell_state(q) == BacktrackingCellState::Unvisited;
    popped.lemma_neighbors(view.width, view.height);
    assert(view.visited(view.stack[view.stack.len() - 1]));
    let first = with_entry(
        view.cells,
        current.x as int,
        current.y as int,
        BacktrackingCellState::Visited,
    );
    let marked = with_entry(first, popped.x as int, popped.y as int, BacktrackingCellState::Current);
    lemma_with_entry(view.cells, w, h, current.x as int, current.y as int, BacktrackingCellState::Visited);
    lemma_with_entry(first, w, h, popped.x as int, popped.y as int, BacktrackingCellState::Current);
    lemma_count_update(view.cells, unvisited(), current.x as int, current.y as int, BacktrackingCellState::Visited);
    lemma_count_update(first, unvisited(), popped.x as int, popped.y as int, BacktrackingCellState::Current);
    assert(view.cell_state(current) == BacktrackingCellState::Current);
    assert(first[popped.x as int][popped.y as int] != BacktrackingCellState::Unvisited);
    match choice {
        Some(next) => {
            neighbors.lemma_filter_contains_rev(pred, next);
            let i = choose|i: int|
                0 <= i < neighbors.filter(pred).len() && neighbors.filter(pred)[i] == next;
            neighbors.lemma_filter_pred(pred, i);
            assert(pred(next));
            lemma_with_entry(marked, w, h, next.x as int, next.y as int, BacktrackingCellState::Visited);
            lemma_count_update(marked, unvisited(), next.x as int, next.y as int, BacktrackingCellState::Visited);
            assert(marked[next.x as int][next.y as int] == BacktrackingCellState::Unvisited);
        },
        None => {
            assert forall|q: Point|
                view.contains(q) && #[trigger] popped.adjacent(q) implies view.visited(q) by {
                if !view.visited(q) {
                    assert(neighbors.contains(q));
                    let i = choose|i: int| 0 <= i < neighbors.len() && neighbors[i] == q;
                    neighbors.lemma_filter_contains(pred, i);
                }
            }
        },
    }
    assert forall|p: Point| view.contains(p) implies #[trigger] after.cell_state(p) == if p
        == view.stack.last() {
        BacktrackingCellState::Current
    } else if choice == Some(p) || p == view.current {
        BacktrackingCellState::Visited
    } else {
        view.cell_state(p)
    } by {
        assert(after.cell_state(p) == after.cells[p.x as int][p.y as int]);
        assert(marked[p.x as int][p.y as int] == if p == popped {
            BacktrackingCellState::Current
        } else {
            first[p.x as int][p.y as int]
        });
    }
}

/// One move of the search keeps the generator well formed and brings it
/// one step closer to the end.
pub proof fn lemma_advanced_wf(view: GeneratorView, choice: Option<Point>)
    requires
        view.wf(),
        view.state == GeneratorState::Initialised || view.state == GeneratorState::InProgress,
        view.stack.len() > 0,
        view.valid_choice(choice),
    ensures
        view.advanced(choice).wf(),
        view.advanced(choice).steps_remaining() + 1 == view.steps_remaining(),
{
    let after = view.advanced(choice);
    let popped = view.stack.last();
    let origin = GeneratorView::origin();
    lemma_advanced_cells(view, choice);
    assert(view.visited(view.stack[view.stack.len() - 1]));
    assert forall|p: Point| view.visited(p) implies after.visited(p) by {
        assert(after.cell_state(p) != BacktrackingCellState::Unvisited);
    }
    assert forall|p: Point| after.visited(p) implies view.visited(p) || choice == Some(p) by {
        assert(after.cell_state(p) != BacktrackingCellState::Unvisited);
    }
    assert forall|p: Point|
        after.contains(p) implies (#[trigger] after.cell_state(p) == BacktrackingCellState::Current
        <==> p == after.current) by {
        assert(view.cell_state(p) == BacktrackingCellState::Current <==> p == view.current);
    }
    match choice {
        Some(next) => {
            lemma_carved(view.maze, popped, next);
            assert forall|i: int| 0 <= i < after.stack.len() implies after.visited(
                #[trigger] after.stack[i],
            ) by {
                if i < view.stack.len() {
                    assert(view.visited(view.stack[i]));
                } else {
                    assert(after.cell_state(next) == BacktrackingCellState::Visited);
                }
            }
            assert forall|p: Point| #[trigger] after.visited(p) implies after.maze.connected(
                origin,
                p,
            ) by {
                if p == next {
                    assert(view.visited(popped));
                    view.maze.lemma_connected_survives(after.maze, origin, popped);
                    after.maze.lemma_connected_step(origin, popped, next);
                } else {
                    assert(view.visited(p));
                    view.maze.lemma_connected_survives(after.maze, origin, p);
                }
            }
            assert forall|p: Point, q: Point|
                after.visited(p) && !after.stack.contains(p) && after.contains(q)
                    && #[trigger] p.adjacent(q) implies after.visited(q) by {
                assert(after.stack[view.stack.len() as int] == next);
                assert(p != next);
                assert(view.visited(p));
                if view.stack.contains(p) {
                    let i = choose|i: int| 0 <= i < view.stack.len() && view.stack[i] == p;
                    assert(after.stack[i] == p);
                }
                assert(view.visited(q));
            }
            assert(after.stack[0] == view.stack[0]);
        },
        None => {
            assert forall|i: int| 0 <= i < after.stack.len() implies after.visited(
                #[trigger] after.stack[i],
            ) by {
                assert(view.visited(view.stack[i]));
            }
            assert forall|p: Point| #[trigger] after.visited(p) implies after.maze.connected(
                origin,
                p,
            ) by {
                assert(view.visited(p));
            }
            assert forall|p: Point, q: Point|
                after.visited(p) && !after.stack.contains(p) && after.contains(q)
                    && #[trigger] p.adjacent(q) implies after.visited(q) by {
                assert(view.visited(p));
                if view.stack.contains(p) {
                    let i = choose|i: int| 0 <= i < view.stack.len() && view.stack[i] == p;
                    if i < view.stack.len() - 1 {
                        assert(after.stack[i] == p);
                    }
                    assert(p == popped);
                }
                assert(view.visited(q));
            }
            if after.stack.len() > 0 {
                assert(after.stack[0] == view.stack[0]);
            }
        },
    }
    assert(after.visited(origin)) by {
        assert(view.visited(origin));
    }
    lemma_advanced_grown(view, choice);
}

/// One move of the search makes a passage exactly when it visits a new cell.
proof fn lemma_advanced_grown(view: GeneratorView, choice: Option<Point>)
    requires
        view.wf(),
        view.state == GeneratorState::Initialised || view.state == GeneratorState::InProgress,
        view.stack.len() > 0,
        view.valid_choice(choice),
    ensures
        view.advanced(choice).grown(),
{
    let after = view.advanced(choice);
    let popped = view.stack.last();
    lemma_advanced_cells(view, choice);
    assert(view.visited(view.stack[view.stack.len() - 1]));
    assert forall|p: Point| after.visited(p) <==> view.visited(p) || choice == Some(p) by {
        if view.contains(p) {
            assert(after.cell_state(p) == if p == view.stack.last() {
                BacktrackingCellState::Current
            } else if choice == Some(p) || p == view.current {
                BacktrackingCellState::Visited
            } else {
                view.cell_state(p)
            });
        }
    }
    match choice {
        Some(next) => {
            assert(!view.visited(next));
            assert(view.maze.cell(next).walls == (WallSet {
                north: true,
                south: true,
                east: true,
                west: true,
            }));
            popped.lemma_facing_sides(next);
            assert(next.adjacent(popped));
            assert(view.maze.cell(next).has_wall(next.direction_to(popped)));
            lemma_carved(view.maze, popped, next);
            lemma_carved_passage(view.maze, popped, next);
            assert forall|p: Point| after.contains(p) && !after.visited(p) implies (
            #[trigger] after.maze.cell(p)).walls == (WallSet {
                north: true,
                south: true,
                east: true,
                west: true,
            }) by {
                assert(after.visited(p) <==> view.visited(p) || choice == Some(p));
                assert(!view.visited(p));
                assert(view.maze.cell(p).walls == (WallSet {
                    north: true,
                    south: true,
                    east: true,
                    west: true,
                }));
            }
        },
        None => {
            assert forall|p: Point| after.contains(p) && !after.visited(p) implies (
            #[trigger] after.maze.cell(p)).walls == (WallSet {
                north: true,
                south: true,
                east: true,
                west: true,
            }) by {
                assert(after.visited(p) <==> view.visited(p) || choice == Some(p));
                assert(!view.visited(p));
            }
        },
    }
}

/// When the stack has run empty every cell has been visited, and what is
/// left to do is the one step that declares the run done.
pub proof fn lemma_finished(view: GeneratorView)
    requires
        view.wf(),
        view.state != GeneratorState::Clear,
        view.stack.len() == 0,
    ensures
        forall|p: Point| view.contains(p) ==> view.visited(p),
        view.maze.spans_from(GeneratorView::origin()),
        view.state != GeneratorState::Done ==> view.steps_remaining() == 1,
        view.maze.passages() + 1 == view.width * view.height,
        (GeneratorView { state: GeneratorState::Done, ..view }).wf(),
{
    assert forall|p: Point| view.contains(p) implies view.visited(p) by {
        lemma_flood(view, p);
    }
    assert forall|p: Point| view.maze.contains(p) implies view.maze.connected(
        GeneratorView::origin(),
        p,
    ) by {
        assert(view.visited(p));
    }
    assert forall|x: int, y: int| 0 <= x < view.cells.len() && 0 <= y < view.height implies !(
    unvisited())(view.cells[x][y]) by {
        let p = Point { x: x as usize, y: y as usize };
        assert(view.visited(p));
    }
    lemma_count_bounds(view.cells, unvisited(), view.height as nat);
    let done = GeneratorView { state: GeneratorState::Done, ..view };
    assert forall|p: Point| #[trigger] done.visited(p) implies done.maze.connected(
        GeneratorView::origin(),
        p,
    ) by {
        assert(view.visited(p));
    }
    assert forall|p: Point|
        done.contains(p) implies (#[trigger] done.cell_state(p) == BacktrackingCellState::Current
        <==> p == done.current) by {
        assert(view.cell_state(p) == BacktrackingCellState::Current <==> p == view.current);
    }
    assert(done.visited(GeneratorView::origin())) by {
        assert(view.visited(GeneratorView::origin()));
    }
    assert(done.grown()) by {
        assert forall|p: Point| done.contains(p) && !done.visited(p) implies (
        #[trigger] done.maze.cell(p)).walls == (WallSet {
            north: true,
            south: true,
            east: true,
            west: true,
        }) by {
            assert(view.visited(p));
        }
    }
}

/// The standard random source of the `rand` crate, `rand::rngs::StdRng`.
/// It is carried through as it is: nothing is known of what it holds.
#[verifier::external_type_specification]
#[verifier::external_body]
pub struct ExStdRng(rand::rngs::StdRng);

/// Calls `rand::SeedableRng::from_entropy` for `StdRng`: a random source
/// seeded by the operating system, which is taken to be at hand (the call
/// panics where the system hands out no seed). Nothing is claimed of the
/// source that comes back.
#[verifier::external_body]
fn rng_from_entropy() -> (rng: StdRng) {
    StdRng::from_entropy()
}

/// Calls `rand::SeedableRng::seed_from_u64` for `StdRng`: a random source
/// that replays the same draws for the same seed. Nothing is claimed of it.
#[verifier::external_body]
fn rng_from_seed(seed: u64) -> (rng: StdRng) {
    StdRng::seed_from_u64(seed)
}

/// Calls `rand::seq::SliceRandom::choose` on the candidates. Its source
/// returns nothing for an empty slice and otherwise the element at an index
/// drawn below the length; that the result is one of the candidates is all
/// that is claimed here.
#[verifier::external_body]
fn choose_point(candidates: &Vec<Point>, rng: &mut StdRng) -> (picked: Option<Point>)
    ensures
        candidates@.len() == 0 ==> picked is None,
        candidates@.len() > 0 ==> picked is Some && candidates@.contains(picked->Some_0),
{
    candidates.choose(rng).copied()
}

/// A maze generator that carves by randomized depth-first search and can
/// be driven one step at a time.
pub struct BacktrackingGenerator {
    stack: Vec<Point>,
    maze: Maze,
    current: Point,
    state: GeneratorState,
    cells_state: Vec<Vec<BacktrackingCellState>>,
    pub width: usize,
    pub height: usize,
    rng: StdRng,
}

impl View for BacktrackingGenerator {
    type V = GeneratorView;

    closed spec fn view(&self) -> GeneratorView {
        GeneratorView {
            width: self.width,
            height: self.height,
            maze: self.maze@,
            stack: self.stack@,
            current: self.current,
            state: self.state,
            cells: table_view(self.cells_state),
        }
    }
}

impl BacktrackingGenerator {
    /// Shorthand for `self@.wf()`.
    pub open spec fn wf(&self) -> bool {
        self@.wf()
    }

    /// A generator for a maze of the given size that draws from `rng`.
    fn build(width: usize, height: usize, rng: StdRng) -> (made: Result<Self, MazeError>)
        ensures
            !Maze::valid_size(width, height) ==> (made matches Err(e) && e
                == MazeError::InvalidDimension),
            Maze::valid_size(width, height) ==> (made matches Ok(generator) && generator@
                == GeneratorView::fresh(width, height) && generator.wf()),
    {
        let maze = match Maze::new(width, height) {
            Ok(maze) => maze,
            Err(e) => { return Err(e); },
        };
        let current = Point { x: 0, y: 0 };
        let mut cells_state = filled(width, height, BacktrackingCellState::Unvisited);
        proof {
            lemma_count_uniform(
                width as nat,
                height as nat,
                BacktrackingCellState::Unvisited,
                unvisited(),
            );
            assert(table_view(cells_state)[0] == cells_state@[0]@);
            lemma_fresh_wf(width, height);
        }
        set_entry(&mut cells_state, 0, 0, BacktrackingCellState::Current);
        Ok(
            Self {
                stack: Vec::new(),
                maze,
                current,
                state: GeneratorState::Clear,
                cells_state,
                width,
                height,
                rng,
            },
        )
    }

    /// A generator for a maze of the given size, drawing its choices from a
    /// source seeded by the operating system.
    pub fn new(width: usize, height: usize) -> (made: Result<Self, MazeError>)
        ensures
            !Maze::valid_size(width, height) ==> (made matches Err(e) && e
                == MazeError::InvalidDimension),
            Maze::valid_size(width, height) ==> (made matches Ok(generator) && generator@
                == GeneratorView::fresh(width, height) && generator.wf()),
    {
        Self::build(width, height, rng_from_entropy())
    }

    /// A generator for a maze of the given size whose choices are drawn from
    /// a source seeded with `seed`.
    pub fn with_seed(width: usize, height: usize, seed: u64) -> (made: Result<Self, MazeError>)
        ensures
            !Maze::valid_size(width, height) ==> (made matches Err(e) && e
                == MazeError::InvalidDimension),
            Maze::valid_size(width, height) ==> (made matches Ok(generator) && generator@
                == GeneratorView::fresh(width, height) && generator.wf()),
    {
        Self::build(width, height, rng_from_seed(seed))
    }

    /// The maze as far as it is carved.
    pub fn get_maze_ref(&self) -> (maze: &Maze)
        ensures
            maze@ == self@.maze,
    {
        &self.maze
    }

    /// Throws the maze away for a fully walled one of the same size and
    /// forgets all that the search has done.
    pub fn restart(&mut self)
        requires
            old(self).wf(),
        ensures
            final(self)@ == GeneratorView::fresh(old(self)@.width, old(self)@.height),
            final(self).wf(),
    {
        proof {
            lemma_fresh_wf(self.width, self.height);
            lemma_count_uniform(
                self.width as nat,
                self.height as nat,
                BacktrackingCellState::Unvisited,
                unvisited(),
            );
        }
        match Maze::new(self.width, self.height) {
            Ok(maze) => { self.maze = maze; },
            Err(_) => {},
        }
        self.stack.clear();
        self.current = Point { x: 0, y: 0 };
        self.cells_state = filled(self.width, self.height, BacktrackingCellState::Unvisited);
        assert(table_view(self.cells_state)[0] == self.cells_state@[0]@);
        set_entry(&mut self.cells_state, 0, 0, BacktrackingCellState::Current);
        self.state = GeneratorState::Clear;
    }

    /// Sets the search up: the first cell goes on the stack and becomes
    /// current. Only a generator that has not started can be set up.
    pub fn initialize(&mut self) -> (outcome: Result<(), MazeError>)
        requires
            old(self).wf(),
        ensures
            final(self).wf(),
            old(self)@.state == GeneratorState::Clear ==> outcome is Ok && final(self)@ == old(
                self,
            )@.initialized(),
            old(self)@.state != GeneratorState::Clear ==> outcome == Err::<(), MazeError>(
                MazeError::AlreadyInitialized,
            ) && final(self)@ == old(self)@,
    {
        if self.state != GeneratorState::Clear {
            return Err(MazeError::AlreadyInitialized);
        }
        proof {
            lemma_initialized_wf(self@);
            lemma_count_uniform(
                self.width as nat,
                self.height as nat,
                BacktrackingCellState::Unvisited,
                unvisited(),
            );
        }
        let start = self.maze.get_start();
        self.current = start;
        self.stack.push(start);
        self.state = GeneratorState::Initialised;
        self.cells_state = filled(self.width, self.height, BacktrackingCellState::Unvisited);
        assert(table_view(self.cells_state)[0] == self.cells_state@[0]@);
        set_entry(&mut self.cells_state, start.x, start.y, BacktrackingCellState::Current);
        assert(self.stack@ =~= seq![start]);
        Ok(())
    }

    /// What the search knows of the cell at `p`.
    pub fn cell_generation_state(&self, p: Point) -> (known: BacktrackingCellState)
        requires
            self.wf(),
            self@.contains(p),
        ensures
            known == self@.cell_state(p),
            known == BacktrackingCellState::Current <==> p == self@.current,
    {
        assert(table_view(self.cells_state)[p.x as int] == self.cells_state@[p.x as int]@);
        assert(self@.cell_state(p) == BacktrackingCellState::Current <==> p == self@.current);
        self.cells_state[p.x][p.y]
    }

    /// What the search knows of every cell: entry `[x][y]` is for the cell
    /// in column `x`, row `y`.
    pub fn get_cells_state(&self) -> (known: Vec<Vec<BacktrackingCellState>>)
        ensures
            table_view(known) == self@.cells,
    {
        duplicate(&self.cells_state)
    }

    /// Whether the run is over.
    pub fn is_done(&self) -> (done: bool)
        ensures
            done == (self@.state == GeneratorState::Done),
    {
        self.state == GeneratorState::Done
    }

    /// The unvisited neighbours of `p`, in the order west, east, south, north.
    fn unvisited_neighbors(&self, p: Point) -> (found: Vec<Point>)
        requires
            self.wf(),
        ensures
            found@ == self@.candidates(p),
    {
        let neighbors = p.get_neighbors(self.width, self.height);
        let ghost pred = |q: Point| self@.cell_state(q) == BacktrackingCellState::Unvisited;
        let mut found: Vec<Point> = Vec::new();
        let mut i: usize = 0;
        proof {
            p.lemma_neighbors(self.width, self.height);
            assert(neighbors@.take(0).filter(pred) =~= Seq::<Point>::empty()) by {
                reveal(Seq::filter);
            }
        }
        while i < neighbors.len()
            invariant
                i <= neighbors.len(),
                self.wf(),
                neighbors@ == p.spec_neighbors(self.width, self.height),
                forall|q: Point| neighbors@.contains(q) ==> self@.contains(q),
                pred == |q: Point| self@.cell_state(q) == BacktrackingCellState::Unvisited,
                found@ == neighbors@.take(i as int).filter(pred),
            decreases neighbors.len() - i,
        {
            let q = neighbors[i];
            assert(neighbors@.contains(q));
            assert(table_view(self.cells_state)[q.x as int] == self.cells_state@[q.x as int]@);
            proof {
                neighbors@.take(i as int).lemma_filter_push(q, pred);
                assert(neighbors@.take(i as int).push(q) =~= neighbors@.take(i + 1));
            }
            if self.cells_state[q.x][q.y] == BacktrackingCellState::Unvisited {
                found.push(q);
            }
            i += 1;
        }
        assert(neighbors@.take(i as int) =~= neighbors@);
        found
    }

    /// The cells among which the coming step chooses: the unvisited
    /// neighbours of the cell that it moves on to, in the order west, east,
    /// south, north. There is none if that cell is a dead end, or if the
    /// step does not move.
    pub fn candidates(&self) -> (found: Vec<Point>)
        requires
            self.wf(),
        ensures
            found@ == self@.choices(),
            forall|next: Point| found@.contains(next) <==> self@.allows(Some(next)),
            found@.len() == 0 <==> self@.allows(None),
    {
        if self.state == GeneratorState::Clear {
            proof {
                lemma_initialized_wf(self@);
                assert(self@.initialized().cells == self@.cells);
                let here = |q: Point| self@.cell_state(q) == BacktrackingCellState::Unvisited;
                let there = |q: Point|
                    self@.initialized().cell_state(q) == BacktrackingCellState::Unvisited;
                assert(here =~= there);
            }
            self.unvisited_neighbors(self.maze.get_start())
        } else if self.stack.is_empty() {
            Vec::new()
        } else {
            self.unvisited_neighbors(self.stack[self.stack.len() - 1])
        }
    }

    /// Notes what is known of the cell at `p`.
    fn mark(&mut self, p: Point, known: BacktrackingCellState)
        requires
            has_shape(old(self)@.cells, old(self)@.width as nat, old(self)@.height as nat),
            old(self)@.contains(p),
        ensures
            final(self)@ == (GeneratorView {
                cells: with_entry(old(self)@.cells, p.x as int, p.y as int, known),
                ..old(self)@
            }),
            has_shape(final(self)@.cells, old(self)@.width as nat, old(self)@.height as nat),
    {
        proof {
            lemma_with_entry(
                self@.cells,
                self.width as nat,
                self.height as nat,
                p.x as int,
                p.y as int,
                known,
            );
            assert(table_view(self.cells_state)[p.x as int] == self.cells_state@[p.x as int]@);
        }
        set_entry(&mut self.cells_state, p.x, p.y, known);
    }

    /// Takes the wall between the cells `a` and `b` away on both sides.
    fn carve(&mut self, a: Point, b: Point)
        requires
            old(self)@.maze.wf(),
            old(self)@.maze.contains(a),
            old(self)@.maze.contains(b),
            a != b,
        ensures
            final(self)@ == (GeneratorView {
                maze: GeneratorView::carved(old(self)@.maze, a, b),
                ..old(self)@
            }),
    {
        let ghost before = self.maze@;
        if let Ok(direction) = a.get_relative_direction(&b) {
            if let Ok(other_direction) = b.get_relative_direction(&a) {
                proof {
                    let first = Cell {
                        position: before.cell(a).position,
                        walls: before.cell(a).walls.without(direction),
                    };
                    lemma_with_entry(
                        before.cells,
                        before.width as nat,
                        before.height as nat,
                        a.x as int,
                        a.y as int,
                        first,
                    );
                    let opened = before.with_cell(a, first);
                    assert forall|p: Point| opened.contains(p) implies (#[trigger] opened.cell(
                        p,
                    )).position == p by {
                        assert(before.cell(p).position == p);
                        assert(opened.cell(p) == opened.cells[p.x as int][p.y as int]);
                    }
                }
                self.maze.get_cell_mut(a).remove_wall(&direction);
                self.maze.get_cell_mut(b).remove_wall(&other_direction);
            }
        }
    }

    /// One move of the search from a non-empty stack, towards the chosen
    /// neighbour if there is one.
    fn advance(&mut self, choice: Option<Point>)
        requires
            old(self).wf(),
            old(self)@.state == GeneratorState::Initialised || old(self)@.state
                == GeneratorState::InProgress,
            old(self)@.stack.len() > 0,
            old(self)@.valid_choice(choice),
        ensures
            final(self)@ == old(self)@.advanced(choice),
            final(self).wf(),
            final(self)@.steps_remaining() + 1 == old(self)@.steps_remaining(),
    {
        proof {
            lemma_advanced_wf(self@, choice);
            lemma_advanced_cells(self@, choice);
            assert(self@.visited(self@.stack[self@.stack.len() - 1]));
        }
        self.move_on(choice);
    }

    /// The moves of `advance`, for a generator of which only the shape is known.
    fn move_on(&mut self, choice: Option<Point>)
        requires
            old(self)@.maze.wf(),
            old(self)@.maze.width == old(self)@.width,
            old(self)@.maze.height == old(self)@.height,
            has_shape(old(self)@.cells, old(self)@.width as nat, old(self)@.height as nat),
            old(self)@.contains(old(self)@.current),
            old(self)@.stack.len() > 0,
            old(self)@.contains(old(self)@.stack.last()),
            choice matches Some(next) ==> old(self)@.contains(next) && next != old(
                self,
            )@.stack.last(),
        ensures
            final(self)@ == old(self)@.advanced(choice),
    {
        let ghost before = self@;
        self.state = GeneratorState::InProgress;
        self.mark(self.current, BacktrackingCellState::Visited);
        let popped = match self.stack.pop() {
            Some(popped) => popped,
            None => { return ; },
        };
        self.current = popped;
        self.mark(popped, BacktrackingCellState::Current);
        if let Some(next) = choice {
            self.stack.push(popped);
            self.carve(popped, next);
            self.mark(next, BacktrackingCellState::Visited);
            self.stack.push(next);
            assert(self.stack@ =~= before.stack.push(next));
        }
    }

    /// One step of the run with the choice of the next cell given: sets up
    /// if need be, declares the run done if the stack is empty, and
    /// otherwise moves, towards `choice` if it names a cell.
    pub fn step_with(&mut self, choice: Option<Point>) -> (state: GeneratorState)
        requires
            old(self).wf(),
            old(self)@.allows(choice),
        ensures
            final(self)@ == old(self)@.stepped(choice),
            final(self).wf(),
            state == final(self)@.state,
            old(self)@.state == GeneratorState::Done ==> final(self)@ == old(self)@,
            old(self)@.state != GeneratorState::Done ==> final(self)@.steps_remaining() + 1 == old(
                self,
            )@.steps_remaining(),
    {
        if self.state == GeneratorState::Clear {
            proof {
                lemma_initialized_wf(self@);
            }
            let _ = self.initialize();
        }
        if self.stack.is_empty() {
            proof {
                if self@.state != GeneratorState::Done {
                    lemma_finished(self@);
                }
            }
            self.state = GeneratorState::Done;
        } else {
            self.advance(choice);
        }
        self.state
    }

    /// One step of the run: sets up if need be, declares the run done if
    /// the stack is empty, and otherwise moves on to the top of the stack
    /// and, if that cell has unvisited neighbours, carves through to one of
    /// them drawn at random. Hands back the state that the run is in then.
    /// A run that is done stays as it is.
    pub fn next_step(&mut self) -> (state: GeneratorState)
        requires
            old(self).wf(),
        ensures
            final(self).wf(),
            state == final(self)@.state,
            exists|choice: Option<Point>|
                old(self)@.allows(choice) && final(self)@ == old(self)@.stepped(choice),
            old(self)@.state == GeneratorState::Done ==> final(self)@ == old(self)@,
            old(self)@.state != GeneratorState::Done ==> final(self)@.steps_remaining() + 1 == old(
                self,
            )@.steps_remaining(),
    {
        let ghost before = self@;
        if self.state == GeneratorState::Clear {
            proof {
                lemma_initialized_wf(self@);
            }
            let _ = self.initialize();
        }
        if self.stack.is_empty() {
            proof {
                if self@.state != GeneratorState::Done {
                    lemma_finished(self@);
                }
            }
            self.state = GeneratorState::Done;
            assert(self@ == before.stepped(None));
        } else {
            let top = self.stack[self.stack.len() - 1];
            let candidates = self.unvisited_neighbors(top);
            let choice = choose_point(&candidates, &mut self.rng);
            self.advance(choice);
            assert(self@ == before.stepped(choice));
        }
        self.state
    }

    /// Runs the search to its end, step by step as `next_step` does, and
    /// hands out a copy of the finished maze. In it every cell can be
    /// reached from the first one, and the passages number one less than
    /// the cells: the maze is a tree.
    pub fn generate(&mut self) -> (maze: Maze)
        requires
            old(self).wf(),
        ensures
            final(self).wf(),
            final(self)@.state == GeneratorState::Done,
            exists|choices: Seq<Option<Point>>|
                old(self)@.allows_run(choices) && final(self)@ == old(self)@.run(choices)
                    && choices.len() == old(self)@.steps_remaining(),
            maze@ == final(self)@.maze,
            maze.wf(),
            maze@.width == old(self)@.width,
            maze@.height == old(self)@.height,
            maze@.walls_symmetric(),
            maze@.enclosed(),
            maze@.spans_from(maze@.start),
            maze@.passages() + 1 == maze@.width * maze@.height,
    {
        let ghost before = self@;
        let ghost mut choices: Seq<Option<Point>> = Seq::empty();
        while self.state != GeneratorState::Done
            invariant
                before == old(self)@,
                self.wf(),
                self@.width == before.width,
                self@.height == before.height,
                before.allows_run(choices),
                self@ == before.run(choices),
                choices.len() + self@.steps_remaining() == before.steps_remaining(),
            decreases self@.steps_remaining(),
        {
            let ghost earlier = self@;
            let _ = self.next_step();
            proof {
                let choice = choose|choice: Option<Point>|
                    earlier.allows(choice) && self@ == earlier.stepped(choice);
                let longer = choices.push(choice);
                assert(longer.drop_last() =~= choices);
                assert forall|k: int| 0 <= k < longer.len() implies (#[trigger] before.run(
                    longer.take(k),
                )).allows(longer[k]) by {
                    if k < choices.len() {
                        assert(longer.take(k) =~= choices.take(k));
                    } else {
                        assert(longer.take(k) =~= choices);
                    }
                }
                choices = longer;
            }
        }
        proof {
            lemma_finished(self@);
        }
        self.maze.clone()
    }
}

} // verus!
