//! Finding a shortest route through a maze with A*, one step per call.
//!
//! The cost of a step is 1 and the estimate of what is left is the
//! Manhattan distance to the end. Of the cells that wait to be expanded the
//! one with the lowest cost is due first; of cells with equal cost the one
//! farthest from the end, and of those the one that has waited longest.
//! With this order the cost of a cell never changes once it is set, no cell
//! waits twice, and the first route that is handed out is a shortest one.

use vstd::prelude::*;
use crate::grid::{
    count, filled, has_shape, lemma_count_uniform, set_entry, table_view, uniform, with_entry,
};
use crate::maze::{Maze, MazeError, MazeView, Point};

verus! {

/// A route: the cells from start to end, both included.
pub type Path = Vec<Point>;

/// A cell waiting to be expanded, with the estimated length of the best
/// route through it.
#[derive(Eq, PartialEq, Debug, Clone, Copy, Structural)]
pub struct CostState {
    pub cost: usize,
    pub position: Point,
}

impl CostState {
    /// An entry for the cell at `position` with the given cost.
    pub fn new(cost: usize, position: Point) -> (entry: Self)
        ensures
            entry == (CostState { cost, position }),
    {
        Self { cost, position }
    }
}

/// `a` leaves a queue with the given goal no later than `b` would: it
/// costs less, or the same while lying at least as far from the goal.
pub open spec fn before(a: CostState, b: CostState, goal: Point) -> bool {
    a.cost < b.cost || (a.cost == b.cost && a.position.manhattan(goal) >= b.position.manhattan(
        goal,
    ))
}

/// The index of the entry that leaves the queue next: the first among
/// those that no other entry is strictly before.
pub open spec fn lowest(entries: Seq<CostState>, goal: Point) -> int
    decreases entries.len(),
{
    if entries.len() <= 1 {
        0
    } else {
        let best = lowest(entries.drop_last(), goal);
        if before(entries[best], entries.last(), goal) {
            best
        } else {
            entries.len() - 1
        }
    }
}

/// The entry at `lowest` is before every entry, and strictly so before
/// every earlier one.
pub proof fn lemma_lowest(entries: Seq<CostState>, goal: Point)
    requires
        entries.len() > 0,
    ensures
        0 <= lowest(entries, goal) < entries.len(),
        forall|j: int|
            0 <= j < entries.len() ==> before(entries[lowest(entries, goal)], #[trigger] entries[j], goal),
        forall|j: int|
            0 <= j < lowest(entries, goal) ==> !before(
                #[trigger] entries[j],
                entries[lowest(entries, goal)],
                goal,
            ),
    decreases entries.len(),
{
    if entries.len() > 1 {
        let rest = entries.drop_last();
        lemma_lowest(rest, goal);
        let best = lowest(rest, goal);
        assert forall|j: int| 0 <= j < entries.len() implies before(
            entries[lowest(entries, goal)],
            #[trigger] entries[j],
            goal,
        ) by {
            if j < rest.len() {
                assert(before(rest[best], rest[j], goal));
            }
        }
        assert forall|j: int| 0 <= j < lowest(entries, goal) implies !before(
            #[trigger] entries[j],
            entries[lowest(entries, goal)],
            goal,
        ) by {
            assert(before(rest[best], rest[j], goal));
            if j < best {
                assert(!before(rest[j], rest[best], goal));
            }
        }
    }
}

/// A priority queue as a mathematical value: its entries in the order in
/// which they came, and the goal by which equal costs are told apart.
pub struct OpenSetView {
    pub entries: Seq<CostState>,
    pub goal: Point,
}

impl OpenSetView {
    /// Whether some entry is for the cell `p`.
    pub open spec fn has(self, p: Point) -> bool {
        exists|i: int| 0 <= i < self.entries.len() && (#[trigger] self.entries[i]).position == p
    }
}

/// The cells waiting to be expanded. The entry with the lowest cost leaves
/// first; of entries with equal cost the one farthest from the goal, and
/// of those the one that came first.
pub struct OpenSet {
    entries: Vec<CostState>,
    goal: Point,
}

impl View for OpenSet {
    type V = OpenSetView;

    closed spec fn view(&self) -> OpenSetView {
        OpenSetView { entries: self.entries@, goal: self.goal }
    }
}

impl OpenSet {
    /// An empty queue for a search towards `goal`.
    pub fn new(goal: Point) -> (queue: Self)
        ensures
            queue@ == (OpenSetView { entries: Seq::empty(), goal }),
    {
        Self { entries: Vec::new(), goal }
    }

    /// Puts an entry in, behind those that are there.
    pub fn push(&mut self, entry: CostState)
        ensures
            final(self)@ == (OpenSetView { entries: old(self)@.entries.push(entry), ..old(self)@ }),
    {
        self.entries.push(entry);
    }

    /// The number of entries.
    pub fn len(&self) -> (n: usize)
        ensures
            n == self@.entries.len(),
    {
        self.entries.len()
    }

    /// Whether there is no entry.
    pub fn is_empty(&self) -> (empty: bool)
        ensures
            empty == (self@.entries.len() == 0),
    {
        self.entries.len() == 0
    }

    /// Whether some entry is for the cell `p`.
    pub fn contains(&self, p: &Point) -> (found: bool)
        ensures
            found == self@.has(*p),
    {
        let mut i: usize = 0;
        while i < self.entries.len()
            invariant
                i <= self.entries.len(),
                forall|j: int| 0 <= j < i ==> (#[trigger] self.entries@[j]).position != *p,
            decreases self.entries.len() - i,
        {
            if self.entries[i].position.x == p.x && self.entries[i].position.y == p.y {
                assert(self@.entries[i as int].position == *p);
                return true;
            }
            i += 1;
        }
        false
    }

    /// Whether `a` is before `b` in the order of this queue.
    fn precedes(&self, a: &CostState, b: &CostState) -> (earlier: bool)
        ensures
            earlier == before(*a, *b, self@.goal),
    {
        a.cost < b.cost || (a.cost == b.cost && a.position.distance_wide(&self.goal)
            >= b.position.distance_wide(&self.goal))
    }

    /// Takes out the entry that is due next, if there is any.
    pub fn pop(&mut self) -> (taken: Option<CostState>)
        ensures
            old(self)@.entries.len() == 0 ==> taken is None && final(self)@ == old(self)@,
            old(self)@.entries.len() > 0 ==> taken == Some(
                old(self)@.entries[lowest(old(self)@.entries, old(self)@.goal)],
            ) && final(self)@ == (OpenSetView {
                entries: old(self)@.entries.remove(lowest(old(self)@.entries, old(self)@.goal)),
                ..old(self)@
            }),
    {
        if self.entries.len() == 0 {
            return None;
        }
        let mut best: usize = 0;
        let mut i: usize = 1;
        assert(self.entries@.take(1).len() == 1);
        while i < self.entries.len()
            invariant
                1 <= i <= self.entries.len(),
                best < i,
                best == lowest(self.entries@.take(i as int), self@.goal),
            decreases self.entries.len() - i,
        {
            assert(self.entries@.take(i + 1).drop_last() =~= self.entries@.take(i as int));
            if !self.precedes(&self.entries[best], &self.entries[i]) {
                best = i;
            }
            i += 1;
        }
        assert(self.entries@.take(i as int) =~= self.entries@);
        Some(self.entries.remove(best))
    }
}

/// Where a solver stands in its run.
#[derive(Copy, Clone, Debug, Eq, PartialEq, Structural)]
pub enum SolverState {
    Clear,
    Initialised,
    InProgress,
    Done,
}

/// The predicate "a route to this cell is known", for counting.
pub open spec fn finite() -> spec_fn(usize) -> bool {
    |g: usize| g < usize::MAX
}

/// Of two keys, each an estimated route length and a distance to the goal,
/// the first is due no later than the second.
pub open spec fn key_before(f1: int, h1: int, f2: int, h2: int) -> bool {
    f1 < f2 || (f1 == f2 && h1 >= h2)
}

/// The solver as a mathematical value.
pub struct SolverView {
    pub maze: MazeView,
    pub open: OpenSetView,
    /// `came_from[x][y]` is the cell from which the cell in column `x`, row `y` was reached.
    pub came_from: Seq<Seq<Option<Point>>>,
    /// `g_score[x][y]` is the length of the best known route to that cell,
    /// `usize::MAX` while none is known.
    pub g_score: Seq<Seq<usize>>,
    pub state: SolverState,
}

impl SolverView {
    /// Whether `p` is a position of the maze.
    pub open spec fn contains(self, p: Point) -> bool {
        self.maze.contains(p)
    }

    /// The length of the best known route from start to `p`.
    pub open spec fn g(self, p: Point) -> usize {
        self.g_score[p.x as int][p.y as int]
    }

    /// The cell from which `p` was reached.
    pub open spec fn parent(self, p: Point) -> Option<Point> {
        self.came_from[p.x as int][p.y as int]
    }

    /// The estimate of what is left from `p` to the end: their Manhattan distance.
    pub open spec fn h(self, p: Point) -> int {
        p.manhattan(self.maze.end) as int
    }

    /// A route to `p` is known.
    pub open spec fn reached(self, p: Point) -> bool {
        self.contains(p) && self.g(p) < usize::MAX
    }

    /// `p` has been reached and has left the open set.
    pub open spec fn closed(self, p: Point) -> bool {
        self.reached(p) && !self.open.has(p)
    }

    /// The end has left the open set: a route to it has been handed out.
    pub open spec fn found(self) -> bool {
        self.state != SolverState::Clear && self.closed(self.maze.end)
    }

    /// The tables have the size of the maze, and the open set aims at its end.
    pub open spec fn shapes(self) -> bool {
        &&& has_shape(self.g_score, self.maze.width as nat, self.maze.height as nat)
        &&& has_shape(self.came_from, self.maze.width as nat, self.maze.height as nat)
        &&& self.open.goal == self.maze.end
    }

    /// Every entry of the open set is for a reached cell and carries that
    /// cell's cost; no cell has two entries.
    pub open spec fn entries_agree(self) -> bool {
        &&& forall|i: int|
            0 <= i < self.open.entries.len() ==> self.reached(
                (#[trigger] self.open.entries[i]).position,
            ) && self.open.entries[i].cost == self.g(self.open.entries[i].position) + self.h(
                self.open.entries[i].position,
            )
        &&& forall|i: int, j: int|
            0 <= i < self.open.entries.len() && 0 <= j < self.open.entries.len() && i != j ==> (
            #[trigger] self.open.entries[i]).position != (#[trigger] self.open.entries[j]).position
    }

    /// The start is reached at cost 0.
    pub open spec fn rooted(self) -> bool {
        self.reached(self.maze.start) && self.g(self.maze.start) == 0
    }

    /// Every reached cell but the start was reached through an open wall
    /// from a closed cell one step nearer to the start; no other cell has a
    /// predecessor.
    pub open spec fn parents_agree(self) -> bool {
        forall|p: Point|
            self.contains(p) ==> if self.reached(p) && p != self.maze.start {
                &&& (#[trigger] self.parent(p)) matches Some(q)
                &&& self.maze.is_open(q, p)
                &&& self.closed(q)
                &&& self.g(p) == self.g(q) + 1
            } else {
                self.parent(p) is None
            }
    }

    /// The cost of a reached cell is even exactly when the cell lies an
    /// even number of moves from the start on the bare grid.
    pub open spec fn parity(self) -> bool {
        forall|p: Point| #[trigger]
            self.reached(p) ==> (self.g(p) + p.x + p.y + self.maze.start.x + self.maze.start.y) % 2
                == 0
    }

    /// Every closed cell was due no later than any entry of the open set.
    pub open spec fn ordered(self) -> bool {
        forall|c: Point, i: int|
            #[trigger] self.closed(c) && 0 <= i < self.open.entries.len() ==> key_before(
                self.g(c) + self.h(c),
                self.h(c),
                (#[trigger] self.open.entries[i]).cost as int,
                self.h(self.open.entries[i].position),
            )
    }

    /// Costs stay below the number of reached cells.
    pub open spec fn bounded(self) -> bool {
        forall|p: Point| #[trigger] self.reached(p) ==> self.g(p) < count(self.g_score, finite())
    }

    /// Every closed cell but the end has handed its cost on to all cells
    /// that can be stepped to from it. For the cell `expanding`, if any,
    /// this holds only of the neighbours in `done`.
    pub open spec fn relaxed_but(self, expanding: Option<Point>, done: Seq<Point>) -> bool {
        forall|c: Point, n: Point|
            self.closed(c) && c != self.maze.end && #[trigger] self.maze.is_open(c, n) && (Some(c)
                != expanding || done.contains(n)) ==> self.reached(n) && self.g(n) <= self.g(c) + 1
    }

    /// What holds of a solver that has been set up, at every moment.
    pub open spec fn sound(self) -> bool {
        &&& self.maze.wf()
        &&& self.shapes()
        &&& self.entries_agree()
        &&& self.rooted()
        &&& self.parents_agree()
        &&& self.parity()
        &&& self.ordered()
        &&& self.bounded()
    }

    /// What holds of a solver between any two steps.
    pub open spec fn wf(self) -> bool {
        &&& self.maze.wf()
        &&& if self.state == SolverState::Clear {
            self.open.entries.len() == 0 && self.g_score.len() == 0 && self.came_from.len() == 0
        } else {
            &&& self.sound()
            &&& self.relaxed_but(None, Seq::empty())
            &&& self.state == SolverState::Done ==> self.open.entries.len() == 0
        }
    }

    /// What holds while the cell `u` is being expanded and its neighbours
    /// in `done` have been dealt with.
    pub open spec fn expanding(self, u: Point, done: Seq<Point>) -> bool {
        &&& self.state == SolverState::InProgress
        &&& self.sound()
        &&& self.relaxed_but(Some(u), done)
        &&& self.closed(u)
        &&& u != self.maze.end
        &&& forall|c: Point| #[trigger]
            self.closed(c) ==> key_before(
                self.g(c) + self.h(c),
                self.h(c),
                self.g(u) + self.h(u),
                self.h(u),
            )
    }

    /// An upper bound on the number of steps that are left before the run is done.
    pub open spec fn budget(self) -> nat {
        match self.state {
            SolverState::Done => 0,
            SolverState::Clear => (2 * (self.maze.width * self.maze.height) + 1) as nat,
            _ => (2 * (self.maze.width * self.maze.height - count(self.g_score, finite()))
                + self.open.entries.len() + 1) as nat,
        }
    }

    /// A solver that has not started on the given maze.
    pub open spec fn clear(maze: MazeView) -> SolverView {
        SolverView {
            maze,
            open: OpenSetView { entries: Seq::empty(), goal: maze.end },
            came_from: Seq::empty(),
            g_score: Seq::empty(),
            state: SolverState::Clear,
        }
    }

    /// The solver once the search has been set up: only the start is
    /// reached, at cost 0, and waits in the open set.
    pub open spec fn initialized(self) -> SolverView {
        SolverView {
            open: OpenSetView {
                entries: seq![
                    CostState { cost: self.h(self.maze.start) as usize, position: self.maze.start },
                ],
                goal: self.maze.end,
            },
            g_score: with_entry(
                uniform(self.maze.width as nat, self.maze.height as nat, usize::MAX),
                self.maze.start.x as int,
                self.maze.start.y as int,
                0usize,
            ),
            came_from: uniform(
                self.maze.width as nat,
                self.maze.height as nat,
                None::<Point>,
            ),
            state: SolverState::Initialised,
            ..self
        }
    }

    /// The solver after the expanded cell `u` has looked at its neighbour
    /// `n`: if the wall between them is open and the route through `u` is
    /// shorter than what is known for `n`, the route is noted and `n`
    /// joins the open set unless it waits there already.
    pub open spec fn relaxed(self, u: Point, n: Point) -> SolverView {
        if self.maze.is_open(u, n) && self.g(u) + 1 < self.g(n) {
            SolverView {
                came_from: with_entry(self.came_from, n.x as int, n.y as int, Some(u)),
                g_score: with_entry(self.g_score, n.x as int, n.y as int, (self.g(u) + 1) as usize),
                open: if self.open.has(n) {
                    self.open
                } else {
                    OpenSetView {
                        entries: self.open.entries.push(
                            CostState { cost: (self.g(u) + 1 + self.h(n)) as usize, position: n },
                        ),
                        ..self.open
                    }
                },
                ..self
            }
        } else {
            self
        }
    }

    /// The solver after `u` has looked at the given neighbours in turn.
    pub open spec fn expanded(self, u: Point, neighbors: Seq<Point>) -> SolverView
        decreases neighbors.len(),
    {
        if neighbors.len() == 0 {
            self
        } else {
            self.expanded(u, neighbors.drop_last()).relaxed(u, neighbors.last())
        }
    }

    /// The cell that leaves the open set next.
    pub open spec fn next_up(self) -> Point {
        self.open.entries[lowest(self.open.entries, self.open.goal)].position
    }

    /// The solver after the cell that is due has left the open set.
    pub open spec fn popped(self) -> SolverView {
        SolverView {
            state: SolverState::InProgress,
            open: OpenSetView {
                entries: self.open.entries.remove(lowest(self.open.entries, self.open.goal)),
                ..self.open
            },
            ..self
        }
    }

    /// The solver after one whole step: set up if need be; done if the open
    /// set is empty; otherwise the cell that is due leaves the open set
    /// and, unless it is the end, is expanded.
    pub open spec fn stepped(self) -> SolverView {
        let ready = if self.state == SolverState::Clear {
            self.initialized()
        } else {
            self
        };
        if ready.open.entries.len() == 0 {
            SolverView { state: SolverState::Done, ..ready }
        } else if ready.next_up() == ready.maze.end {
            ready.popped()
        } else {
            ready.popped().expanded(
                ready.next_up(),
                ready.next_up().spec_neighbors(ready.maze.width, ready.maze.height),
            )
        }
    }

    /// The solver after the given number of steps.
    pub open spec fn after(self, steps: nat) -> SolverView
        decreases steps,
    {
        if steps == 0 {
            self
        } else {
            self.after((steps - 1) as nat).stepped()
        }
    }

    /// A run of `steps` steps does not stop early: before each step the
    /// solver is not done, and no step but the last hands out a route.
    pub open spec fn keeps_going(self, steps: nat) -> bool {
        forall|k: nat|
            k < steps ==> (#[trigger] self.after(k)).state != SolverState::Done && (k + 1 < steps
                ==> !self.after(k).finds())
    }

    /// Whether the coming step hands out a route: it does when the end is
    /// the cell that is due.
    pub open spec fn finds(self) -> bool {
        let ready = if self.state == SolverState::Clear {
            self.initialized()
        } else {
            self
        };
        ready.open.entries.len() > 0 && ready.next_up() == ready.maze.end
    }

    /// The cells through which `p` was reached, start first and `p` last,
    /// following at most `steps` predecessors.
    pub open spec fn trail(self, p: Point, steps: nat) -> Seq<Point>
        decreases steps,
    {
        if steps == 0 {
            seq![p]
        } else {
            match self.parent(p) {
                Some(q) => self.trail(q, (steps - 1) as nat).push(p),
                None => seq![p],
            }
        }
    }
}

/// The same cells in the opposite order.
fn reversed(cells: Vec<Point>) -> (turned: Vec<Point>)
    ensures
        turned@ == cells@.reverse(),
{
    let mut turned: Vec<Point> = Vec::new();
    let mut left: usize = cells.len();
    while left > 0
        invariant
            left <= cells.len(),
            turned@.len() == cells.len() - left,
            forall|i: int| 0 <= i < turned@.len() ==> turned@[i] == cells@[cells.len() - 1 - i],
        decreases left,
    {
        left -= 1;
        turned.push(cells[left]);
    }
    assert(turned@ =~= cells@.reverse());
    turned
}

/// An A* search for a shortest route from the start of a maze to its end,
/// which can be driven one step at a time.
pub struct AStarSolver {
    maze: Maze,
    open_set: OpenSet,
    came_from: Vec<Vec<Option<Point>>>,
    g_score: Vec<Vec<usize>>,
    state: SolverState,
}

impl View for AStarSolver {
    type V = SolverView;

    closed spec fn view(&self) -> SolverView {
        SolverView {
            maze: self.maze@,
            open: self.open_set@,
            came_from: table_view(self.came_from),
            g_score: table_view(self.g_score),
            state: self.state,
        }
    }
}

impl AStarSolver {
    /// Shorthand for `self@.wf()`.
    pub open spec fn wf(&self) -> bool {
        self@.wf()
    }

    /// The estimate of what is left from `node` to the end.
    fn heuristic(&self, node: Point) -> (estimate: usize)
        requires
            self@.maze.wf(),
            self@.contains(node),
        ensures
            estimate == self@.h(node),
    {
        proof {
            self@.lemma_estimate(node, node);
        }
        node.get_distance(&self.maze.get_end())
    }

    /// A solver for the given maze, not started yet.
    pub fn new(maze: Maze) -> (solver: Self)
        requires
            maze.wf(),
        ensures
            solver@ == SolverView::clear(maze@),
            solver.wf(),
    {
        let open_set = OpenSet::new(maze.get_end());
        let solver = Self {
            maze,
            open_set,
            came_from: Vec::new(),
            g_score: Vec::new(),
            state: SolverState::Clear,
        };
        assert(solver@.came_from =~= Seq::empty());
        assert(solver@.g_score =~= Seq::empty());
        solver
    }

    /// Takes a new maze and forgets all that was found out about the old one.
    pub fn set_maze(&mut self, maze: Maze)
        requires
            maze.wf(),
        ensures
            final(self)@ == SolverView::clear(maze@),
            final(self).wf(),
    {
        self.open_set = OpenSet::new(maze.get_end());
        self.maze = maze;
        self.came_from = Vec::new();
        self.g_score = Vec::new();
        self.state = SolverState::Clear;
        assert(self@.came_from =~= Seq::empty());
        assert(self@.g_score =~= Seq::empty());
    }

    /// Forgets all that the search has done; the maze stays.
    pub fn restart(&mut self)
        requires
            old(self).wf(),
        ensures
            final(self)@ == SolverView::clear(old(self)@.maze),
            final(self).wf(),
    {
        self.open_set = OpenSet::new(self.maze.get_end());
        self.came_from = Vec::new();
        self.g_score = Vec::new();
        self.state = SolverState::Clear;
        assert(self@.came_from =~= Seq::empty());
        assert(self@.g_score =~= Seq::empty());
    }

    /// Whether the run is over: the open set ran empty.
    pub fn is_done(&self) -> (done: bool)
        ensures
            done == (self@.state == SolverState::Done),
    {
        self.state == SolverState::Done
    }

    /// Sets the search up: the start is reached at cost 0 and waits in the
    /// open set. Only a solver that has not started can be set up.
    pub fn initialize(&mut self) -> (outcome: Result<(), MazeError>)
        requires
            old(self).wf(),
        ensures
            final(self).wf(),
            old(self)@.state == SolverState::Clear ==> outcome is Ok && final(self)@ == old(
                self,
            )@.initialized(),
            old(self)@.state != SolverState::Clear ==> outcome == Err::<(), MazeError>(
                MazeError::AlreadyInitialized,
            ) && final(self)@ == old(self)@,
    {
        if self.state != SolverState::Clear {
            return Err(MazeError::AlreadyInitialized);
        }
        let ghost before = self@;
        proof {
            before.lemma_initialized();
            lemma_count_uniform(
                before.maze.width as nat,
                before.maze.height as nat,
                usize::MAX,
                finite(),
            );
        }
        let start = self.maze.get_start();
        let estimate = self.heuristic(start);
        self.open_set = OpenSet::new(self.maze.get_end());
        self.open_set.push(CostState::new(estimate, start));
        self.g_score = filled(self.maze.get_width(), self.maze.get_height(), usize::MAX);
        assert(table_view(self.g_score)[start.x as int] == self.g_score@[start.x as int]@);
        set_entry(&mut self.g_score, start.x, start.y, 0);
        self.came_from = filled(self.maze.get_width(), self.maze.get_height(), None);
        self.state = SolverState::Initialised;
        assert(self@.open.entries =~= before.initialized().open.entries);
        Ok(())
    }

    /// The length of the best known route to each cell: entry `[x][y]` is
    /// for the cell in column `x`, row `y`, and is `usize::MAX` while no
    /// route to it is known. The table is empty before the search is set up.
    pub fn get_current_cost_map(&self) -> (costs: &Vec<Vec<usize>>)
        ensures
            table_view(*costs) == self@.g_score,
    {
        &self.g_score
    }

    /// The length of the best known route to `p`.
    fn cost_of(&self, p: Point) -> (cost: usize)
        requires
            self@.shapes(),
            self@.contains(p),
        ensures
            cost == self@.g(p),
    {
        assert(table_view(self.g_score)[p.x as int] == self.g_score@[p.x as int]@);
        self.g_score[p.x][p.y]
    }

    /// The cell from which `p` was reached.
    fn parent_of(&self, p: Point) -> (parent: Option<Point>)
        requires
            self@.shapes(),
            self@.contains(p),
        ensures
            parent == self@.parent(p),
    {
        assert(table_view(self.came_from)[p.x as int] == self.came_from@[p.x as int]@);
        self.came_from[p.x][p.y]
    }

    /// Lets the expanded cell `u` look at its neighbour `n`.
    fn relax(&mut self, u: Point, n: Point)
        requires
            old(self)@.maze.wf(),
            old(self)@.shapes(),
            old(self)@.contains(u),
            old(self)@.contains(n),
            old(self)@.g(u) + 1 + old(self)@.h(n) <= usize::MAX,
        ensures
            final(self)@ == old(self)@.relaxed(u, n),
    {
        if self.maze.is_open(u, n) {
            let tentative_gscore = self.cost_of(u) + 1;
            if tentative_gscore < self.cost_of(n) {
                assert(table_view(self.came_from)[n.x as int] == self.came_from@[n.x as int]@);
                assert(table_view(self.g_score)[n.x as int] == self.g_score@[n.x as int]@);
                set_entry(&mut self.came_from, n.x, n.y, Some(u));
                set_entry(&mut self.g_score, n.x, n.y, tentative_gscore);
                if !self.open_set.contains(&n) {
                    let estimate = self.heuristic(n);
                    self.open_set.push(CostState::new(tentative_gscore + estimate, n));
                }
            }
        }
    }

    /// The cells through which `node` was reached, from the start to `node`.
    fn reconstruct_path(&self, node: &Point) -> (path: Path)
        requires
            self@.sound(),
            self@.reached(*node),
        ensures
            path@ == self@.trail(*node, self@.g(*node) as nat),
    {
        let ghost whole = self@.trail(*node, self@.g(*node) as nat);
        let mut path: Vec<Point> = Vec::new();
        path.push(*node);
        let mut current = *node;
        let mut previous = self.parent_of(current);
        assert(path@.reverse().skip(1) =~= Seq::<Point>::empty());
        assert(whole + Seq::<Point>::empty() =~= whole);
        while previous.is_some()
            invariant
                self@.sound(),
                self@.reached(current),
                previous == self@.parent(current),
                path@.len() > 0,
                path@.last() == current,
                whole == self@.trail(current, self@.g(current) as nat) + path@.reverse().skip(1),
            decreases self@.g(current),
        {
            let ghost earlier = path@;
            let ghost cell = current;
            let next = previous.unwrap();
            proof {
                assert(self@.closed(next));
                assert(self@.trail(cell, self@.g(cell) as nat) == self@.trail(
                    next,
                    self@.g(next) as nat,
                ).push(cell));
            }
            current = next;
            path.push(current);
            previous = self.parent_of(current);
            proof {
                assert(path@.reverse().skip(1) =~= earlier.reverse());
                assert(earlier.reverse() =~= seq![cell] + earlier.reverse().skip(1));
                assert(self@.trail(next, self@.g(next) as nat).push(cell) + earlier.reverse().skip(1)
                    =~= self@.trail(next, self@.g(next) as nat) + earlier.reverse());
            }
        }
        proof {
            assert(current == self@.maze.start);
            assert(self@.trail(current, 0) =~= seq![current]);
            assert(seq![current] + path@.reverse().skip(1) =~= path@.reverse());
        }
        reversed(path)
    }

    /// One step of the search. Sets up if need be. If the open set is
    /// empty the run is done. Otherwise the cell that is due leaves the
    /// open set; if it is the end, the route to it is handed out, and if
    /// not, the cell passes its cost on to its neighbours behind open walls.
    pub fn next_step(&mut self) -> (found: Option<Path>)
        requires
            old(self).wf(),
        ensures
            final(self).wf(),
            final(self)@ == old(self)@.stepped(),
            final(self)@.maze == old(self)@.maze,
            found is Some <==> old(self)@.finds(),
            found is Some ==> !old(self)@.found(),
            final(self)@.found() == (old(self)@.found() || found is Some),
            found matches Some(path) ==> path@ == final(self)@.trail(
                final(self)@.maze.end,
                final(self)@.g(final(self)@.maze.end) as nat,
            ) && final(self)@.maze.is_shortest(path@, final(self)@.maze.start, final(self)@.maze.end),
            old(self)@.state == SolverState::Done ==> final(self)@ == old(self)@,
            old(self)@.state != SolverState::Done ==> final(self)@.budget() < old(self)@.budget(),
    {
        proof {
            self@.lemma_stepped();
        }
        if self.state == SolverState::Clear {
            let _ = self.initialize();
        }
        let ghost ready = self@;
        self.state = SolverState::InProgress;
        if self.open_set.is_empty() {
            self.state = SolverState::Done;
            return None;
        }
        let goal = self.maze.get_end();
        proof {
            ready.lemma_popped();
        }
        let current = match self.open_set.pop() {
            Some(current) => current,
            None => { return None; },
        };
        let u = current.position;
        assert(self@ == ready.popped());
        if u == goal {
            return Some(self.reconstruct_path(&u));
        }
        self.expand(u);
        None
    }

    /// Lets the cell `u` pass its cost on to its neighbours.
    fn expand(&mut self, u: Point)
        requires
            old(self)@.maze.wf(),
            old(self)@.shapes(),
            old(self)@.contains(u),
            old(self)@.g(u) + old(self)@.maze.width + old(self)@.maze.height <= usize::MAX,
        ensures
            final(self)@ == old(self)@.expanded(
                u,
                u.spec_neighbors(old(self)@.maze.width, old(self)@.maze.height),
            ),
    {
        let ghost before = self@;
        let neighbors = u.get_neighbors(self.maze.get_width(), self.maze.get_height());
        let mut i: usize = 0;
        proof {
            u.lemma_neighbors(before.maze.width, before.maze.height);
            assert(neighbors@.take(0) =~= Seq::<Point>::empty());
        }
        while i < neighbors.len()
            invariant
                i <= neighbors.len(),
                neighbors@ == u.spec_neighbors(before.maze.width, before.maze.height),
                forall|q: Point| neighbors@.contains(q) ==> before.contains(q),
                before.maze.wf(),
                before.contains(u),
                before.g(u) + before.maze.width + before.maze.height <= usize::MAX,
                self@.maze == before.maze,
                self@.shapes(),
                self@.g(u) == before.g(u),
                self@ == before.expanded(u, neighbors@.take(i as int)),
            decreases neighbors.len() - i,
        {
            let neighbor = neighbors[i];
            proof {
                assert(neighbors@.contains(neighbor));
                self@.lemma_relaxed_shape(u, neighbor);
                self@.lemma_estimate(neighbor, neighbor);
                assert(neighbors@.take(i + 1).drop_last() =~= neighbors@.take(i as int));
            }
            self.relax(u, neighbor);
            i += 1;
        }
        assert(neighbors@.take(i as int) =~= neighbors@);
    }

    /// Runs the search until a step hands out a route or the run is done.
    /// On a solver that has not handed out a route before, a route comes
    /// back exactly when the end can be reached from the start, and no walk
    /// from the start to the end is shorter than it.
    pub fn solve(&mut self) -> (found: Option<Path>)
        requires
            old(self).wf(),
        ensures
            final(self).wf(),
            final(self)@.maze == old(self)@.maze,
            exists|steps: nat|
                old(self)@.keeps_going(steps) && final(self)@ == old(self)@.after(steps) && (
                found is Some <==> steps > 0 && old(self)@.after((steps - 1) as nat).finds()),
            old(self)@.found() ==> found is None,
            !old(self)@.found() ==> (found is Some <==> old(self)@.maze.connected(
                old(self)@.maze.start,
                old(self)@.maze.end,
            )),
            found matches Some(path) ==> final(self)@.found() && path@ == final(self)@.trail(
                final(self)@.maze.end,
                final(self)@.g(final(self)@.maze.end) as nat,
            ) && final(self)@.maze.is_shortest(path@, final(self)@.maze.start, final(self)@.maze.end),
            found is None ==> final(self)@.state == SolverState::Done,
    {
        let ghost before = self@;
        let ghost mut steps: nat = 0;
        while self.state != SolverState::Done
            invariant
                before == old(self)@,
                self.wf(),
                self@.maze == before.maze,
                self@.found() == before.found(),
                self@ == before.after(steps),
                forall|k: nat|
                    k < steps ==> (#[trigger] before.after(k)).state != SolverState::Done
                        && !before.after(k).finds(),
            decreases self@.budget(),
        {
            let outcome = self.next_step();
            proof {
                steps = steps + 1;
                assert(before.after(steps) == before.after((steps - 1) as nat).stepped());
            }
            if let Some(path) = outcome {
                assert(before.keeps_going(steps));
                assert(before.after((steps - 1) as nat).finds());
                return Some(path);
            }
        }
        proof {
            if !self@.found() {
                self@.lemma_exhausted();
            }
            assert(before.keeps_going(steps));
        }
        None
    }
}

} // verus!
