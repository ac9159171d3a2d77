//! The grid: points, directions, cells with their walls, and the maze itself.

use vstd::prelude::*;
use crate::grid::{count, duplicate, has_shape, lemma_with_entry, table_view, with_entry};

verus! {

/// What can go wrong when building or querying a maze.
#[derive(Debug, Clone, Copy, PartialEq, Eq, Structural)]
pub enum MazeError {
    /// A maze needs at least one column and one row, and a number of cells
    /// that can be counted.
    InvalidDimension,
    /// No direction leads from a point to itself.
    SamePoint,
    /// A run that has been set up cannot be set up again before a restart.
    AlreadyInitialized,
}

/// One of the four sides of a cell. North is towards smaller `y`, west towards smaller `x`.
#[derive(Hash, Eq, PartialEq, Debug, Clone, Copy, Structural)]
pub enum Direction {
    North,
    South,
    East,
    West,
}

impl Direction {
    /// The side facing this one.
    pub open spec fn spec_opposite(&self) -> Direction {
        match *self {
            Direction::North => Direction::South,
            Direction::South => Direction::North,
            Direction::East => Direction::West,
            Direction::West => Direction::East,
        }
    }

    /// The side facing this one.
    #[verifier::when_used_as_spec(spec_opposite)]
    pub fn opposite(&self) -> (facing: Self)
        ensures
            facing == self.spec_opposite(),
    {
        match self {
            Direction::North => Direction::South,
            Direction::South => Direction::North,
            Direction::East => Direction::West,
            Direction::West => Direction::East,
        }
    }

    /// Turning around twice faces the same side again; turning around once never does.
    pub proof fn lemma_opposite_involution(d: Direction)
        ensures
            d.opposite().opposite() == d,
            d.opposite() != d,
    {
    }
}

/// A grid coordinate: column `x`, row `y`.
#[derive(Hash, Eq, PartialEq, Clone, Copy, Debug, Structural)]
pub struct Point {
    pub x: usize,
    pub y: usize,
}

impl From<(usize, usize)> for Point {
    fn from(pair: (usize, usize)) -> (p: Point) {
        Point { x: pair.0, y: pair.1 }
    }
}

impl vstd::std_specs::convert::FromSpecImpl<(usize, usize)> for Point {
    open spec fn obeys_from_spec() -> bool {
        true
    }

    open spec fn from_spec(pair: (usize, usize)) -> Point {
        Point { x: pair.0, y: pair.1 }
    }
}

/// Points add coordinate by coordinate.
impl std::ops::Add for Point {
    type Output = Point;

    fn add(self, other: Point) -> (sum: Point) {
        Point { x: self.x + other.x, y: self.y + other.y }
    }
}

impl vstd::std_specs::ops::AddSpecImpl for Point {
    open spec fn obeys_add_spec() -> bool {
        true
    }

    open spec fn add_req(self, other: Point) -> bool {
        self.x + other.x <= usize::MAX && self.y + other.y <= usize::MAX
    }

    open spec fn add_spec(self, other: Point) -> Point {
        Point { x: (self.x + other.x) as usize, y: (self.y + other.y) as usize }
    }
}

/// Points subtract coordinate by coordinate; neither coordinate may fall below zero.
impl std::ops::Sub for Point {
    type Output = Point;

    fn sub(self, other: Point) -> (difference: Point) {
        Point { x: self.x - other.x, y: self.y - other.y }
    }
}

impl vstd::std_specs::ops::SubSpecImpl for Point {
    open spec fn obeys_sub_spec() -> bool {
        true
    }

    open spec fn sub_req(self, other: Point) -> bool {
        self.x >= other.x && self.y >= other.y
    }

    open spec fn sub_spec(self, other: Point) -> Point {
        Point { x: (self.x - other.x) as usize, y: (self.y - other.y) as usize }
    }
}

impl Point {
    /// Whether the point lies in the rectangle `[0, x_limit) x [0, y_limit)`.
    pub open spec fn within(self, x_limit: usize, y_limit: usize) -> bool {
        self.x < x_limit && self.y < y_limit
    }

    /// The number of unit moves between two points (Manhattan distance).
    pub open spec fn manhattan(self, other: Point) -> nat {
        let dx = if self.x >= other.x { self.x - other.x } else { other.x - self.x };
        let dy = if self.y >= other.y { self.y - other.y } else { other.y - self.y };
        (dx + dy) as nat
    }

    /// Two points are adjacent when they are one unit move apart.
    pub open spec fn adjacent(self, other: Point) -> bool {
        self.manhattan(other) == 1
    }

    /// The side of `self` that looks towards `other`: east or west if the
    /// columns differ, otherwise south or north.
    pub open spec fn direction_to(self, other: Point) -> Direction {
        if other.x > self.x {
            Direction::East
        } else if other.x < self.x {
            Direction::West
        } else if other.y > self.y {
            Direction::South
        } else {
            Direction::North
        }
    }

    /// The neighbours of `self` inside `[0, x_limit) x [0, y_limit)`, in the
    /// order west, east, south, north.
    pub open spec fn spec_neighbors(self, x_limit: usize, y_limit: usize) -> Seq<Point> {
        let west = if 0 < self.x <= x_limit && self.y < y_limit {
            seq![Point { x: (self.x - 1) as usize, y: self.y }]
        } else {
            seq![]
        };
        let east = if self.x + 1 < x_limit && self.y < y_limit {
            seq![Point { x: (self.x + 1) as usize, y: self.y }]
        } else {
            seq![]
        };
        let south = if self.x < x_limit && self.y + 1 < y_limit {
            seq![Point { x: self.x, y: (self.y + 1) as usize }]
        } else {
            seq![]
        };
        let north = if self.x < x_limit && 0 < self.y <= y_limit {
            seq![Point { x: self.x, y: (self.y - 1) as usize }]
        } else {
            seq![]
        };
        west + east + south + north
    }

    /// The Manhattan distance to `other`.
    pub fn get_distance(&self, other: &Point) -> (d: usize)
        requires
            self.manhattan(*other) <= usize::MAX,
        ensures
            d == self.manhattan(*other),
    {
        let dx: usize = if self.x >= other.x { self.x - other.x } else { other.x - self.x };
        let dy: usize = if self.y >= other.y { self.y - other.y } else { other.y - self.y };
        dx + dy
    }

    /// The Manhattan distance to `other`, in a type wide enough for any two points.
    pub fn distance_wide(&self, other: &Point) -> (d: u128)
        ensures
            d == self.manhattan(*other),
    {
        let dx: usize = if self.x >= other.x { self.x - other.x } else { other.x - self.x };
        let dy: usize = if self.y >= other.y { self.y - other.y } else { other.y - self.y };
        dx as u128 + dy as u128
    }

    /// Whether `other` is one unit move away.
    pub fn is_adjacent(&self, other: &Point) -> (next_to: bool)
        ensures
            next_to == self.adjacent(*other),
    {
        let dx: usize = if self.x >= other.x { self.x - other.x } else { other.x - self.x };
        let dy: usize = if self.y >= other.y { self.y - other.y } else { other.y - self.y };
        (dx == 1 && dy == 0) || (dx == 0 && dy == 1)
    }

    /// The in-bounds neighbours of `self`, west first, then east, south, north.
    pub fn get_neighbors(&self, x_limit: usize, y_limit: usize) -> (neighbors: Vec<Point>)
        ensures
            neighbors@ == self.spec_neighbors(x_limit, y_limit),
    {
        let mut neighbors: Vec<Point> = Vec::new();
        if 0 < self.x && self.x <= x_limit && self.y < y_limit {
            neighbors.push(Point { x: self.x - 1, y: self.y });
        }
        if x_limit > 0 && self.x < x_limit - 1 && self.y < y_limit {
            neighbors.push(Point { x: self.x + 1, y: self.y });
        }
        if self.x < x_limit && y_limit > 0 && self.y < y_limit - 1 {
            neighbors.push(Point { x: self.x, y: self.y + 1 });
        }
        if self.x < x_limit && 0 < self.y && self.y <= y_limit {
            neighbors.push(Point { x: self.x, y: self.y - 1 });
        }
        neighbors
    }

    /// The side of `self` that looks towards `other`; there is none when the
    /// two are the same point.
    pub fn get_relative_direction(&self, other: &Point) -> (direction: Result<Direction, MazeError>)
        ensures
            *self == *other ==> direction == Err::<Direction, MazeError>(MazeError::SamePoint),
            *self != *other ==> direction == Ok::<Direction, MazeError>(self.direction_to(*other)),
    {
        if other.x > self.x {
            Ok(Direction::East)
        } else if other.x < self.x {
            Ok(Direction::West)
        } else if other.y > self.y {
            Ok(Direction::South)
        } else if other.y < self.y {
            Ok(Direction::North)
        } else {
            Err(MazeError::SamePoint)
        }
    }
}

/// The walls that stand around one cell, one flag per side.
#[derive(Clone, Copy, Debug, PartialEq, Eq, Structural)]
pub struct WallSet {
    pub north: bool,
    pub south: bool,
    pub east: bool,
    pub west: bool,
}

impl View for WallSet {
    type V = Set<Direction>;

    /// The set of sides on which a wall stands.
    open spec fn view(&self) -> Set<Direction> {
        Set::new(|d: Direction| self.has(d))
    }
}

impl WallSet {
    /// Whether a wall stands on side `d`.
    pub open spec fn has(&self, d: Direction) -> bool {
        match d {
            Direction::North => self.north,
            Direction::South => self.south,
            Direction::East => self.east,
            Direction::West => self.west,
        }
    }

    /// The same walls but for the one on side `d`.
    pub open spec fn without(self, d: Direction) -> WallSet {
        match d {
            Direction::North => WallSet { north: false, ..self },
            Direction::South => WallSet { south: false, ..self },
            Direction::East => WallSet { east: false, ..self },
            Direction::West => WallSet { west: false, ..self },
        }
    }

    /// The same walls and one on side `d`.
    pub open spec fn with(self, d: Direction) -> WallSet {
        match d {
            Direction::North => WallSet { north: true, ..self },
            Direction::South => WallSet { south: true, ..self },
            Direction::East => WallSet { east: true, ..self },
            Direction::West => WallSet { west: true, ..self },
        }
    }

    /// No wall at all.
    pub fn new() -> (walls: WallSet)
        ensures
            walls == (WallSet { north: false, south: false, east: false, west: false }),
            walls@ == Set::<Direction>::empty(),
    {
        let walls = WallSet { north: false, south: false, east: false, west: false };
        assert(walls@ =~= Set::<Direction>::empty());
        walls
    }

    /// A wall on every side.
    pub fn all() -> (walls: WallSet)
        ensures
            walls == (WallSet { north: true, south: true, east: true, west: true }),
            walls@ == Set::<Direction>::full(),
    {
        let walls = WallSet { north: true, south: true, east: true, west: true };
        assert(walls@ =~= Set::<Direction>::full());
        walls
    }

    /// Whether a wall stands on the given side.
    pub fn contains(&self, direction: &Direction) -> (present: bool)
        ensures
            present == self@.contains(*direction),
    {
        match direction {
            Direction::North => self.north,
            Direction::South => self.south,
            Direction::East => self.east,
            Direction::West => self.west,
        }
    }

    /// Puts a wall on the given side; tells whether there was none before.
    pub fn insert(&mut self, direction: Direction) -> (added: bool)
        ensures
            *final(self) == old(self).with(direction),
            final(self)@ == old(self)@.insert(direction),
            added == !old(self)@.contains(direction),
    {
        let ghost before = *self;
        let present = self.contains(&direction);
        match direction {
            Direction::North => { self.north = true; },
            Direction::South => { self.south = true; },
            Direction::East => { self.east = true; },
            Direction::West => { self.west = true; },
        }
        assert(self@ =~= before@.insert(direction));
        !present
    }

    /// Takes the wall on the given side away; tells whether there was one.
    pub fn remove(&mut self, direction: &Direction) -> (removed: bool)
        ensures
            *final(self) == old(self).without(*direction),
            final(self)@ == old(self)@.remove(*direction),
            removed == old(self)@.contains(*direction),
    {
        let ghost before = *self;
        let present = self.contains(direction);
        match direction {
            Direction::North => { self.north = false; },
            Direction::South => { self.south = false; },
            Direction::East => { self.east = false; },
            Direction::West => { self.west = false; },
        }
        assert(self@ =~= before@.remove(*direction));
        present
    }

    /// The sides that carry a wall, in the order north, south, east, west.
    pub open spec fn spec_directions(self) -> Seq<Direction> {
        let north = if self.north {
            seq![Direction::North]
        } else {
            seq![]
        };
        let south = if self.south {
            seq![Direction::South]
        } else {
            seq![]
        };
        let east = if self.east {
            seq![Direction::East]
        } else {
            seq![]
        };
        let west = if self.west {
            seq![Direction::West]
        } else {
            seq![]
        };
        north + south + east + west
    }

    /// The listed sides are the sides that carry a wall, each listed once.
    pub proof fn lemma_directions(self)
        ensures
            self.spec_directions().no_duplicates(),
            forall|d: Direction| self.spec_directions().contains(d) <==> self@.contains(d),
    {
        let sides = self.spec_directions();
        assert forall|d: Direction| self@.contains(d) implies sides.contains(d) by {
            let n: int = if self.north { 1 } else { 0 };
            let s: int = if self.south { 1 } else { 0 };
            let e: int = if self.east { 1 } else { 0 };
            let i: int = match d {
                Direction::North => 0,
                Direction::South => n,
                Direction::East => n + s,
                Direction::West => n + s + e,
            };
            assert(sides[i] == d);
        }
    }

    /// The sides that carry a wall, in the order north, south, east, west.
    pub fn directions(&self) -> (sides: Vec<Direction>)
        ensures
            sides@ == self.spec_directions(),
    {
        let mut sides: Vec<Direction> = Vec::new();
        if self.north {
            sides.push(Direction::North);
        }
        if self.south {
            sides.push(Direction::South);
        }
        if self.east {
            sides.push(Direction::East);
        }
        if self.west {
            sides.push(Direction::West);
        }
        assert(sides@ =~= self.spec_directions());
        sides
    }
}

/// One grid position together with the walls around it.
#[derive(Clone, Copy, Debug)]
pub struct Cell {
    pub position: Point,
    pub walls: WallSet,
}

impl Cell {
    /// Whether a wall stands on side `d` of the cell.
    pub open spec fn has_wall(&self, d: Direction) -> bool {
        self.walls.has(d)
    }

    /// A cell at `(x, y)` with all four walls standing.
    pub fn new(x: usize, y: usize) -> (cell: Self)
        ensures
            cell.position == (Point { x, y }),
            cell.walls == (WallSet { north: true, south: true, east: true, west: true }),
    {
        Self { position: Point { x, y }, walls: WallSet::all() }
    }

    /// The walls of the cell.
    pub fn get_walls(&self) -> (walls: &WallSet)
        ensures
            *walls == self.walls,
    {
        &self.walls
    }

    /// Takes the wall on the given side away, if it stands.
    pub fn remove_wall(&mut self, direction: &Direction)
        ensures
            *final(self) == (Cell { walls: old(self).walls.without(*direction), ..*old(self) }),
    {
        self.walls.remove(direction);
    }

    /// Puts a wall on the given side, if none stands there.
    pub fn add_wall(&mut self, direction: Direction)
        ensures
            *final(self) == (Cell { walls: old(self).walls.with(direction), ..*old(self) }),
    {
        self.walls.insert(direction);
    }

    /// The walls of the cell, open to any change.
    pub fn get_walls_mut(&mut self) -> (walls: &mut WallSet)
        ensures
            *walls == old(self).walls,
            final(self).position == old(self).position,
            final(self).walls == *final(walls),
    {
        &mut self.walls
    }
}

/// The predicate "the east wall is gone", for counting.
pub open spec fn east_open() -> spec_fn(Cell) -> bool {
    |cell: Cell| !cell.walls.east
}

/// The predicate "the south wall is gone", for counting.
pub open spec fn south_open() -> spec_fn(Cell) -> bool {
    |cell: Cell| !cell.walls.south
}

/// What a maze is, as a mathematical value: its size, the table of its
/// cells (`cells[x][y]` is the cell in column `x`, row `y`) and the two
/// marked points.
pub struct MazeView {
    pub width: usize,
    pub height: usize,
    pub cells: Seq<Seq<Cell>>,
    pub start: Point,
    pub end: Point,
}

impl MazeView {
    /// Whether `p` is a position of the maze.
    pub open spec fn contains(self, p: Point) -> bool {
        p.x < self.width && p.y < self.height
    }

    /// The cell at position `p`.
    pub open spec fn cell(self, p: Point) -> Cell {
        self.cells[p.x as int][p.y as int]
    }

    /// A size is countable when the number of cells, with the width and
    /// the height added, is a `usize`: then the length of any route and any
    /// estimate on top of it is one too.
    pub open spec fn countable(width: usize, height: usize) -> bool {
        width * height + width + height <= usize::MAX
    }

    /// The table of cells has the size that the maze says it has.
    pub open spec fn shaped(self) -> bool {
        has_shape(self.cells, self.width as nat, self.height as nat)
    }

    /// A maze is well formed when it has at least one cell and a countable
    /// size, its table has that size, every cell knows its own position,
    /// and start and end lie inside.
    pub open spec fn wf(self) -> bool {
        &&& self.width > 0
        &&& self.height > 0
        &&& Self::countable(self.width, self.height)
        &&& self.shaped()
        &&& forall|p: Point| self.contains(p) ==> (#[trigger] self.cell(p)).position == p
        &&& self.contains(self.start)
        &&& self.contains(self.end)
    }

    /// The fully walled maze of the given size, with start in the first
    /// corner and end in the opposite one.
    pub open spec fn blank(width: usize, height: usize) -> MazeView {
        MazeView {
            width,
            height,
            cells: Seq::new(
                width as nat,
                |x: int|
                    Seq::new(
                        height as nat,
                        |y: int|
                            Cell {
                                position: Point { x: x as usize, y: y as usize },
                                walls: WallSet { north: true, south: true, east: true, west: true },
                            },
                    ),
            ),
            start: Point { x: 0, y: 0 },
            end: Point { x: (width - 1) as usize, y: (height - 1) as usize },
        }
    }

    /// The maze with the cell at `p` replaced by `cell`.
    pub open spec fn with_cell(self, p: Point, cell: Cell) -> MazeView {
        MazeView { cells: with_entry(self.cells, p.x as int, p.y as int, cell), ..self }
    }

    /// One can step from `a` to `b`: both lie in the maze, they are adjacent,
    /// and neither has a wall on the side that faces the other.
    pub open spec fn is_open(self, a: Point, b: Point) -> bool {
        &&& self.contains(a)
        &&& self.contains(b)
        &&& a.adjacent(b)
        &&& !self.cell(a).has_wall(a.direction_to(b))
        &&& !self.cell(b).has_wall(b.direction_to(a))
    }

    /// The wall around the whole maze stands: no cell on the rim lacks the
    /// wall on its outer side.
    pub open spec fn enclosed(self) -> bool {
        forall|p: Point|
            self.contains(p) ==> {
                &&& p.x == 0 ==> (#[trigger] self.cell(p)).walls.west
                &&& p.x + 1 == self.width ==> self.cell(p).walls.east
                &&& p.y == 0 ==> self.cell(p).walls.north
                &&& p.y + 1 == self.height ==> self.cell(p).walls.south
            }
    }

    /// The number of cells without east wall plus the number of cells
    /// without south wall. In an enclosed maze with symmetric walls this is
    /// the number of pairs of neighbours between which one can step: each
    /// pair is counted at its western or northern cell.
    pub open spec fn passages(self) -> nat {
        count(self.cells, east_open()) + count(self.cells, south_open())
    }

    /// Between any two adjacent cells the wall stands on both sides or on neither.
    pub open spec fn walls_symmetric(self) -> bool {
        forall|a: Point, b: Point|
            self.contains(a) && self.contains(b) && #[trigger] a.adjacent(b) ==> (self.cell(
                a,
            ).has_wall(a.direction_to(b)) <==> self.cell(b).has_wall(b.direction_to(a)))
    }
}

/// A rectangular maze: `width x height` cells, a start and an end.
pub struct Maze {
    pub width: usize,
    pub height: usize,
    cells: Vec<Vec<Cell>>,
    start: Point,
    end: Point,
}

impl View for Maze {
    type V = MazeView;

    closed spec fn view(&self) -> MazeView {
        MazeView {
            width: self.width,
            height: self.height,
            cells: table_view(self.cells),
            start: self.start,
            end: self.end,
        }
    }
}

impl Clone for Maze {
    fn clone(&self) -> (copy: Self)
        ensures
            copy@ == self@,
    {
        let cells = duplicate(&self.cells);
        Maze { width: self.width, height: self.height, cells, start: self.start, end: self.end }
    }
}

impl Maze {
    /// Shorthand for `self@.wf()`.
    pub open spec fn wf(&self) -> bool {
        self@.wf()
    }

    /// Whether a maze of the given size can be made: it has at least one
    /// column and one row, and its size is countable.
    pub open spec fn valid_size(width: usize, height: usize) -> bool {
        width > 0 && height > 0 && MazeView::countable(width, height)
    }

    /// Whether a maze of the given size can be made.
    pub fn is_valid_size(width: usize, height: usize) -> (valid: bool)
        ensures
            valid == Self::valid_size(width, height),
    {
        if width == 0 || height == 0 {
            return false;
        }
        match width.checked_mul(height) {
            Some(cells) => match cells.checked_add(width) {
                Some(more) => more.checked_add(height).is_some(),
                None => false,
            },
            None => false,
        }
    }

    /// A fully walled maze of the given size, with the start in the first
    /// corner and the end in the opposite one. A maze without columns or
    /// without rows is refused, and so is one too large to count its cells.
    pub fn new(width: usize, height: usize) -> (made: Result<Self, MazeError>)
        ensures
            !Self::valid_size(width, height) ==> made == Err::<Self, MazeError>(
                MazeError::InvalidDimension,
            ),
            Self::valid_size(width, height) ==> made is Ok && made->Ok_0@ == MazeView::blank(
                width,
                height,
            ) && made->Ok_0.wf(),
    {
        if !Self::is_valid_size(width, height) {
            return Err(MazeError::InvalidDimension);
        }
        let ghost blank = MazeView::blank(width, height);
        let mut cells: Vec<Vec<Cell>> = Vec::new();
        let mut x: usize = 0;
        while x < width
            invariant
                x <= width,
                blank == MazeView::blank(width, height),
                cells@.len() == x,
                forall|i: int| 0 <= i < x ==> (#[trigger] cells@[i])@ == blank.cells[i],
            decreases width - x,
        {
            let mut column: Vec<Cell> = Vec::new();
            let mut y: usize = 0;
            while y < height
                invariant
                    x < width,
                    y <= height,
                    blank == MazeView::blank(width, height),
                    column@ == blank.cells[x as int].take(y as int),
                decreases height - y,
            {
                column.push(Cell::new(x, y));
                y += 1;
                assert(column@ =~= blank.cells[x as int].take(y as int));
            }
            assert(column@ =~= blank.cells[x as int]);
            cells.push(column);
            x += 1;
        }
        let maze = Maze {
            width,
            height,
            cells,
            start: Point { x: 0, y: 0 },
            end: Point { x: width - 1, y: height - 1 },
        };
        assert(maze@.cells =~= blank.cells);
        Ok(maze)
    }

    /// Whether the maze is well formed. A maze made by `new` is, and stays
    /// so as long as its size is left alone and every cell keeps its position.
    pub fn is_well_formed(&self) -> (sound: bool)
        ensures
            sound == self.wf(),
    {
        if !Self::is_valid_size(self.width, self.height) {
            return false;
        }
        if !self.contains(self.start) || !self.contains(self.end) {
            return false;
        }
        if self.cells.len() != self.width {
            return false;
        }
        let mut x: usize = 0;
        while x < self.width
            invariant
                x <= self.width,
                self.cells@.len() == self.width,
                forall|i: int| 0 <= i < x ==> (#[trigger] self@.cells[i]).len() == self.height,
                forall|p: Point|
                    p.x < x && p.y < self.height ==> (#[trigger] self@.cell(p)).position == p,
            decreases self.width - x,
        {
            assert(self@.cells[x as int] == self.cells@[x as int]@);
            if self.cells[x].len() != self.height {
                return false;
            }
            let mut y: usize = 0;
            while y < self.height
                invariant
                    x < self.width,
                    y <= self.height,
                    self.cells@.len() == self.width,
                    self@.cells[x as int] == self.cells@[x as int]@,
                    self.cells@[x as int]@.len() == self.height,
                    forall|p: Point|
                        p.x < x && p.y < self.height ==> (#[trigger] self@.cell(p)).position == p,
                    forall|p: Point|
                        p.x == x && p.y < y ==> (#[trigger] self@.cell(p)).position == p,
                decreases self.height - y,
            {
                let position = self.cells[x][y].position;
                if position.x != x || position.y != y {
                    assert(self@.cell(Point { x, y }).position != (Point { x, y }));
                    return false;
                }
                y += 1;
            }
            x += 1;
        }
        true
    }

    /// Whether `p` is a position of the maze.
    pub fn contains(&self, p: Point) -> (inside: bool)
        ensures
            inside == self@.contains(p),
    {
        p.x < self.width && p.y < self.height
    }

    /// The cell at `p`, for any change. The caller answers for keeping the
    /// cell's own position intact.
    pub fn get_cell_mut(&mut self, p: Point) -> (cell: &mut Cell)
        requires
            old(self)@.shaped(),
            old(self)@.contains(p),
        ensures
            *cell == old(self)@.cell(p),
            final(self)@ == old(self)@.with_cell(p, *final(cell)),
            final(self)@.shaped(),
    {
        proof {
            lemma_with_entry(
                self@.cells,
                self.width as nat,
                self.height as nat,
                p.x as int,
                p.y as int,
                self@.cell(p),
            );
        }
        let ghost before = self.cells;
        assert(self.cells@[p.x as int]@ == table_view(self.cells)[p.x as int]);
        assert forall|after: Vec<Vec<Cell>>, value: Cell|
            after@.len() == before@.len() && after@[p.x as int]@ == before@[p.x as int]@.update(
                p.y as int,
                value,
            ) && (forall|i: int| 0 <= i < before@.len() && i != p.x ==> after@[i] == before@[i])
            implies #[trigger] table_view(after) == #[trigger] with_entry(
            table_view(before),
            p.x as int,
            p.y as int,
            value,
        ) by {
            assert(table_view(after) =~= with_entry(
                table_view(before),
                p.x as int,
                p.y as int,
                value,
            ));
        }
        let column = &mut self.cells[p.x];
        let cell = &mut column[p.y];
        cell
    }

    /// The cell at `p`.
    pub fn get_cell(&self, p: Point) -> (cell: &Cell)
        requires
            self@.shaped(),
            self@.contains(p),
        ensures
            *cell == self@.cell(p),
    {
        assert(self.cells@[p.x as int]@ == table_view(self.cells)[p.x as int]);
        &self.cells[p.x][p.y]
    }

    /// The cell at `p`, or nothing when `p` lies outside the maze.
    pub fn checked_cell(&self, p: Point) -> (cell: Option<&Cell>)
        requires
            self@.shaped(),
        ensures
            self@.contains(p) ==> cell == Some(&self@.cell(p)),
            !self@.contains(p) ==> cell is None,
    {
        if self.contains(p) {
            Some(self.get_cell(p))
        } else {
            None
        }
    }

    /// Moves the start to the cell in column `x`, row `y`.
    pub fn set_start(&mut self, x: usize, y: usize)
        requires
            old(self)@.contains(Point { x, y }),
        ensures
            final(self)@ == (MazeView { start: Point { x, y }, ..old(self)@ }),
    {
        self.start = Point { x, y };
    }

    /// Moves the end to the cell in column `x`, row `y`.
    pub fn set_end(&mut self, x: usize, y: usize)
        requires
            old(self)@.contains(Point { x, y }),
        ensures
            final(self)@ == (MazeView { end: Point { x, y }, ..old(self)@ }),
    {
        self.end = Point { x, y };
    }

    /// The number of columns.
    pub fn get_width(&self) -> (width: usize)
        ensures
            width == self@.width,
    {
        self.width
    }

    /// The number of rows.
    pub fn get_height(&self) -> (height: usize)
        ensures
            height == self@.height,
    {
        self.height
    }

    /// The cell where routes begin.
    pub fn get_start(&self) -> (start: Point)
        ensures
            start == self@.start,
    {
        self.start
    }

    /// The cell where routes end.
    pub fn get_end(&self) -> (end: Point)
        ensures
            end == self@.end,
    {
        self.end
    }

    /// The table of cells, column by column.
    pub fn get_cells(&self) -> (cells: &Vec<Vec<Cell>>)
        ensures
            table_view(*cells) == self@.cells,
    {
        &self.cells
    }

    /// Whether one can step from `a` to `b`: the two are adjacent cells of
    /// the maze and the wall between them is gone on both sides.
    pub fn is_open(&self, a: Point, b: Point) -> (open: bool)
        requires
            self@.shaped(),
        ensures
            open == self@.is_open(a, b),
    {
        if !self.contains(a) || !self.contains(b) {
            return false;
        }
        if !a.is_adjacent(&b) {
            return false;
        }
        let toward = match a.get_relative_direction(&b) {
            Ok(d) => d,
            Err(_) => { return false; },
        };
        let back = toward.opposite();
        !self.get_cell(a).get_walls().contains(&toward) && !self.get_cell(b).get_walls().contains(
            &back,
        )
    }
}

} // verus!
