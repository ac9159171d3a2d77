use maze::generation::BacktrackingGenerator;
use maze::maze::{Direction, Maze, MazeError, Point};
use maze::solving::{AStarSolver, CostState, OpenSet};

fn p(x: usize, y: usize) -> Point {
    Point { x, y }
}

/// Takes the wall between two adjacent cells away on both sides.
fn open_wall(maze: &mut Maze, a: Point, b: Point) {
    let towards = a.get_relative_direction(&b).unwrap();
    maze.get_cell_mut(a).remove_wall(&towards);
    maze.get_cell_mut(b).remove_wall(&towards.opposite());
}

/// The number of steps of a shortest walk, found breadth first.
fn breadth_first_distance(maze: &Maze, from: Point, to: Point) -> Option<usize> {
    let mut distance = vec![vec![usize::MAX; maze.height]; maze.width];
    let mut queue = vec![from];
    distance[from.x][from.y] = 0;
    let mut next = 0;
    while next < queue.len() {
        let cell = queue[next];
        next += 1;
        if cell == to {
            return Some(distance[cell.x][cell.y]);
        }
        for n in cell.get_neighbors(maze.width, maze.height) {
            if maze.is_open(cell, n) && distance[n.x][n.y] == usize::MAX {
                distance[n.x][n.y] = distance[cell.x][cell.y] + 1;
                queue.push(n);
            }
        }
    }
    None
}

fn is_route(maze: &Maze, path: &[Point]) -> bool {
    if path.is_empty() || path[0] != maze.get_start() || path[path.len() - 1] != maze.get_end() {
        return false;
    }
    path.windows(2).all(|pair| maze.is_open(pair[0], pair[1]))
}

/// A maze carved with the given seed in which some more walls are taken
/// away, so that there is more than one way between cells.
fn maze_with_loops(width: usize, height: usize, seed: u64) -> Maze {
    let mut maze = BacktrackingGenerator::with_seed(width, height, seed).unwrap().generate();
    let mut state = seed.wrapping_mul(6364136223846793005).wrapping_add(1442695040888963407);
    for x in 0..width {
        for y in 0..height {
            state = state.wrapping_mul(6364136223846793005).wrapping_add(1442695040888963407);
            let draw = (state >> 33) % 4;
            if draw == 0 && x + 1 < width {
                open_wall(&mut maze, p(x, y), p(x + 1, y));
            } else if draw == 1 && y + 1 < height {
                open_wall(&mut maze, p(x, y), p(x, y + 1));
            }
        }
    }
    maze
}

#[test]
fn min_heap() {
    let point = Point { x: 0, y: 0 };
    let mut heap = OpenSet::new(point);

    heap.push(CostState::new(5, point));
    heap.push(CostState::new(1, point));
    heap.push(CostState::new(2, point));
    heap.push(CostState::new(25, point));
    heap.push(CostState::new(10, point));

    assert_eq!(heap.pop(), Some(CostState::new(1, point)));
    assert_eq!(heap.pop(), Some(CostState::new(2, point)));
    assert_eq!(heap.pop(), Some(CostState::new(5, point)));
    assert_eq!(heap.pop(), Some(CostState::new(10, point)));
    assert_eq!(heap.pop(), Some(CostState::new(25, point)));
}

#[test]
fn an_empty_queue_gives_nothing() {
    let mut queue = OpenSet::new(p(3, 3));
    assert!(queue.is_empty());
    assert_eq!(queue.len(), 0);
    assert_eq!(queue.pop(), None);
    assert!(!queue.contains(&p(0, 0)));
}

#[test]
fn queue_knows_its_cells() {
    let mut queue = OpenSet::new(p(3, 3));
    queue.push(CostState::new(4, p(1, 2)));
    queue.push(CostState::new(9, p(2, 2)));
    assert_eq!(queue.len(), 2);
    assert!(!queue.is_empty());
    assert!(queue.contains(&p(1, 2)));
    assert!(queue.contains(&p(2, 2)));
    assert!(!queue.contains(&p(2, 1)));
    assert_eq!(queue.pop(), Some(CostState::new(4, p(1, 2))));
    assert!(!queue.contains(&p(1, 2)));
    assert_eq!(queue.len(), 1);
}

#[test]
fn of_equal_costs_the_cell_farthest_from_the_goal_leaves_first() {
    let mut queue = OpenSet::new(p(5, 5));
    queue.push(CostState::new(7, p(5, 4)));
    queue.push(CostState::new(7, p(0, 0)));
    queue.push(CostState::new(7, p(3, 3)));
    queue.push(CostState::new(6, p(5, 5)));
    assert_eq!(queue.pop(), Some(CostState::new(6, p(5, 5))));
    assert_eq!(queue.pop(), Some(CostState::new(7, p(0, 0))));
    assert_eq!(queue.pop(), Some(CostState::new(7, p(3, 3))));
    assert_eq!(queue.pop(), Some(CostState::new(7, p(5, 4))));
    assert_eq!(queue.pop(), None);
}

#[test]
fn of_equal_costs_and_distances_the_first_to_come_leaves_first() {
    let mut queue = OpenSet::new(p(2, 2));
    queue.push(CostState::new(3, p(2, 1)));
    queue.push(CostState::new(3, p(1, 2)));
    queue.push(CostState::new(3, p(3, 2)));
    assert_eq!(queue.pop(), Some(CostState::new(3, p(2, 1))));
    assert_eq!(queue.pop(), Some(CostState::new(3, p(1, 2))));
    assert_eq!(queue.pop(), Some(CostState::new(3, p(3, 2))));
}

#[test]
fn a_solver_that_has_not_started_knows_no_costs() {
    let solver = AStarSolver::new(Maze::new(3, 3).unwrap());
    assert!(solver.get_current_cost_map().is_empty());
    assert!(!solver.is_done());
}

#[test]
fn solver_initialize_works_once() {
    let mut solver = AStarSolver::new(Maze::new(3, 2).unwrap());
    assert_eq!(solver.initialize(), Ok(()));
    let costs = solver.get_current_cost_map();
    assert_eq!(costs.len(), 3);
    for x in 0..3 {
        assert_eq!(costs[x].len(), 2);
        for y in 0..2 {
            assert_eq!(costs[x][y], if (x, y) == (0, 0) { 0 } else { usize::MAX });
        }
    }
    assert_eq!(solver.initialize(), Err(MazeError::AlreadyInitialized));
}

#[test]
fn start_equal_to_end_is_found_at_once() {
    let mut maze = Maze::new(3, 3).unwrap();
    maze.set_start(1, 1);
    maze.set_end(1, 1);
    let mut solver = AStarSolver::new(maze);
    assert_eq!(solver.next_step(), Some(vec![p(1, 1)]));

    let mut single = AStarSolver::new(Maze::new(1, 1).unwrap());
    assert_eq!(single.solve(), Some(vec![p(0, 0)]));
}

#[test]
fn walled_apart_start_and_end_have_no_path() {
    let mut solver = AStarSolver::new(Maze::new(3, 3).unwrap());
    assert_eq!(solver.solve(), None);
    assert!(solver.is_done());
    assert_eq!(solver.get_current_cost_map()[0][0], 0);
    assert_eq!(solver.get_current_cost_map()[2][2], usize::MAX);
}

#[test]
fn an_end_cut_off_from_the_rest_has_no_path() {
    let mut maze = Maze::new(3, 3).unwrap();
    open_wall(&mut maze, p(0, 0), p(1, 0));
    open_wall(&mut maze, p(1, 0), p(2, 0));
    open_wall(&mut maze, p(2, 0), p(2, 1));
    open_wall(&mut maze, p(0, 0), p(0, 1));
    open_wall(&mut maze, p(0, 1), p(0, 2));
    open_wall(&mut maze, p(0, 2), p(1, 2));
    open_wall(&mut maze, p(0, 1), p(1, 1));
    assert_eq!(breadth_first_distance(&maze, p(0, 0), p(2, 2)), None);
    let mut solver = AStarSolver::new(maze);
    assert_eq!(solver.solve(), None);
    assert!(solver.is_done());
    let costs = solver.get_current_cost_map();
    assert_eq!(costs[2][1], 3);
    assert_eq!(costs[1][2], 3);
    assert_eq!(costs[1][1], 2);
    assert_eq!(costs[2][2], usize::MAX);
}

#[test]
fn a_wall_open_on_one_side_only_cannot_be_passed() {
    let mut maze = Maze::new(2, 1).unwrap();
    maze.get_cell_mut(p(0, 0)).remove_wall(&Direction::East);
    let mut solver = AStarSolver::new(maze);
    assert_eq!(solver.solve(), None);
}

#[test]
fn a_corridor_is_walked_from_start_to_end() {
    let mut maze = Maze::new(4, 1).unwrap();
    for x in 0..3 {
        open_wall(&mut maze, p(x, 0), p(x + 1, 0));
    }
    let mut solver = AStarSolver::new(maze);
    assert_eq!(solver.solve(), Some(vec![p(0, 0), p(1, 0), p(2, 0), p(3, 0)]));
    assert_eq!(solver.get_current_cost_map()[3][0], 3);
}

#[test]
fn the_shorter_of_two_ways_is_taken() {
    // A ring around the middle of a 3 x 3 maze, start top left, end in the
    // middle of the right side: three steps one way round, five the other.
    let mut maze = Maze::new(3, 3).unwrap();
    let ring = [p(0, 0), p(1, 0), p(2, 0), p(2, 1), p(2, 2), p(1, 2), p(0, 2), p(0, 1), p(0, 0)];
    for pair in ring.windows(2) {
        open_wall(&mut maze, pair[0], pair[1]);
    }
    maze.set_end(2, 1);
    let mut solver = AStarSolver::new(maze);
    assert_eq!(solver.solve(), Some(vec![p(0, 0), p(1, 0), p(2, 0), p(2, 1)]));
}

#[test]
fn a_detour_away_from_the_end_is_found() {
    // The only way from (0, 1) to (2, 1) leads back through the first row.
    let mut maze = Maze::new(3, 2).unwrap();
    maze.set_start(0, 1);
    maze.set_end(2, 1);
    open_wall(&mut maze, p(0, 1), p(0, 0));
    open_wall(&mut maze, p(0, 0), p(1, 0));
    open_wall(&mut maze, p(1, 0), p(2, 0));
    open_wall(&mut maze, p(2, 0), p(2, 1));
    open_wall(&mut maze, p(0, 1), p(1, 1));
    let mut solver = AStarSolver::new(maze);
    assert_eq!(solver.solve(), Some(vec![p(0, 1), p(0, 0), p(1, 0), p(2, 0), p(2, 1)]));
}

#[test]
fn routes_through_generated_mazes_are_as_short_as_breadth_first_search_says() {
    for seed in 0..30 {
        for (width, height) in [(2, 2), (3, 3), (5, 4), (8, 8), (12, 7)] {
            let maze = BacktrackingGenerator::with_seed(width, height, seed).unwrap().generate();
            let expected = breadth_first_distance(&maze, maze.get_start(), maze.get_end());
            let mut solver = AStarSolver::new(maze.clone());
            let path = solver.solve().unwrap();
            assert!(is_route(&maze, &path));
            assert_eq!(Some(path.len() - 1), expected);
        }
    }
}

#[test]
fn routes_through_mazes_with_loops_are_as_short_as_breadth_first_search_says() {
    for seed in 0..200 {
        for (width, height) in [(3, 3), (4, 6), (7, 7), (10, 5)] {
            let mut maze = maze_with_loops(width, height, seed);
            let corners = [p(0, 0), p(width - 1, 0), p(0, height - 1), p(width - 1, height - 1)];
            let from = corners[(seed % 4) as usize];
            let to = p((seed as usize * 7 + 3) % width, (seed as usize * 5 + 1) % height);
            maze.set_start(from.x, from.y);
            maze.set_end(to.x, to.y);
            let expected = breadth_first_distance(&maze, from, to);
            let mut solver = AStarSolver::new(maze.clone());
            let path = solver.solve().unwrap();
            assert!(is_route(&maze, &path));
            assert_eq!(Some(path.len() - 1), expected);
            assert_eq!(solver.get_current_cost_map()[to.x][to.y], path.len() - 1);
        }
    }
}

#[test]
fn routes_through_open_fields_are_as_long_as_the_manhattan_distance() {
    for (width, height) in [(2, 2), (5, 5), (9, 4)] {
        let mut maze = Maze::new(width, height).unwrap();
        for x in 0..width {
            for y in 0..height {
                if x + 1 < width {
                    open_wall(&mut maze, p(x, y), p(x + 1, y));
                }
                if y + 1 < height {
                    open_wall(&mut maze, p(x, y), p(x, y + 1));
                }
            }
        }
        let mut solver = AStarSolver::new(maze.clone());
        let path = solver.solve().unwrap();
        assert!(is_route(&maze, &path));
        assert_eq!(path.len() - 1, width + height - 2);
    }
}

#[test]
fn stepping_by_hand_finds_what_solve_finds() {
    let maze = maze_with_loops(8, 6, 17);
    let mut whole = AStarSolver::new(maze.clone());
    let expected = whole.solve();
    let mut stepped = AStarSolver::new(maze);
    let mut found = None;
    while !stepped.is_done() {
        if let Some(path) = stepped.next_step() {
            found = Some(path);
            break;
        }
    }
    assert!(found.is_some());
    assert_eq!(found, expected);
}

#[test]
fn costs_never_grow_and_are_set_once() {
    let maze = maze_with_loops(7, 7, 5);
    let mut solver = AStarSolver::new(maze);
    solver.initialize().unwrap();
    let mut before = solver.get_current_cost_map().clone();
    while !solver.is_done() {
        if solver.next_step().is_some() {
            break;
        }
        let after = solver.get_current_cost_map().clone();
        for x in 0..7 {
            for y in 0..7 {
                if before[x][y] != usize::MAX {
                    assert_eq!(after[x][y], before[x][y]);
                }
            }
        }
        before = after;
    }
}

#[test]
fn after_a_route_was_handed_out_the_run_goes_on_to_its_end_without_another() {
    let maze = BacktrackingGenerator::with_seed(4, 4, 1).unwrap().generate();
    let mut solver = AStarSolver::new(maze);
    assert!(solver.solve().is_some());
    assert!(!solver.is_done());
    assert_eq!(solver.solve(), None);
    assert!(solver.is_done());
    assert_eq!(solver.next_step(), None);
    assert!(solver.is_done());
}

#[test]
fn solver_restart_and_set_maze_start_over() {
    let maze = BacktrackingGenerator::with_seed(5, 5, 4).unwrap().generate();
    let mut solver = AStarSolver::new(maze.clone());
    let first = solver.solve();
    assert!(first.is_some());
    solver.restart();
    assert!(solver.get_current_cost_map().is_empty());
    assert!(!solver.is_done());
    assert_eq!(solver.solve(), first);

    solver.set_maze(Maze::new(2, 2).unwrap());
    assert!(solver.get_current_cost_map().is_empty());
    assert_eq!(solver.solve(), None);
    solver.set_maze(maze);
    assert_eq!(solver.solve(), first);
}

#[test]
fn a_done_solver_stays_done() {
    let mut solver = AStarSolver::new(Maze::new(2, 2).unwrap());
    assert_eq!(solver.solve(), None);
    let costs = solver.get_current_cost_map().clone();
    for _ in 0..3 {
        assert_eq!(solver.next_step(), None);
        assert!(solver.is_done());
        assert_eq!(*solver.get_current_cost_map(), costs);
    }
}
