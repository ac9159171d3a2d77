use maze::generation::{BacktrackingCellState, BacktrackingGenerator, GeneratorState};
use maze::maze::{Direction, Maze, MazeError, Point};

fn at(x: usize, y: usize) -> Point {
    Point { x, y }
}

/// The cells that can be reached from `from` through open walls.
fn reachable_cells(maze: &Maze, from: Point) -> Vec<Point> {
    let mut seen = vec![from];
    let mut next = 0;
    while next < seen.len() {
        let p = seen[next];
        next += 1;
        for n in p.get_neighbors(maze.width, maze.height) {
            if maze.is_open(p, n) && !seen.contains(&n) {
                seen.push(n);
            }
        }
    }
    seen
}

fn walls_are_symmetric(maze: &Maze) -> bool {
    for x in 0..maze.width {
        for y in 0..maze.height {
            let p = at(x, y);
            for n in p.get_neighbors(maze.width, maze.height) {
                let towards = p.get_relative_direction(&n).unwrap();
                let here = maze.get_cell(p).get_walls().contains(&towards);
                let there = maze.get_cell(n).get_walls().contains(&towards.opposite());
                if here != there {
                    return false;
                }
            }
        }
    }
    true
}

fn open_steps(maze: &Maze) -> usize {
    let mut count = 0;
    for x in 0..maze.width {
        for y in 0..maze.height {
            let p = at(x, y);
            for n in p.get_neighbors(maze.width, maze.height) {
                if maze.is_open(p, n) {
                    count += 1;
                }
            }
        }
    }
    count / 2
}

#[test]
fn generator_rejects_empty_grid() {
    assert!(matches!(BacktrackingGenerator::new(0, 3), Err(MazeError::InvalidDimension)));
    assert!(matches!(BacktrackingGenerator::new(3, 0), Err(MazeError::InvalidDimension)));
    assert!(matches!(
        BacktrackingGenerator::with_seed(usize::MAX, 2, 1),
        Err(MazeError::InvalidDimension)
    ));
}

#[test]
fn a_new_generator_is_clear() {
    let generator = BacktrackingGenerator::new(3, 2).unwrap();
    assert_eq!(generator.width, 3);
    assert_eq!(generator.height, 2);
    assert!(!generator.is_done());
    let states = generator.get_cells_state();
    assert_eq!(states.len(), 3);
    for x in 0..3 {
        assert_eq!(states[x].len(), 2);
        for y in 0..2 {
            let expected = if x == 0 && y == 0 {
                BacktrackingCellState::Current
            } else {
                BacktrackingCellState::Unvisited
            };
            assert_eq!(states[x][y], expected);
            assert_eq!(generator.cell_generation_state(at(x, y)), expected);
        }
    }
    assert_eq!(open_steps(generator.get_maze_ref()), 0);
    assert_eq!(generator.get_maze_ref().get_start(), at(0, 0));
    assert_eq!(generator.get_maze_ref().get_end(), at(2, 1));
}

#[test]
fn initialize_works_once() {
    let mut generator = BacktrackingGenerator::with_seed(2, 2, 0).unwrap();
    assert_eq!(generator.initialize(), Ok(()));
    assert_eq!(generator.initialize(), Err(MazeError::AlreadyInitialized));
    assert_eq!(generator.next_step(), GeneratorState::InProgress);
    assert_eq!(generator.initialize(), Err(MazeError::AlreadyInitialized));
    generator.restart();
    assert_eq!(generator.initialize(), Ok(()));
}

#[test]
fn the_first_step_carves_from_the_first_cell_to_a_neighbour() {
    for seed in 0..20 {
        let mut generator = BacktrackingGenerator::with_seed(3, 3, seed).unwrap();
        assert_eq!(generator.next_step(), GeneratorState::InProgress);
        let maze = generator.get_maze_ref();
        let right = maze.is_open(at(0, 0), at(1, 0));
        let down = maze.is_open(at(0, 0), at(0, 1));
        assert!(right != down);
        assert_eq!(open_steps(maze), 1);
        let next = if right { at(1, 0) } else { at(0, 1) };
        assert_eq!(generator.cell_generation_state(at(0, 0)), BacktrackingCellState::Current);
        assert_eq!(generator.cell_generation_state(next), BacktrackingCellState::Visited);
    }
}

#[test]
fn both_neighbours_get_chosen_over_many_seeds() {
    let mut right = 0;
    let mut down = 0;
    for seed in 0..64 {
        let mut generator = BacktrackingGenerator::with_seed(2, 2, seed).unwrap();
        generator.next_step();
        if generator.get_maze_ref().is_open(at(0, 0), at(1, 0)) {
            right += 1;
        } else {
            down += 1;
        }
    }
    assert!(right > 0);
    assert!(down > 0);
}

#[test]
fn the_same_seed_gives_the_same_maze() {
    let first = BacktrackingGenerator::with_seed(6, 5, 99).unwrap().generate();
    let second = BacktrackingGenerator::with_seed(6, 5, 99).unwrap().generate();
    for x in 0..6 {
        for y in 0..5 {
            assert_eq!(first.get_cell(at(x, y)).get_walls(), second.get_cell(at(x, y)).get_walls());
        }
    }
}

#[test]
fn a_run_takes_twice_as_many_steps_as_there_are_cells() {
    for (width, height) in [(1, 1), (1, 4), (4, 1), (2, 2), (3, 3), (5, 4)] {
        let mut generator = BacktrackingGenerator::with_seed(width, height, 7).unwrap();
        let mut steps = 0;
        while !generator.is_done() {
            generator.next_step();
            steps += 1;
        }
        assert_eq!(steps, 2 * width * height);
    }
}

#[test]
fn a_single_cell_is_done_after_two_steps() {
    let mut generator = BacktrackingGenerator::new(1, 1).unwrap();
    assert_eq!(generator.next_step(), GeneratorState::InProgress);
    assert!(!generator.is_done());
    assert_eq!(generator.next_step(), GeneratorState::Done);
    assert!(generator.is_done());
    assert_eq!(generator.cell_generation_state(at(0, 0)), BacktrackingCellState::Current);
}

#[test]
fn stepping_after_done_changes_nothing() {
    let mut generator = BacktrackingGenerator::with_seed(4, 4, 5).unwrap();
    let maze = generator.generate();
    assert!(generator.is_done());
    let states = generator.get_cells_state();
    for _ in 0..5 {
        assert_eq!(generator.next_step(), GeneratorState::Done);
        assert!(generator.is_done());
        assert_eq!(generator.get_cells_state(), states);
        for x in 0..4 {
            for y in 0..4 {
                assert_eq!(
                    generator.get_maze_ref().get_cell(at(x, y)).get_walls(),
                    maze.get_cell(at(x, y)).get_walls()
                );
            }
        }
    }
    let again = generator.generate();
    assert_eq!(open_steps(&again), open_steps(&maze));
}

#[test]
fn every_cell_of_a_generated_maze_can_be_reached() {
    for seed in 0..10 {
        for (width, height) in [(1, 1), (1, 5), (5, 1), (3, 3), (7, 4), (10, 10)] {
            let maze = BacktrackingGenerator::with_seed(width, height, seed).unwrap().generate();
            assert_eq!(maze.width, width);
            assert_eq!(maze.height, height);
            assert_eq!(reachable_cells(&maze, maze.get_start()).len(), width * height);
            assert_eq!(open_steps(&maze), width * height - 1);
        }
    }
}

#[test]
fn walls_stay_symmetric_after_every_step() {
    let mut generator = BacktrackingGenerator::with_seed(5, 5, 11).unwrap();
    assert!(walls_are_symmetric(generator.get_maze_ref()));
    while !generator.is_done() {
        generator.next_step();
        assert!(walls_are_symmetric(generator.get_maze_ref()));
    }
}

#[test]
fn there_is_always_exactly_one_current_cell() {
    let mut generator = BacktrackingGenerator::with_seed(4, 3, 2).unwrap();
    loop {
        let states = generator.get_cells_state();
        let current = states
            .iter()
            .flatten()
            .filter(|s| **s == BacktrackingCellState::Current)
            .count();
        assert_eq!(current, 1);
        if generator.is_done() {
            break;
        }
        generator.next_step();
    }
}

#[test]
fn when_done_the_search_is_back_at_the_first_cell_and_all_others_are_visited() {
    let mut generator = BacktrackingGenerator::with_seed(4, 5, 21).unwrap();
    generator.generate();
    for x in 0..4 {
        for y in 0..5 {
            let expected = if x == 0 && y == 0 {
                BacktrackingCellState::Current
            } else {
                BacktrackingCellState::Visited
            };
            assert_eq!(generator.cell_generation_state(at(x, y)), expected);
        }
    }
}

#[test]
fn restart_makes_every_cell_but_the_first_unvisited() {
    let mut generator = BacktrackingGenerator::with_seed(4, 4, 3).unwrap();
    for _ in 0..9 {
        generator.next_step();
    }
    generator.restart();
    assert!(!generator.is_done());
    assert_eq!(open_steps(generator.get_maze_ref()), 0);
    for x in 0..4 {
        for y in 0..4 {
            if (x, y) != (0, 0) {
                assert_eq!(
                    generator.cell_generation_state(at(x, y)),
                    BacktrackingCellState::Unvisited
                );
            }
        }
    }
    let maze = generator.generate();
    assert!(generator.is_done());
    assert!(walls_are_symmetric(&maze));
    assert_eq!(reachable_cells(&maze, maze.get_start()).len(), 16);
}

#[test]
fn restart_after_done_allows_a_new_run() {
    let mut generator = BacktrackingGenerator::with_seed(3, 3, 8).unwrap();
    generator.generate();
    generator.restart();
    assert!(!generator.is_done());
    let mut steps = 0;
    while generator.next_step() != GeneratorState::Done {
        steps += 1;
    }
    assert_eq!(steps + 1, 18);
}

#[test]
fn step_with_carves_towards_the_given_cell() {
    let mut generator = BacktrackingGenerator::new(2, 2).unwrap();
    assert_eq!(generator.step_with(Some(at(0, 1))), GeneratorState::InProgress);
    assert!(generator.get_maze_ref().is_open(at(0, 0), at(0, 1)));
    assert!(!generator.get_maze_ref().get_cell(at(0, 0)).get_walls().contains(&Direction::South));
    assert!(!generator.get_maze_ref().get_cell(at(0, 1)).get_walls().contains(&Direction::North));
    assert_eq!(generator.cell_generation_state(at(0, 0)), BacktrackingCellState::Current);
    assert_eq!(generator.cell_generation_state(at(0, 1)), BacktrackingCellState::Visited);

    generator.step_with(Some(at(1, 1)));
    assert_eq!(generator.cell_generation_state(at(0, 0)), BacktrackingCellState::Visited);
    assert_eq!(generator.cell_generation_state(at(0, 1)), BacktrackingCellState::Current);
    assert!(generator.get_maze_ref().is_open(at(0, 1), at(1, 1)));

    generator.step_with(Some(at(1, 0)));
    assert!(generator.get_maze_ref().is_open(at(1, 1), at(1, 0)));
    assert!(!generator.get_maze_ref().is_open(at(0, 0), at(1, 0)));
    assert_eq!(generator.cell_generation_state(at(1, 1)), BacktrackingCellState::Current);

    // Four dead ends on the way back, then the step that ends the run.
    for expected in [at(1, 0), at(1, 1), at(0, 1), at(0, 0)] {
        assert_eq!(generator.step_with(None), GeneratorState::InProgress);
        assert_eq!(generator.cell_generation_state(expected), BacktrackingCellState::Current);
    }
    assert_eq!(generator.step_with(None), GeneratorState::Done);
    assert_eq!(open_steps(generator.get_maze_ref()), 3);
}

#[test]
fn three_by_three_scenario() {
    let mut generator = BacktrackingGenerator::with_seed(3, 3, 2024).unwrap();
    let maze = generator.generate();
    assert_eq!(maze.get_start(), at(0, 0));
    assert_eq!(maze.get_end(), at(2, 2));
    let reached = reachable_cells(&maze, at(0, 0));
    for x in 0..3 {
        for y in 0..3 {
            assert!(reached.contains(&at(x, y)));
        }
    }
    generator.restart();
    let mut unvisited = 0;
    for x in 0..3 {
        for y in 0..3 {
            if (x, y) != (0, 0) {
                assert_ne!(
                    generator.cell_generation_state(at(x, y)),
                    BacktrackingCellState::Visited
                );
                assert_eq!(
                    generator.cell_generation_state(at(x, y)),
                    BacktrackingCellState::Unvisited
                );
                unvisited += 1;
            }
        }
    }
    assert_eq!(unvisited, 8);
    let mut solver = maze::solving::AStarSolver::new(maze);
    let path = solver.solve().unwrap();
    assert!(path.len() - 1 >= 4);
    assert!(path.len() - 1 <= 8);
    assert_eq!(path[0], at(0, 0));
    assert_eq!(path[path.len() - 1], at(2, 2));
}

#[test]
fn candidates_are_the_unvisited_neighbours_of_the_cell_to_move_to() {
    let mut generator = BacktrackingGenerator::new(3, 3).unwrap();
    assert_eq!(generator.candidates(), vec![at(1, 0), at(0, 1)]);
    generator.step_with(Some(at(1, 0)));
    assert_eq!(generator.candidates(), vec![at(2, 0), at(1, 1)]);
    generator.step_with(Some(at(1, 1)));
    assert_eq!(generator.candidates(), vec![at(0, 1), at(2, 1), at(1, 2)]);
    generator.step_with(Some(at(0, 1)));
    assert_eq!(generator.candidates(), vec![at(0, 2)]);
    generator.step_with(Some(at(0, 2)));
    generator.step_with(Some(at(1, 2)));
    generator.step_with(Some(at(2, 2)));
    generator.step_with(Some(at(2, 1)));
    generator.step_with(Some(at(2, 0)));
    assert_eq!(generator.candidates(), Vec::<Point>::new());
}

#[test]
fn always_taking_the_first_candidate_carves_a_spanning_maze() {
    let mut generator = BacktrackingGenerator::new(5, 4).unwrap();
    let mut steps = 0;
    while !generator.is_done() {
        let choice = generator.candidates().first().copied();
        generator.step_with(choice);
        steps += 1;
    }
    assert_eq!(steps, 40);
    let maze = generator.get_maze_ref();
    assert_eq!(reachable_cells(maze, at(0, 0)).len(), 20);
    assert_eq!(open_steps(maze), 19);
    assert!(walls_are_symmetric(maze));
    // West is tried first, then east: the first row is carved from left to right.
    for x in 0..4 {
        assert!(maze.is_open(at(x, 0), at(x + 1, 0)));
    }
}
