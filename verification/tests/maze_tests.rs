use maze::maze::{Cell, Direction, Maze, MazeError, Point, WallSet};

fn pt(x: usize, y: usize) -> Point {
    Point { x, y }
}

#[test]
fn opposite_swaps_north_south_and_east_west() {
    assert_eq!(Direction::North.opposite(), Direction::South);
    assert_eq!(Direction::South.opposite(), Direction::North);
    assert_eq!(Direction::East.opposite(), Direction::West);
    assert_eq!(Direction::West.opposite(), Direction::East);
}

#[test]
fn opposite_is_an_involution() {
    for d in [Direction::North, Direction::South, Direction::East, Direction::West] {
        assert_eq!(d.opposite().opposite(), d);
        assert_ne!(d.opposite(), d);
    }
}

#[test]
fn point_from_pair() {
    let p: Point = Point::from((3, 7));
    assert_eq!(p, pt(3, 7));
    let q: Point = (1, 2).into();
    assert_eq!(q, pt(1, 2));
}

#[test]
fn points_add_and_subtract_by_coordinate() {
    assert_eq!(pt(1, 2) + pt(3, 4), pt(4, 6));
    assert_eq!(pt(5, 7) - pt(2, 7), pt(3, 0));
    assert_eq!((pt(1, 2) + pt(3, 4)) - pt(3, 4), pt(1, 2));
}

#[test]
fn neighbors_of_an_inner_cell_come_west_east_south_north() {
    assert_eq!(pt(1, 1).get_neighbors(3, 3), vec![pt(0, 1), pt(2, 1), pt(1, 2), pt(1, 0)]);
}

#[test]
fn neighbors_of_corners_and_edges_stay_inside() {
    assert_eq!(pt(0, 0).get_neighbors(3, 3), vec![pt(1, 0), pt(0, 1)]);
    assert_eq!(pt(2, 2).get_neighbors(3, 3), vec![pt(1, 2), pt(2, 1)]);
    assert_eq!(pt(0, 1).get_neighbors(3, 3), vec![pt(1, 1), pt(0, 2), pt(0, 0)]);
    assert_eq!(pt(2, 0).get_neighbors(3, 3), vec![pt(1, 0), pt(2, 1)]);
}

#[test]
fn a_lone_cell_has_no_neighbors() {
    assert_eq!(pt(0, 0).get_neighbors(1, 1), Vec::<Point>::new());
    assert_eq!(pt(0, 0).get_neighbors(0, 0), Vec::<Point>::new());
}

#[test]
fn neighbors_of_a_point_outside_are_those_that_lie_inside() {
    assert_eq!(pt(3, 1).get_neighbors(3, 3), vec![pt(2, 1)]);
    assert_eq!(pt(1, 3).get_neighbors(3, 3), vec![pt(1, 2)]);
    assert_eq!(pt(5, 5).get_neighbors(3, 3), Vec::<Point>::new());
    assert_eq!(pt(usize::MAX, 0).get_neighbors(3, 3), Vec::<Point>::new());
}

#[test]
fn relative_direction_of_each_side() {
    let p = pt(4, 4);
    assert_eq!(p.get_relative_direction(&pt(5, 4)), Ok(Direction::East));
    assert_eq!(p.get_relative_direction(&pt(3, 4)), Ok(Direction::West));
    assert_eq!(p.get_relative_direction(&pt(4, 5)), Ok(Direction::South));
    assert_eq!(p.get_relative_direction(&pt(4, 3)), Ok(Direction::North));
}

#[test]
fn relative_direction_looks_at_columns_first() {
    assert_eq!(pt(1, 1).get_relative_direction(&pt(2, 0)), Ok(Direction::East));
    assert_eq!(pt(1, 1).get_relative_direction(&pt(0, 9)), Ok(Direction::West));
}

#[test]
fn relative_direction_to_itself_is_an_error() {
    assert_eq!(pt(2, 3).get_relative_direction(&pt(2, 3)), Err(MazeError::SamePoint));
}

#[test]
fn distance_is_manhattan() {
    assert_eq!(pt(0, 0).get_distance(&pt(2, 2)), 4);
    assert_eq!(pt(5, 1).get_distance(&pt(2, 3)), 5);
    assert_eq!(pt(7, 7).get_distance(&pt(7, 7)), 0);
    assert_eq!(pt(usize::MAX, usize::MAX).distance_wide(&pt(0, 0)), 2 * (usize::MAX as u128));
    assert!(pt(1, 0).is_adjacent(&pt(0, 0)));
    assert!(!pt(1, 1).is_adjacent(&pt(0, 0)));
    assert!(!pt(1, 1).is_adjacent(&pt(1, 1)));
}

#[test]
fn wall_set_insert_remove_contains() {
    let mut walls = WallSet::new();
    assert!(walls.directions().is_empty());
    assert!(walls.insert(Direction::East));
    assert!(!walls.insert(Direction::East));
    assert!(walls.contains(&Direction::East));
    assert!(!walls.contains(&Direction::West));
    assert!(walls.insert(Direction::North));
    assert_eq!(walls.directions(), vec![Direction::North, Direction::East]);
    assert!(walls.remove(&Direction::East));
    assert!(!walls.remove(&Direction::East));
    assert_eq!(walls.directions(), vec![Direction::North]);
    assert_eq!(
        WallSet::all().directions(),
        vec![Direction::North, Direction::South, Direction::East, Direction::West]
    );
}

#[test]
fn a_new_cell_has_four_walls() {
    let cell = Cell::new(2, 5);
    assert_eq!(cell.position, pt(2, 5));
    assert_eq!(*cell.get_walls(), WallSet::all());
}

#[test]
fn cell_walls_can_be_removed_and_added() {
    let mut cell = Cell::new(0, 0);
    cell.remove_wall(&Direction::South);
    assert!(!cell.get_walls().contains(&Direction::South));
    assert!(cell.get_walls().contains(&Direction::North));
    cell.remove_wall(&Direction::South);
    assert_eq!(cell.get_walls().directions().len(), 3);
    cell.add_wall(Direction::South);
    assert_eq!(*cell.get_walls(), WallSet::all());
    cell.get_walls_mut().remove(&Direction::West);
    assert!(!cell.get_walls().contains(&Direction::West));
    assert_eq!(cell.position, pt(0, 0));
}

#[test]
fn maze_without_columns_or_rows_is_refused() {
    assert!(matches!(Maze::new(0, 5), Err(MazeError::InvalidDimension)));
    assert!(matches!(Maze::new(5, 0), Err(MazeError::InvalidDimension)));
    assert!(matches!(Maze::new(0, 0), Err(MazeError::InvalidDimension)));
}

#[test]
fn maze_too_large_to_count_is_refused() {
    assert!(matches!(Maze::new(usize::MAX, 2), Err(MazeError::InvalidDimension)));
    assert!(matches!(Maze::new(usize::MAX, 1), Err(MazeError::InvalidDimension)));
    assert!(!Maze::is_valid_size(usize::MAX / 2, 3));
    assert!(Maze::is_valid_size(1, 1));
    assert!(Maze::is_valid_size(30, 20));
}

#[test]
fn a_new_maze_is_fully_walled_with_start_and_end_in_the_corners() {
    let maze = Maze::new(4, 3).unwrap();
    assert_eq!(maze.width, 4);
    assert_eq!(maze.height, 3);
    assert_eq!(maze.get_width(), 4);
    assert_eq!(maze.get_height(), 3);
    assert_eq!(maze.get_start(), pt(0, 0));
    assert_eq!(maze.get_end(), pt(3, 2));
    assert_eq!(maze.get_cells().len(), 4);
    for x in 0..4 {
        assert_eq!(maze.get_cells()[x].len(), 3);
        for y in 0..3 {
            let cell = maze.get_cell(pt(x, y));
            assert_eq!(cell.position, pt(x, y));
            assert_eq!(*cell.get_walls(), WallSet::all());
            for n in pt(x, y).get_neighbors(4, 3) {
                assert!(!maze.is_open(pt(x, y), n));
            }
        }
    }
}

#[test]
fn contains_and_checked_cell_respect_the_bounds() {
    let maze = Maze::new(2, 3).unwrap();
    assert!(maze.contains(pt(1, 2)));
    assert!(!maze.contains(pt(2, 0)));
    assert!(!maze.contains(pt(0, 3)));
    assert_eq!(maze.checked_cell(pt(1, 2)).map(|c| c.position), Some(pt(1, 2)));
    assert!(maze.checked_cell(pt(2, 2)).is_none());
    assert!(maze.checked_cell(pt(0, 3)).is_none());
}

#[test]
fn a_step_is_open_only_when_both_walls_are_gone() {
    let mut maze = Maze::new(2, 2).unwrap();
    let a = pt(0, 0);
    let b = pt(1, 0);
    maze.get_cell_mut(a).remove_wall(&Direction::East);
    assert!(!maze.is_open(a, b));
    assert!(!maze.is_open(b, a));
    maze.get_cell_mut(b).remove_wall(&Direction::West);
    assert!(maze.is_open(a, b));
    assert!(maze.is_open(b, a));
    assert!(!maze.is_open(a, pt(0, 1)));
    maze.get_cell_mut(a).add_wall(Direction::East);
    assert!(!maze.is_open(a, b));
}

#[test]
fn is_open_is_false_for_cells_that_are_not_neighbours_or_not_inside() {
    let mut maze = Maze::new(3, 3).unwrap();
    for x in 0..3 {
        for y in 0..3 {
            *maze.get_cell_mut(pt(x, y)).get_walls_mut() = WallSet::new();
        }
    }
    assert!(maze.is_open(pt(1, 1), pt(1, 2)));
    assert!(!maze.is_open(pt(1, 1), pt(1, 1)));
    assert!(!maze.is_open(pt(0, 0), pt(1, 1)));
    assert!(!maze.is_open(pt(0, 0), pt(2, 0)));
    assert!(!maze.is_open(pt(2, 2), pt(3, 2)));
    assert!(!maze.is_open(pt(3, 2), pt(2, 2)));
}

#[test]
fn start_and_end_can_be_moved() {
    let mut maze = Maze::new(3, 3).unwrap();
    maze.set_start(1, 2);
    maze.set_end(0, 1);
    assert_eq!(maze.get_start(), pt(1, 2));
    assert_eq!(maze.get_end(), pt(0, 1));
    assert_eq!(maze.width, 3);
    assert_eq!(*maze.get_cell(pt(1, 2)).get_walls(), WallSet::all());
}

#[test]
fn a_cloned_maze_is_the_same_and_independent() {
    let mut maze = Maze::new(2, 2).unwrap();
    maze.get_cell_mut(pt(0, 0)).remove_wall(&Direction::South);
    maze.get_cell_mut(pt(0, 1)).remove_wall(&Direction::North);
    maze.set_end(0, 1);
    let copy = maze.clone();
    assert_eq!(copy.get_end(), pt(0, 1));
    assert!(copy.is_open(pt(0, 0), pt(0, 1)));
    maze.get_cell_mut(pt(0, 0)).add_wall(Direction::South);
    assert!(copy.is_open(pt(0, 0), pt(0, 1)));
    assert!(!maze.is_open(pt(0, 0), pt(0, 1)));
}

#[test]
fn a_maze_stays_well_formed_until_a_cell_or_the_size_is_spoilt() {
    let mut maze = Maze::new(3, 2).unwrap();
    assert!(maze.is_well_formed());
    maze.get_cell_mut(pt(1, 1)).remove_wall(&Direction::North);
    maze.set_start(2, 1);
    assert!(maze.is_well_formed());

    let mut moved = maze.clone();
    moved.get_cell_mut(pt(1, 1)).position = pt(0, 0);
    assert!(!moved.is_well_formed());

    let mut wider = maze.clone();
    wider.width = 4;
    assert!(!wider.is_well_formed());

    let mut lower = maze.clone();
    lower.height = 1;
    assert!(!lower.is_well_formed());

    let mut empty = maze.clone();
    empty.width = 0;
    assert!(!empty.is_well_formed());
}
