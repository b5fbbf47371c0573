use maze_engine::maze::{Cell, Direction, Maze, Pos};

/// A 3x3 maze whose passages form one snake from (0,0) to (2,2):
/// east along row 0, up at the right, west along row 1, up at the left,
/// east along row 2.
fn snake() -> Maze<3> {
    let mut maze = Maze::<3>::default();
    maze.carve(Pos::new(0, 0), Direction::East);
    maze.carve(Pos::new(1, 0), Direction::East);
    maze.carve(Pos::new(2, 0), Direction::North);
    maze.carve(Pos::new(2, 1), Direction::West);
    maze.carve(Pos::new(1, 1), Direction::West);
    maze.carve(Pos::new(0, 1), Direction::North);
    maze.carve(Pos::new(0, 2), Direction::East);
    maze.carve(Pos::new(1, 2), Direction::East);
    maze
}

/// A 3x3 maze in which every wall is open.
fn open_field() -> Maze<3> {
    let mut maze = Maze::<3>::default();
    for y in 0..3 {
        for x in 0..3 {
            if x < 2 {
                maze.carve(Pos::new(x, y), Direction::East);
            }
            if y < 2 {
                maze.carve(Pos::new(x, y), Direction::North);
            }
        }
    }
    maze
}

fn dists<const S: usize>(maze: &Maze<S>) -> Vec<Option<u32>> {
    maze.all_cells().iter().map(|cell| cell.dist).collect()
}

#[test]
fn blank_maze_has_closed_walls_and_corner_end_points() {
    let maze = Maze::<4>::default();
    assert_eq!(maze.start, Pos::new(0, 0));
    assert_eq!(maze.end, Pos::new(3, 3));
    for y in 0..4 {
        for x in 0..4 {
            let cell: &Cell = maze.at(x, y);
            assert!(!cell.up && !cell.right && !cell.masked);
            assert_eq!(cell.dist, None);
            assert_eq!(cell.path, None);
        }
    }
}

#[test]
fn calc_dist_counts_hops_along_the_snake() {
    let maze = snake().calc_dist(Pos::new(0, 0));
    let expected = [[0, 1, 2], [5, 4, 3], [6, 7, 8]];
    for y in 0..3 {
        for x in 0..3 {
            assert_eq!(maze.at(x, y).dist, Some(expected[y][x]));
        }
    }
}

#[test]
fn calc_dist_takes_the_shortest_way_where_walls_form_cycles() {
    let maze = open_field().calc_dist(Pos::new(1, 1));
    let expected = [[2, 1, 2], [1, 0, 1], [2, 1, 2]];
    for y in 0..3 {
        for x in 0..3 {
            assert_eq!(maze.at(x, y).dist, Some(expected[y][x]));
        }
    }
}

#[test]
fn calc_dist_leaves_unreachable_cells_unset_and_forgets_old_distances() {
    let mut maze = Maze::<3>::default();
    maze.carve(Pos::new(0, 0), Direction::East);
    maze.at_mut(2, 2).dist = Some(77);
    let maze = maze.calc_dist(Pos::new(0, 0));
    assert_eq!(maze.at(0, 0).dist, Some(0));
    assert_eq!(maze.at(1, 0).dist, Some(1));
    for (x, y) in [(2, 0), (0, 1), (1, 1), (2, 1), (0, 2), (1, 2), (2, 2)] {
        assert_eq!(maze.at(x, y).dist, None);
    }
}

#[test]
fn calc_dist_keeps_walls_mask_path_and_end_points() {
    let mut maze = snake();
    maze.end = Pos::new(1, 2);
    maze.at_mut(1, 1).path = Some(true);
    let maze = maze.calc_dist(Pos::new(2, 2));
    assert_eq!(maze.start, Pos::new(0, 0));
    assert_eq!(maze.end, Pos::new(1, 2));
    assert_eq!(maze.at(1, 1).path, Some(true));
    assert!(maze.can_go(0, 0, Direction::East));
    assert!(!maze.can_go(0, 0, Direction::North));
    assert_eq!(maze.at(2, 2).dist, Some(0));
    assert_eq!(maze.at(0, 0).dist, Some(8));
}

#[test]
fn calc_dist_is_idempotent() {
    let once = snake().calc_dist(Pos::new(1, 1));
    let first = dists(&once);
    let twice = once.calc_dist(Pos::new(1, 1));
    assert_eq!(dists(&twice), first);
    assert_eq!(dists(&snake().calc_dist(Pos::new(1, 1))), first);
}

#[test]
fn measure_works_in_place() {
    let mut maze = snake();
    maze.measure(Pos::new(2, 2));
    assert_eq!(maze.at(0, 0).dist, Some(8));
    assert_eq!(maze.at(2, 2).dist, Some(0));
}

#[test]
fn shortist_path_marks_the_whole_snake() {
    let maze = snake().calc_dist(Pos::new(0, 0));
    let solved = maze.shortist_path().expect("the end is reachable");
    for y in 0..3 {
        for x in 0..3 {
            assert_eq!(solved.at(x, y).path, Some(true));
        }
    }
}

#[test]
fn shortist_path_marks_a_chain_as_long_as_the_distance() {
    let mut maze = snake();
    maze.start = Pos::new(2, 0);
    maze.end = Pos::new(0, 1);
    let maze = maze.calc_dist(Pos::new(2, 0));
    assert_eq!(maze.at(0, 1).dist, Some(3));
    let solved = maze.shortist_path().expect("the end is reachable");
    let marked: Vec<(usize, usize)> = (0..9)
        .map(|i| (i % 3, i / 3))
        .filter(|(x, y)| solved.at(*x, *y).path == Some(true))
        .collect();
    assert_eq!(marked, vec![(2, 0), (0, 1), (1, 1), (2, 1)]);
    assert_eq!(marked.len() - 1, 3);
}

#[test]
fn shortist_path_prefers_west_then_east_then_south_then_north() {
    let mut maze = open_field();
    maze.start = Pos::new(0, 0);
    maze.end = Pos::new(2, 2);
    let maze = maze.calc_dist(Pos::new(0, 0));
    let solved = maze.shortist_path().expect("the end is reachable");
    let marked: Vec<(usize, usize)> = (0..9)
        .map(|i| (i % 3, i / 3))
        .filter(|(x, y)| solved.at(*x, *y).path == Some(true))
        .collect();
    assert_eq!(marked, vec![(0, 0), (0, 1), (0, 2), (1, 2), (2, 2)]);
}

#[test]
fn shortist_path_fails_without_distances_and_keeps_the_partial_marks() {
    let stuck = snake().shortist_path().expect_err("no distances were computed");
    assert_eq!(stuck.at, Pos::new(2, 2));
    assert_eq!(stuck.maze.at(2, 2).path, Some(true));
    assert_eq!(stuck.maze.at(1, 2).path, None);
}

#[test]
fn shortist_path_fails_where_distances_come_from_the_wrong_seed() {
    let mut maze = snake();
    maze.start = Pos::new(0, 0);
    maze.end = Pos::new(2, 2);
    let maze = maze.calc_dist(Pos::new(2, 1));
    let stuck = maze.shortist_path().expect_err("the distances lead elsewhere");
    assert_eq!(stuck.at, Pos::new(2, 1));
    assert_eq!(stuck.maze.at(2, 2).path, Some(true));
    assert_eq!(stuck.maze.at(0, 1).path, Some(true));
    assert_eq!(stuck.maze.at(2, 1).path, Some(true));
    assert_eq!(stuck.maze.at(2, 0).path, None);
}

#[test]
fn one_by_one_grid_is_solved_in_zero_steps() {
    let mut maze = Maze::<1>::default();
    assert_eq!(maze.start, Pos::new(0, 0));
    assert_eq!(maze.end, Pos::new(0, 0));
    assert_eq!(maze.calc_longest(), Some((Pos::new(0, 0), Pos::new(0, 0))));
    assert_eq!(maze.at(0, 0).dist, Some(0));
    let solved = maze.shortist_path().expect("start and end coincide");
    assert_eq!(solved.at(0, 0).path, Some(true));
    assert!(!solved.at(0, 0).up && !solved.at(0, 0).right);
}

#[test]
fn farthest_takes_the_first_of_equally_far_cells() {
    let maze = open_field().calc_dist(Pos::new(1, 1));
    assert_eq!(maze.farthest(), Pos::new(0, 0));
    let maze = snake().calc_dist(Pos::new(1, 1));
    assert_eq!(maze.farthest(), Pos::new(0, 0));
}

#[test]
fn calc_longest_finds_the_ends_of_the_snake() {
    let mut maze = snake();
    let ends = maze.calc_longest();
    assert_eq!(ends, Some((Pos::new(0, 0), Pos::new(2, 2))));
    assert_eq!(maze.start, Pos::new(0, 0));
    assert_eq!(maze.end, Pos::new(2, 2));
    assert_eq!(maze.at(0, 0).dist, Some(0));
    assert_eq!(maze.at(2, 2).dist, Some(8));
    let solved = maze.shortist_path().expect("distances are those from the start");
    assert_eq!(solved.at(1, 1).path, Some(true));
}

#[test]
fn longest_from_gives_the_same_pair_from_every_first_cell() {
    for first in [Pos::new(0, 0), Pos::new(1, 1), Pos::new(2, 1), Pos::new(0, 2)] {
        let mut maze = snake();
        let (start, end) = maze.longest_from(first);
        let mut pair = [(start.x, start.y), (end.x, end.y)];
        pair.sort();
        assert_eq!(pair, [(0, 0), (2, 2)]);
    }
}

#[test]
fn calc_longest_without_a_free_cell_gives_nothing() {
    let mut maze = Maze::<2>::default();
    for y in 0..2 {
        for x in 0..2 {
            maze.set_masked(x, y, true);
        }
    }
    assert_eq!(maze.calc_longest(), None);
    assert_eq!(maze.start, Pos::new(0, 0));
    assert_eq!(maze.at(0, 0).dist, None);
}
