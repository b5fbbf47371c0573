use maze_engine::maze::{Direction, Maze, Pos};
use maze_engine::random::Dice;
use maze_engine::search::broader;

/// A 6x6 grid with a notch cut out of two corners.
fn notched() -> Maze<6> {
    let mut maze = Maze::<6>::default();
    for (x, y) in [(0, 0), (1, 0), (0, 1), (5, 5), (4, 5)] {
        maze.set_masked(x, y, true);
    }
    maze
}

/// The distance between the end points that the search for the longest way
/// finds in the maze carved from `seed`.
fn breadth_by_hand(seed: u64) -> u32 {
    let mut dice = Dice::new(seed);
    let mut carved = match notched().hunt_and_kill(&mut dice) {
        Ok(carved) => carved,
        Err(_) => panic!("the mask is connected"),
    };
    let (start, end) = carved.calc_longest().expect("there are free cells");
    assert_eq!(carved.at_pos(start).dist, Some(0));
    carved.at_pos(end).dist.expect("the end is reached")
}

#[test]
fn broader_keeps_the_earlier_seed_unless_the_new_one_is_better() {
    assert_eq!(broader(None, 4, 0), Some((4, 0)));
    assert_eq!(broader(Some((1, 10)), 2, 10), Some((1, 10)));
    assert_eq!(broader(Some((1, 10)), 2, 9), Some((1, 10)));
    assert_eq!(broader(Some((1, 10)), 2, 11), Some((2, 11)));
}

#[test]
fn clone_copies_cells_and_end_points_into_a_maze_of_its_own() {
    let mut maze = notched();
    maze.carve(Pos::new(2, 2), Direction::East);
    maze.at_mut(3, 3).dist = Some(4);
    maze.start = Pos::new(2, 0);
    let mut copy = maze.clone();
    assert_eq!(copy.start, Pos::new(2, 0));
    assert_eq!(copy.end, Pos::new(5, 5));
    for y in 0..6 {
        for x in 0..6 {
            let (ours, theirs) = (maze.at(x, y), copy.at(x, y));
            assert_eq!(
                (ours.up, ours.right, ours.dist, ours.path, ours.masked),
                (theirs.up, theirs.right, theirs.dist, theirs.path, theirs.masked)
            );
        }
    }
    copy.carve(Pos::new(4, 4), Direction::North);
    assert!(!maze.at(4, 4).up);
}

#[test]
fn breadth_from_seed_measures_the_carved_maze_and_keeps_its_own() {
    let maze = notched();
    for seed in [0, 1, 17] {
        assert_eq!(maze.breadth_from_seed(seed), Some(breadth_by_hand(seed)));
    }
    for y in 0..6 {
        for x in 0..6 {
            assert!(!maze.at(x, y).up && !maze.at(x, y).right);
        }
    }
}

#[test]
fn breadth_of_a_single_cell_is_zero() {
    assert_eq!(Maze::<1>::default().breadth_from_seed(5), Some(0));
}

#[test]
fn breadth_of_a_corridor_is_its_length() {
    let mut maze = Maze::<4>::default();
    for y in 1..4 {
        for x in 0..4 {
            maze.set_masked(x, y, true);
        }
    }
    assert_eq!(maze.breadth_from_seed(0), Some(3));
    assert_eq!(maze.broadest_seed(3), Some((0, 3)));
}

#[test]
fn broadest_seed_is_the_first_of_the_best() {
    let tries = 40;
    let breadths: Vec<u32> = (0..tries).map(breadth_by_hand).collect();
    let most = *breadths.iter().max().unwrap();
    let first = breadths.iter().position(|b| *b == most).unwrap() as u64;
    assert!(breadths.iter().any(|b| *b < most));
    assert_eq!(notched().broadest_seed(tries), Some((first, most)));
}

#[test]
fn broadest_seed_finds_nothing_without_tries_or_without_a_connected_mask() {
    assert_eq!(notched().broadest_seed(0), None);
    let mut split = Maze::<3>::default();
    for y in 0..3 {
        split.set_masked(1, y, true);
    }
    assert_eq!(split.broadest_seed(10), None);
    assert_eq!(split.breadth_from_seed(1), None);
}
