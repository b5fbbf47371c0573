use maze_engine::generate::{Flaw, Refused};
use maze_engine::growth::Growth;
use maze_engine::maze::{Direction, Maze, Pos};
use maze_engine::walker::{advance, position};
use maze_engine::random::Dice;

const ALL: [Direction; 4] = [Direction::North, Direction::East, Direction::South, Direction::West];

fn free_cells<const S: usize>(maze: &Maze<S>) -> usize {
    maze.all_cells().iter().filter(|cell| !cell.masked).count()
}

fn open_walls<const S: usize>(maze: &Maze<S>) -> usize {
    let mut count = 0;
    for y in 0..S {
        for x in 0..S {
            if maze.can_go(x, y, Direction::North) {
                count += 1;
            }
            if maze.can_go(x, y, Direction::East) {
                count += 1;
            }
        }
    }
    count
}

/// One wall fewer than free cells, every free cell reached from the first
/// one, no wall flag on or towards a masked cell or the border: together
/// these say that the walls form a spanning tree.
fn assert_spanning_tree<const S: usize>(maze: Maze<S>) {
    assert_eq!(open_walls(&maze) + 1, free_cells(&maze));
    for y in 0..S {
        for x in 0..S {
            let cell = maze.at(x, y);
            if cell.up {
                assert!(!cell.masked && y + 1 < S && !maze.at(x, y + 1).masked);
            }
            if cell.right {
                assert!(!cell.masked && x + 1 < S && !maze.at(x + 1, y).masked);
            }
            if cell.masked {
                for direction in ALL {
                    assert!(!maze.can_go(x, y, direction));
                }
            }
            assert_eq!((cell.dist, cell.path), (None, None));
        }
    }
    let free: Vec<Pos> = Maze::<S>::all_pos()
        .into_iter()
        .filter(|pos| !maze.at_pos(*pos).masked)
        .collect();
    assert_eq!(maze.start, free[0]);
    assert_eq!(maze.end, free[free.len() - 1]);
    let first = maze.first_free().expect("a carved maze has a free cell");
    let measured = maze.calc_dist(first);
    for cell in measured.all_cells() {
        assert_eq!(cell.dist.is_some(), !cell.masked);
    }
}

fn walls<const S: usize>(maze: &Maze<S>) -> Vec<(bool, bool)> {
    maze.all_cells().iter().map(|cell| (cell.up, cell.right)).collect()
}

fn unwrap<const S: usize>(made: Result<Maze<S>, Refused<S>>) -> Maze<S> {
    match made {
        Ok(maze) => maze,
        Err(refused) => panic!("refused: {:?}", refused.flaw),
    }
}

/// An 8x8 grid with a ragged mask that leaves one connected area.
fn ragged() -> Maze<8> {
    let mut maze = Maze::<8>::default();
    for (x, y) in [(0, 0), (1, 0), (7, 7), (3, 3), (3, 4), (4, 3), (6, 1), (6, 2), (0, 5), (1, 5), (2, 5)] {
        maze.set_masked(x, y, true);
    }
    maze
}

/// A 5x5 grid whose row 2 is masked but for the cell in column 3.
fn bridged() -> Maze<5> {
    let mut maze = Maze::<5>::default();
    for x in [0, 1, 2, 4] {
        maze.set_masked(x, 2, true);
    }
    maze
}

#[test]
fn binary_tree_carves_a_spanning_tree() {
    for seed in 0..20 {
        let mut dice = Dice::new(seed);
        assert_spanning_tree(unwrap(Maze::<7>::default().binary_tree(&mut dice)));
    }
}

#[test]
fn binary_tree_opens_exactly_north_or_east() {
    let mut dice = Dice::new(3);
    let maze = unwrap(Maze::<6>::default().binary_tree(&mut dice));
    for y in 0..6 {
        for x in 0..6 {
            let cell = maze.at(x, y);
            match (x == 5, y == 5) {
                (true, true) => assert!(!cell.up && !cell.right),
                (true, false) => assert!(cell.up && !cell.right),
                (false, true) => assert!(!cell.up && cell.right),
                (false, false) => assert!(cell.up != cell.right),
            }
        }
    }
}

#[test]
fn binary_tree_refuses_a_masked_grid_untouched() {
    let mut maze = Maze::<4>::default();
    maze.set_masked(2, 1, true);
    maze.at_mut(0, 0).dist = Some(9);
    let mut dice = Dice::new(1);
    let refused = maze.binary_tree(&mut dice).expect_err("masks are not supported");
    assert_eq!(refused.flaw, Flaw::Masked);
    assert!(refused.maze.at(2, 1).masked);
    assert_eq!(refused.maze.at(0, 0).dist, Some(9));
    assert_eq!(open_walls(&refused.maze), 0);
}

#[test]
fn carve_binary_follows_the_coin_but_for_the_border() {
    let mut maze = Maze::<3>::default();
    maze.carve_binary(Pos::new(0, 0), true);
    maze.carve_binary(Pos::new(1, 0), false);
    maze.carve_binary(Pos::new(2, 0), false);
    maze.carve_binary(Pos::new(0, 2), true);
    maze.carve_binary(Pos::new(2, 2), true);
    assert_eq!((maze.at(0, 0).up, maze.at(0, 0).right), (true, false));
    assert_eq!((maze.at(1, 0).up, maze.at(1, 0).right), (false, true));
    assert_eq!((maze.at(2, 0).up, maze.at(2, 0).right), (true, false));
    assert_eq!((maze.at(0, 2).up, maze.at(0, 2).right), (false, true));
    assert_eq!((maze.at(2, 2).up, maze.at(2, 2).right), (false, false));
}

#[test]
fn sidewinder_carves_a_spanning_tree() {
    for seed in 0..20 {
        let mut dice = Dice::new(seed);
        assert_spanning_tree(unwrap(Maze::<7>::default().sidewinder(&mut dice)));
    }
}

#[test]
fn sidewinder_joins_the_whole_top_row() {
    let mut dice = Dice::new(11);
    let maze = unwrap(Maze::<6>::default().sidewinder(&mut dice));
    for x in 0..6 {
        assert!(!maze.at(x, 5).up);
        assert_eq!(maze.at(x, 5).right, x < 5);
    }
    for y in 0..5 {
        assert!(!maze.at(5, y).right);
    }
}

#[test]
fn sidewinder_refuses_a_masked_grid_untouched() {
    let mut maze = Maze::<4>::default();
    maze.set_masked(0, 0, true);
    let mut dice = Dice::new(1);
    let refused = maze.sidewinder(&mut dice).expect_err("masks are not supported");
    assert_eq!(refused.flaw, Flaw::Masked);
    assert!(refused.maze.at(0, 0).masked);
    assert_eq!(open_walls(&refused.maze), 0);
}

#[test]
fn wind_ends_a_run_at_the_picked_cell() {
    let mut maze = Maze::<4>::default();
    assert_eq!(maze.wind(Pos::new(0, 0), 1, false, 0), 1);
    assert_eq!(maze.wind(Pos::new(1, 0), 2, false, 0), 2);
    assert_eq!(maze.wind(Pos::new(2, 0), 3, true, 2), 0);
    assert_eq!(maze.wind(Pos::new(3, 0), 1, false, 0), 0);
    let row: Vec<(bool, bool)> = (0..4).map(|x| (maze.at(x, 0).up, maze.at(x, 0).right)).collect();
    assert_eq!(row, vec![(true, true), (false, true), (false, false), (true, false)]);
}

#[test]
fn wind_only_extends_in_the_top_row() {
    let mut maze = Maze::<3>::default();
    assert_eq!(maze.wind(Pos::new(0, 2), 1, true, 0), 1);
    assert_eq!(maze.wind(Pos::new(1, 2), 2, true, 1), 2);
    assert_eq!(maze.wind(Pos::new(2, 2), 3, true, 2), 3);
    let row: Vec<(bool, bool)> = (0..3).map(|x| (maze.at(x, 2).up, maze.at(x, 2).right)).collect();
    assert_eq!(row, vec![(false, true), (false, true), (false, false)]);
}

#[test]
fn hunt_and_kill_carves_a_spanning_tree() {
    for seed in 0..20 {
        let mut dice = Dice::new(seed);
        assert_spanning_tree(unwrap(Maze::<7>::default().hunt_and_kill(&mut dice)));
    }
}

#[test]
fn hunt_and_kill_carves_a_spanning_tree_over_a_mask() {
    for seed in 0..20 {
        let mut dice = Dice::new(seed);
        assert_spanning_tree(unwrap(ragged().hunt_and_kill(&mut dice)));
    }
}

#[test]
fn hunt_and_kill_refuses_a_split_mask_untouched() {
    let mut maze = Maze::<3>::default();
    for y in 0..3 {
        maze.set_masked(1, y, true);
    }
    let mut dice = Dice::new(5);
    let refused = maze.hunt_and_kill(&mut dice).expect_err("the mask splits the grid");
    assert_eq!(refused.flaw, Flaw::Disconnected);
    assert_eq!(open_walls(&refused.maze), 0);
    assert!(refused.maze.at(1, 1).masked);
}

#[test]
fn walker_carves_a_spanning_tree() {
    for seed in 0..20 {
        let mut dice = Dice::new(seed);
        assert_spanning_tree(unwrap(Maze::<7>::default().walker(&mut dice)));
    }
}

#[test]
fn walker_carves_a_spanning_tree_over_a_mask() {
    for seed in 0..20 {
        let mut dice = Dice::new(seed);
        assert_spanning_tree(unwrap(ragged().walker(&mut dice)));
    }
}

#[test]
fn walker_connects_both_halves_through_a_single_connector() {
    for seed in 0..20 {
        let mut dice = Dice::new(seed);
        let maze = unwrap(bridged().walker(&mut dice));
        assert!(maze.can_go(3, 1, Direction::North));
        assert!(maze.can_go(3, 2, Direction::North));
        assert!(!maze.at(3, 2).right);
        assert!(!maze.can_go(3, 2, Direction::West));
        assert_spanning_tree(maze);
    }
}

#[test]
fn walker_refuses_a_split_mask_untouched() {
    let mut maze = Maze::<5>::default();
    for x in 0..5 {
        maze.set_masked(x, 2, true);
    }
    let mut dice = Dice::new(5);
    let refused = maze.walker(&mut dice).expect_err("the mask splits the grid");
    assert_eq!(refused.flaw, Flaw::Disconnected);
    assert_eq!(open_walls(&refused.maze), 0);
}

#[test]
fn walker_refuses_a_grid_without_free_cells() {
    let mut maze = Maze::<1>::default();
    maze.set_masked(0, 0, true);
    let mut dice = Dice::new(5);
    let refused = maze.walker(&mut dice).expect_err("nothing to carve");
    assert_eq!(refused.flaw, Flaw::Disconnected);
}

#[test]
fn walker_without_budget_still_carves_a_spanning_tree() {
    for budget in [0, 1, 3] {
        let mut dice = Dice::new(8);
        assert_spanning_tree(unwrap(ragged().walker_within(&mut dice, budget)));
    }
}

#[test]
fn generation_on_a_one_by_one_grid_changes_nothing() {
    let mut dice = Dice::new(2);
    for pass in 0..4 {
        let maze = Maze::<1>::default();
        let made = match pass {
            0 => maze.binary_tree(&mut dice),
            1 => maze.sidewinder(&mut dice),
            2 => maze.hunt_and_kill(&mut dice),
            _ => maze.walker(&mut dice),
        };
        let maze = unwrap(made);
        assert!(!maze.at(0, 0).up && !maze.at(0, 0).right);
        assert_eq!(maze.start, Pos::new(0, 0));
        assert_eq!(maze.end, Pos::new(0, 0));
    }
}

#[test]
fn carving_seats_the_end_points_on_the_first_and_last_free_cell() {
    let mut dice = Dice::new(1);
    let carved = unwrap(ragged().walker(&mut dice));
    assert_eq!(carved.start, Pos::new(2, 0));
    assert_eq!(carved.end, Pos::new(6, 7));
    let carved = unwrap(ragged().hunt_and_kill(&mut dice));
    assert_eq!(carved.start, Pos::new(2, 0));
    assert_eq!(carved.end, Pos::new(6, 7));
    let mut moved = Maze::<4>::default();
    moved.start = Pos::new(2, 2);
    moved.end = Pos::new(1, 1);
    let carved = unwrap(moved.sidewinder(&mut dice));
    assert_eq!(carved.start, Pos::new(0, 0));
    assert_eq!(carved.end, Pos::new(3, 3));
}

#[test]
fn same_mask_and_seed_give_the_same_walls() {
    for seed in [0, 1, 2, 99] {
        let mut first = Dice::new(seed);
        let mut second = Dice::new(seed);
        assert_eq!(
            walls(&unwrap(ragged().walker(&mut first))),
            walls(&unwrap(ragged().walker(&mut second)))
        );
        let mut first = Dice::new(seed);
        let mut second = Dice::new(seed);
        assert_eq!(
            walls(&unwrap(ragged().hunt_and_kill(&mut first))),
            walls(&unwrap(ragged().hunt_and_kill(&mut second)))
        );
    }
}

#[test]
fn every_generator_repeats_itself_on_equal_dice() {
    for seed in [7, 8, 9] {
        let mut first = Dice::new(seed);
        let mut second = Dice::new(seed);
        assert_eq!(
            walls(&unwrap(Maze::<6>::default().binary_tree(&mut first))),
            walls(&unwrap(Maze::<6>::default().binary_tree(&mut second)))
        );
        assert_eq!(first, second);
        assert_eq!(
            walls(&unwrap(Maze::<6>::default().sidewinder(&mut first))),
            walls(&unwrap(Maze::<6>::default().sidewinder(&mut second)))
        );
        assert_eq!(first, second);
        assert_eq!(
            walls(&unwrap(bridged().walker_within(&mut first, 5))),
            walls(&unwrap(bridged().walker_within(&mut second, 5)))
        );
        assert_eq!(first, second);
        assert!(first.drawn > 0);
    }
}

#[test]
fn a_refused_maze_leaves_the_dice_alone() {
    let mut dice = Dice::new(3);
    dice.coin();
    let before = dice;
    let mut split = Maze::<3>::default();
    for y in 0..3 {
        split.set_masked(1, y, true);
    }
    assert!(split.clone().binary_tree(&mut dice).is_err());
    assert!(split.clone().sidewinder(&mut dice).is_err());
    assert!(split.clone().hunt_and_kill(&mut dice).is_err());
    assert!(split.walker(&mut dice).is_err());
    assert_eq!(dice, before);
}

#[test]
fn earlier_walls_do_not_influence_generation() {
    let mut dice = Dice::new(4);
    let once = unwrap(ragged().walker(&mut dice));
    let again = {
        let mut dice = Dice::new(4);
        let mut other_dice = Dice::new(123);
        let carved = unwrap(ragged().hunt_and_kill(&mut other_dice));
        unwrap(carved.walker(&mut dice))
    };
    assert_eq!(walls(&once), walls(&again));
}

#[test]
fn different_seeds_give_different_mazes() {
    let mut seen = Vec::new();
    for seed in 0..8 {
        let mut dice = Dice::new(seed);
        seen.push(walls(&unwrap(Maze::<8>::default().walker(&mut dice))));
    }
    seen.sort();
    seen.dedup();
    assert!(seen.len() > 1);
}

#[test]
fn sidewinder_with_a_fixed_seed_reproduces_the_golden_grid() {
    let mut dice = Dice::new(12345);
    let maze = unwrap(Maze::<5>::default().sidewinder(&mut dice));
    let mut rows = Vec::new();
    for y in (0..5).rev() {
        let mut row = String::new();
        for x in 0..5 {
            let cell = maze.at(x, y);
            row.push(match (cell.up, cell.right) {
                (false, false) => '.',
                (true, false) => '^',
                (false, true) => '>',
                (true, true) => '+',
            });
        }
        rows.push(row);
    }
    assert_eq!(rows, vec![">>>>.", "^+.+.", "^^^^^", "^^^>^", ">^^>^"]);
}

#[test]
fn growth_attaches_leaves_and_hunts_in_row_major_order() {
    let mut maze = Maze::<3>::default();
    maze.set_masked(0, 0, true);
    let mut growth = Growth::begin(maze, Pos::new(1, 1));
    assert!(growth.known[1][1]);
    assert_eq!(growth.hunt(), Some((Pos::new(1, 0), Direction::North)));
    assert_eq!(growth.first_pending(), Some(Pos::new(1, 0)));
    assert_eq!(growth.touch(Pos::new(2, 1)), Some(Direction::West));
    assert_eq!(growth.touch(Pos::new(2, 2)), None);
    assert_eq!(
        growth.fresh_neighbours(Pos::new(1, 1)),
        vec![Direction::North, Direction::West, Direction::South, Direction::East]
    );
    growth.attach(Pos::new(1, 0), Direction::North);
    assert!(growth.known[0][1]);
    assert!(growth.maze.can_go(1, 0, Direction::North));
    assert_eq!(growth.first_pending(), Some(Pos::new(2, 0)));
    assert_eq!(growth.hunt(), Some((Pos::new(2, 0), Direction::West)));
    assert_eq!(
        growth.fresh_neighbours(Pos::new(1, 0)),
        vec![Direction::East]
    );
}

#[test]
fn kill_runs_until_boxed_in() {
    let mut dice = Dice::new(21);
    let mut growth = Growth::begin(Maze::<4>::default(), Pos::new(0, 0));
    let at = growth.kill(&mut dice, Pos::new(0, 0));
    assert!(growth.known[at.y][at.x]);
    assert!(growth.fresh_neighbours(at).is_empty());
    let known = growth.known.iter().flatten().filter(|k| **k).count();
    assert!(known >= 3);
    assert_eq!(open_walls(&growth.maze) + 1, known);
}

#[test]
fn wander_and_graft_add_a_loop_free_walk_to_the_tree() {
    let mut dice = Dice::new(6);
    let mut growth = Growth::begin(Maze::<4>::default(), Pos::new(0, 0));
    let (path, moves) = growth.wander(&mut dice, Pos::new(3, 3), 1_000_000);
    assert_eq!(path[0], Pos::new(3, 3));
    assert_eq!(*path.last().unwrap(), Pos::new(0, 0));
    assert_eq!(path.len(), moves.len() + 1);
    for (i, step) in moves.iter().enumerate() {
        assert_eq!(path[i].shift(*step), Some(path[i + 1]));
    }
    let mut cells: Vec<(usize, usize)> = path.iter().map(|p| (p.x, p.y)).collect();
    cells.sort();
    cells.dedup();
    assert_eq!(cells.len(), path.len());
    growth.graft(&path, &moves);
    for pos in &path {
        assert!(growth.known[pos.y][pos.x]);
    }
    assert_eq!(open_walls(&growth.maze), moves.len());
}

#[test]
fn wander_stops_when_the_budget_is_spent() {
    let mut dice = Dice::new(6);
    let growth = Growth::begin(Maze::<9>::default(), Pos::new(0, 0));
    let (path, moves) = growth.wander(&mut dice, Pos::new(8, 8), 2);
    assert!(path.len() <= 3);
    assert_eq!(path.len(), moves.len() + 1);
    let (path, _) = growth.wander(&mut dice, Pos::new(8, 8), 0);
    assert_eq!(path, vec![Pos::new(8, 8)]);
}

#[test]
fn round_carves_a_walk_or_joins_a_fringe_cell() {
    let mut dice = Dice::new(13);
    let mut growth = Growth::begin(Maze::<4>::default(), Pos::new(0, 0));
    growth.round(&mut dice, Pos::new(3, 3), 1_000_000);
    assert!(growth.known[3][3]);
    let known = growth.known.iter().flatten().filter(|k| **k).count();
    assert_eq!(open_walls(&growth.maze) + 1, known);

    let mut growth = Growth::begin(Maze::<4>::default(), Pos::new(0, 0));
    growth.round(&mut dice, Pos::new(3, 3), 0);
    assert!(!growth.known[3][3]);
    assert!(growth.known[0][1]);
    assert!(growth.maze.can_go(0, 0, Direction::East));
    assert_eq!(open_walls(&growth.maze), 1);
}

#[test]
fn position_finds_the_first_occurrence() {
    let path = vec![Pos::new(0, 0), Pos::new(1, 0), Pos::new(1, 1), Pos::new(1, 0)];
    assert_eq!(position(&path, Pos::new(1, 0)), Some(1));
    assert_eq!(position(&path, Pos::new(0, 0)), Some(0));
    assert_eq!(position(&path, Pos::new(2, 2)), None);
}

#[test]
fn advance_appends_a_new_cell() {
    let mut path = vec![Pos::new(0, 0), Pos::new(1, 0)];
    let mut moves = vec![Direction::East];
    advance(&mut path, &mut moves, Direction::North, Pos::new(1, 1));
    assert_eq!(path, vec![Pos::new(0, 0), Pos::new(1, 0), Pos::new(1, 1)]);
    assert_eq!(moves, vec![Direction::East, Direction::North]);
}

#[test]
fn advance_erases_the_loop_it_closes() {
    let mut path = vec![Pos::new(0, 0), Pos::new(1, 0), Pos::new(1, 1), Pos::new(0, 1)];
    let mut moves = vec![Direction::East, Direction::North, Direction::West];
    advance(&mut path, &mut moves, Direction::South, Pos::new(0, 0));
    assert_eq!(path, vec![Pos::new(0, 0)]);
    assert_eq!(moves, Vec::<Direction>::new());
    let mut path = vec![Pos::new(0, 0), Pos::new(1, 0), Pos::new(1, 1), Pos::new(2, 1), Pos::new(2, 0)];
    let mut moves = vec![Direction::East, Direction::North, Direction::East, Direction::South];
    advance(&mut path, &mut moves, Direction::West, Pos::new(1, 0));
    assert_eq!(path, vec![Pos::new(0, 0), Pos::new(1, 0)]);
    assert_eq!(moves, vec![Direction::East]);
}
