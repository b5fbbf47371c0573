use maze_engine::maze::{Cell, Direction, Maze, Pos};

#[test]
fn pos_shift_moves_one_step() {
    let p = Pos::new(3, 4);
    assert_eq!(p.shift(Direction::North), Some(Pos::new(3, 5)));
    assert_eq!(p.shift(Direction::East), Some(Pos::new(4, 4)));
    assert_eq!(p.shift(Direction::South), Some(Pos::new(3, 3)));
    assert_eq!(p.shift(Direction::West), Some(Pos::new(2, 4)));
}

#[test]
fn pos_shift_is_absent_where_the_index_would_leave_its_range() {
    assert_eq!(Pos::new(0, 7).shift(Direction::West), None);
    assert_eq!(Pos::new(7, 0).shift(Direction::South), None);
    assert_eq!(Pos::new(usize::MAX, 0).shift(Direction::East), None);
    assert_eq!(Pos::new(0, usize::MAX).shift(Direction::North), None);
}

#[test]
fn pos_default_is_the_origin() {
    assert_eq!(Pos::default(), Pos::new(0, 0));
}

#[test]
fn direction_opposite_undoes_a_step() {
    assert_eq!(Direction::North.opposite(), Direction::South);
    assert_eq!(Direction::East.opposite(), Direction::West);
    assert_eq!(Direction::South.opposite(), Direction::North);
    assert_eq!(Direction::West.opposite(), Direction::East);
}

#[test]
fn cell_constructors_set_the_walls_only() {
    let blank = Cell::blank();
    assert!(!blank.up && !blank.right && !blank.masked);
    assert_eq!((blank.dist, blank.path), (None, None));
    let cell = Cell::new(true, false);
    assert!(cell.up && !cell.right && !cell.masked);
    assert_eq!((cell.dist, cell.path), (None, None));
    let cell = Cell::default();
    assert!(!cell.up && !cell.right && !cell.masked);
}

#[test]
fn set_and_the_accessors_agree() {
    let mut maze = Maze::<3>::default();
    let mut cell = Cell::new(true, true);
    cell.dist = Some(5);
    maze.set(1, 2, cell);
    assert_eq!(maze.at(1, 2).dist, Some(5));
    assert!(maze.at_pos(Pos::new(1, 2)).up);
    assert!(maze.at_opt(1, 2).unwrap().right);
    assert!(maze.at_pos_opt(Pos::new(1, 2)).unwrap().up);
    assert!(!maze.at(2, 1).up);
    maze.at_mut(2, 1).up = true;
    assert!(maze.at(2, 1).up);
    maze.at_pos_mut(Pos::new(0, 0)).path = Some(false);
    assert_eq!(maze.at(0, 0).path, Some(false));
}

#[test]
fn optional_accessors_are_absent_off_the_grid() {
    let maze = Maze::<3>::default();
    assert!(maze.at_opt(3, 0).is_none());
    assert!(maze.at_opt(0, 3).is_none());
    assert!(maze.at_pos_opt(Pos::new(3, 3)).is_none());
    assert!(maze.at_opt(2, 2).is_some());
}

#[test]
fn can_go_reads_own_flag_north_and_east_and_the_neighbours_south_and_west() {
    let mut maze = Maze::<3>::default();
    maze.set(1, 1, Cell::new(true, true));
    assert!(maze.can_go(1, 1, Direction::North));
    assert!(maze.can_go(1, 1, Direction::East));
    assert!(!maze.can_go(1, 1, Direction::South));
    assert!(!maze.can_go(1, 1, Direction::West));
    assert!(maze.can_go(1, 2, Direction::South));
    assert!(maze.can_go(2, 1, Direction::West));
    assert!(!maze.can_go(1, 2, Direction::North));
}

#[test]
fn can_go_is_false_at_the_border_whatever_the_flags() {
    let mut maze = Maze::<2>::default();
    maze.set(1, 1, Cell::new(true, true));
    maze.set(0, 0, Cell::new(false, false));
    assert!(!maze.can_go(1, 1, Direction::North));
    assert!(!maze.can_go(1, 1, Direction::East));
    assert!(!maze.can_go(0, 0, Direction::South));
    assert!(!maze.can_go(0, 0, Direction::West));
}

#[test]
fn step_needs_a_free_neighbour_on_the_grid_and_ignores_walls() {
    let mut maze = Maze::<3>::default();
    maze.set_masked(1, 2, true);
    assert_eq!(maze.step(1, 1, Direction::East), Some((2, 1)));
    assert_eq!(maze.step(1, 1, Direction::West), Some((0, 1)));
    assert_eq!(maze.step(1, 1, Direction::South), Some((1, 0)));
    assert_eq!(maze.step(1, 1, Direction::North), None);
    assert_eq!(maze.step(0, 0, Direction::West), None);
    assert_eq!(maze.step(0, 0, Direction::South), None);
    assert_eq!(maze.step(2, 2, Direction::North), None);
    assert_eq!(maze.step(2, 2, Direction::East), None);
    assert!(!maze.can_go(1, 1, Direction::East));
}

#[test]
fn steps_from_lists_free_neighbours_north_west_south_east() {
    let mut maze = Maze::<3>::default();
    maze.set_masked(0, 1, true);
    assert_eq!(
        maze.steps_from(Pos::new(1, 1)),
        vec![Direction::North, Direction::South, Direction::East]
    );
    assert_eq!(maze.steps_from(Pos::new(0, 0)), vec![Direction::East]);
}

#[test]
fn carve_opens_the_wall_from_either_side() {
    let mut maze = Maze::<3>::default();
    maze.carve(Pos::new(1, 1), Direction::South);
    maze.carve(Pos::new(1, 1), Direction::West);
    assert!(maze.at(1, 0).up);
    assert!(maze.at(0, 1).right);
    assert!(!maze.at(1, 1).up && !maze.at(1, 1).right);
    assert!(maze.can_go(1, 1, Direction::South));
    assert!(maze.can_go(1, 0, Direction::North));
    assert!(maze.can_go(1, 1, Direction::West));
    assert!(maze.can_go(0, 1, Direction::East));
}

#[test]
fn set_masked_closes_the_walls_around_the_cell() {
    let mut maze = Maze::<3>::default();
    maze.carve(Pos::new(1, 1), Direction::North);
    maze.carve(Pos::new(1, 1), Direction::East);
    maze.carve(Pos::new(1, 1), Direction::South);
    maze.carve(Pos::new(1, 1), Direction::West);
    maze.carve(Pos::new(0, 0), Direction::East);
    maze.at_mut(1, 1).dist = Some(3);
    maze.set_masked(1, 1, true);
    assert!(maze.at(1, 1).masked);
    for direction in [Direction::North, Direction::East, Direction::South, Direction::West] {
        assert!(!maze.can_go(1, 1, direction));
    }
    assert!(maze.can_go(0, 0, Direction::East));
    assert_eq!(maze.at(1, 1).dist, Some(3));
    maze.set_masked(1, 1, false);
    assert!(!maze.at(1, 1).masked);
    assert!(!maze.can_go(1, 1, Direction::North));
}

#[test]
fn clear_path_forgets_scratch_values_only() {
    let mut maze = Maze::<2>::default();
    maze.carve(Pos::new(0, 0), Direction::East);
    maze.set_masked(1, 1, true);
    maze.at_mut(0, 0).dist = Some(1);
    maze.at_mut(1, 0).path = Some(true);
    maze.start = Pos::new(1, 0);
    let maze = maze.clear_path();
    assert_eq!(maze.at(0, 0).dist, None);
    assert_eq!(maze.at(1, 0).path, None);
    assert!(maze.at(0, 0).right);
    assert!(maze.at(1, 1).masked);
    assert_eq!(maze.start, Pos::new(1, 0));
}

#[test]
fn clear_closes_walls_and_resets_end_points_but_keeps_the_mask() {
    let mut maze = Maze::<2>::default();
    maze.carve(Pos::new(0, 0), Direction::East);
    maze.carve(Pos::new(0, 0), Direction::North);
    maze.set_masked(1, 1, true);
    maze.at_mut(0, 0).dist = Some(1);
    maze.at_mut(1, 0).path = Some(true);
    maze.start = Pos::new(1, 0);
    maze.end = Pos::new(0, 1);
    let maze = maze.clear();
    assert_eq!(maze.start, Pos::new(0, 0));
    assert_eq!(maze.end, Pos::new(1, 1));
    for y in 0..2 {
        for x in 0..2 {
            let cell = maze.at(x, y);
            assert!(!cell.up && !cell.right);
            assert_eq!((cell.dist, cell.path), (None, None));
            assert_eq!(cell.masked, (x, y) == (1, 1));
        }
    }
}

#[test]
fn all_pos_is_row_major() {
    let all = Maze::<3>::all_pos();
    assert_eq!(all.len(), 9);
    for (i, pos) in all.iter().enumerate() {
        assert_eq!(*pos, Pos::new(i % 3, i / 3));
    }
}

#[test]
fn all_cells_is_row_major() {
    let mut maze = Maze::<3>::default();
    maze.at_mut(2, 0).dist = Some(20);
    maze.at_mut(0, 1).dist = Some(1);
    let all = maze.all_cells();
    assert_eq!(all.len(), 9);
    assert_eq!(all[2].dist, Some(20));
    assert_eq!(all[3].dist, Some(1));
    assert_eq!(all[4].dist, None);
}

#[test]
fn first_free_skips_masked_cells_in_row_major_order() {
    let mut maze = Maze::<2>::default();
    assert_eq!(maze.first_free(), Some(Pos::new(0, 0)));
    maze.set_masked(0, 0, true);
    assert_eq!(maze.first_free(), Some(Pos::new(1, 0)));
    maze.set_masked(1, 0, true);
    assert_eq!(maze.first_free(), Some(Pos::new(0, 1)));
    maze.set_masked(0, 1, true);
    maze.set_masked(1, 1, true);
    assert_eq!(maze.first_free(), None);
}

#[test]
fn last_free_skips_masked_cells_from_the_far_end() {
    let mut maze = Maze::<2>::default();
    assert_eq!(maze.last_free(), Some(Pos::new(1, 1)));
    maze.set_masked(1, 1, true);
    assert_eq!(maze.last_free(), Some(Pos::new(0, 1)));
    maze.set_masked(0, 1, true);
    assert_eq!(maze.last_free(), Some(Pos::new(1, 0)));
    maze.set_masked(1, 0, true);
    maze.set_masked(0, 0, true);
    assert_eq!(maze.last_free(), None);
}

#[test]
fn seat_ends_moves_the_end_points_onto_free_cells_and_nothing_else() {
    let mut maze = Maze::<3>::default();
    maze.set_masked(0, 0, true);
    maze.set_masked(2, 2, true);
    maze.carve(Pos::new(1, 1), Direction::East);
    maze.at_mut(1, 1).dist = Some(2);
    maze.seat_ends();
    assert_eq!(maze.start, Pos::new(1, 0));
    assert_eq!(maze.end, Pos::new(1, 2));
    assert!(maze.at(1, 1).right);
    assert_eq!(maze.at(1, 1).dist, Some(2));

    let mut full = Maze::<1>::default();
    full.set_masked(0, 0, true);
    full.seat_ends();
    assert_eq!(full.start, Pos::new(0, 0));
    assert_eq!(full.end, Pos::new(0, 0));
}

#[test]
fn mask_connected_tells_one_area_from_two_and_from_none() {
    let mut maze = Maze::<3>::default();
    assert!(maze.mask_connected());
    maze.set_masked(1, 0, true);
    maze.set_masked(1, 1, true);
    assert!(maze.mask_connected());
    maze.set_masked(1, 2, true);
    assert!(!maze.mask_connected());
    let mut full = Maze::<2>::default();
    for y in 0..2 {
        for x in 0..2 {
            full.set_masked(x, y, true);
        }
    }
    assert!(!full.mask_connected());
}

#[test]
fn mask_connected_does_not_count_diagonal_neighbours() {
    let mut maze = Maze::<2>::default();
    maze.set_masked(1, 0, true);
    maze.set_masked(0, 1, true);
    assert!(!maze.mask_connected());
}

#[test]
fn any_masked_finds_a_single_masked_cell() {
    let mut maze = Maze::<3>::default();
    assert!(!maze.any_masked());
    maze.set_masked(2, 2, true);
    assert!(maze.any_masked());
}
