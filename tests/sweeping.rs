use fast_sweeping::{
    fast_sweeping, perform_sweeps, sweep_pass, try_fast_sweeping, Sweep, DimensionMismatch, DistanceField, DistanceFieldAlgorithm,
    Grid, NaiveFastSweepingMethod, Obstacles,
};

const INF: u64 = DistanceField::MAX_DISTANCE;

fn example_obstacles_640x480(obstacles: &mut Obstacles) {
    for y in 100..200 {
        obstacles.set_at(100, y, true);
    }
    for x in 100..400 {
        obstacles.set_at(x, 200, true);
    }
    for x in 100..200 {
        obstacles.set_at(400 + x, 200 + x, true);
    }
}

fn distances(field: &DistanceField) -> Vec<u64> {
    field.iter().copied().collect()
}

fn solve(obstacles: &Obstacles, step: u64, rounds: usize) -> DistanceField {
    let mut field = DistanceField::from(obstacles);
    fast_sweeping(&mut field, obstacles, step, rounds);
    field
}

#[test]
fn fast_sweeping_it_works() {
    let mut obstacles = Obstacles::new(640, 480);
    example_obstacles_640x480(&mut obstacles);

    let mut distance_field = DistanceField::from(&obstacles);

    let naive = NaiveFastSweepingMethod::new(1, 5);
    naive.calculate_distance_field(&mut distance_field, &obstacles);

    assert_eq!(*distance_field.get_at(100, 150), 0);
    assert_eq!(*distance_field.get_at(100, 210), 10);
    assert!(distance_field.iter().all(|&d| d != INF));
}

#[test]
fn lib_it_works() {
    let mut obstacles = Obstacles::new(640, 480);
    example_obstacles_640x480(&mut obstacles);

    let mut distance_field = DistanceField::from(&obstacles);

    fast_sweeping(&mut distance_field, &obstacles, 1, 5);

    assert_eq!(*distance_field.get_at(250, 200), 0);
    assert_eq!(*distance_field.get_at(250, 195), 5);
}

#[test]
fn both_entry_points_agree() {
    let mut obstacles = Obstacles::new(64, 48);
    obstacles.set_at(10, 10, true);
    obstacles.set_at(50, 30, true);
    let direct = solve(&obstacles, 3, 4);
    let mut via_method = DistanceField::from(&obstacles);
    NaiveFastSweepingMethod::new(3, 4).calculate_distance_field(&mut via_method, &obstacles);
    assert_eq!(distances(&direct), distances(&via_method));
}

#[test]
fn single_obstacle_in_five_by_five() {
    let mut obstacles = Obstacles::new(5, 5);
    obstacles.set_at(2, 2, true);
    let field = solve(&obstacles, 1, 3);
    assert_eq!(*field.get_at(2, 2), 0);
    for (x, y) in [(1, 2), (3, 2), (2, 1), (2, 3)] {
        assert_eq!(*field.get_at(x, y), 1);
    }
    for (x, y) in [(1, 1), (3, 1), (1, 3), (3, 3)] {
        assert_eq!(*field.get_at(x, y), 2);
    }
    for (x, y) in [(0, 0), (0, 4), (4, 0), (4, 4)] {
        assert_eq!(*field.get_at(x, y), 4);
    }
}

#[test]
fn step_size_scales_distances() {
    let mut obstacles = Obstacles::new(5, 5);
    obstacles.set_at(2, 2, true);
    let field = solve(&obstacles, 10, 3);
    assert_eq!(*field.get_at(2, 1), 10);
    assert_eq!(*field.get_at(0, 0), 40);
    assert_eq!(*field.get_at(4, 3), 30);
}

#[test]
fn distances_never_increase_between_rounds() {
    let mut obstacles = Obstacles::new(9, 7);
    obstacles.set_at(8, 6, true);
    obstacles.set_at(0, 3, true);
    let mut previous = distances(&solve(&obstacles, 2, 0));
    for rounds in 1..6 {
        let current = distances(&solve(&obstacles, 2, rounds));
        for (now, before) in current.iter().zip(previous.iter()) {
            assert!(now <= before);
        }
        previous = current;
    }
}

#[test]
fn obstacle_cells_stay_at_zero() {
    let mut obstacles = Obstacles::new(6, 4);
    obstacles.set_at(0, 0, true);
    obstacles.set_at(5, 3, true);
    obstacles.set_at(3, 1, true);
    for rounds in 0..4 {
        let field = solve(&obstacles, 7, rounds);
        assert_eq!(*field.get_at(0, 0), 0);
        assert_eq!(*field.get_at(5, 3), 0);
        assert_eq!(*field.get_at(3, 1), 0);
    }
}

#[test]
fn no_change_after_convergence() {
    let mut obstacles = Obstacles::new(7, 5);
    obstacles.set_at(1, 4, true);
    let converged = distances(&solve(&obstacles, 1, 3));
    assert_eq!(converged, distances(&solve(&obstacles, 1, 4)));
    assert_eq!(converged, distances(&solve(&obstacles, 1, 10)));
    // Continuing on the same field changes nothing either.
    let mut field = solve(&obstacles, 1, 3);
    perform_sweeps(&mut field, 1, 6);
    assert_eq!(distances(&field), converged);
}

#[test]
fn symmetric_obstacles_give_symmetric_field() {
    let mut obstacles = Obstacles::new(7, 7);
    obstacles.set_at(3, 3, true);
    let field = solve(&obstacles, 1, 3);
    for y in 0..7 {
        for x in 0..7 {
            let d = *field.get_at(x, y);
            assert_eq!(d, *field.get_at(6 - x, y));
            assert_eq!(d, *field.get_at(x, 6 - y));
            assert_eq!(d, *field.get_at(y, x));
        }
    }
}

#[test]
fn empty_obstacle_map_stays_unreached() {
    let obstacles = Obstacles::new(4, 3);
    for rounds in [0, 1, 5] {
        let field = solve(&obstacles, 1, rounds);
        assert!(field.iter().all(|&d| d == INF));
    }
}

#[test]
fn single_cell_grid() {
    let mut obstacles = Obstacles::new(1, 1);
    assert_eq!(distances(&solve(&obstacles, 1, 2)), vec![INF]);
    obstacles.set_at(0, 0, true);
    assert_eq!(distances(&solve(&obstacles, 1, 2)), vec![0]);
}

#[test]
fn single_row_grid_is_not_swept() {
    let mut obstacles = Obstacles::new(5, 1);
    obstacles.set_at(1, 0, true);
    assert_eq!(distances(&solve(&obstacles, 2, 3)), vec![INF, 0, INF, INF, INF]);
}

#[test]
fn large_step_saturates_at_the_sentinel() {
    let mut obstacles = Obstacles::new(3, 2);
    obstacles.set_at(0, 0, true);
    let step = u64::MAX - 1;
    let field = solve(&obstacles, step, 2);
    assert_eq!(distances(&field), vec![0, step, INF, step, INF, INF]);
}

#[test]
fn mismatched_dimensions_are_rejected() {
    let mut obstacles = Obstacles::new(4, 3);
    obstacles.set_at(1, 1, true);
    let other = Obstacles::new(3, 4);
    let mut field = DistanceField::from(&other);
    let before = distances(&field);
    let result = try_fast_sweeping(&mut field, &obstacles, 1, 2);
    assert_eq!(
        result,
        Err(DimensionMismatch {
            field_width: 3,
            field_height: 4,
            obstacles_width: 4,
            obstacles_height: 3,
        })
    );
    assert_eq!(distances(&field), before);
}

#[test]
fn matching_dimensions_are_solved() {
    let mut obstacles = Obstacles::new(4, 3);
    obstacles.set_at(1, 1, true);
    let mut field = DistanceField::from(&obstacles);
    assert_eq!(try_fast_sweeping(&mut field, &obstacles, 1, 2), Ok(()));
    assert_eq!(distances(&field), distances(&solve(&obstacles, 1, 2)));
    assert_eq!(*field.get_at(3, 2), 3);
}

#[test]
fn one_pass_reaches_only_down_and_right() {
    let mut obstacles = Obstacles::new(3, 3);
    obstacles.set_at(1, 1, true);
    let mut field = solve(&obstacles, 1, 0);
    sweep_pass(&mut field, 1, Sweep::TopLeftToBottomRight);
    assert_eq!(distances(&field), vec![INF, INF, INF, INF, 0, 1, INF, 1, 2]);
    sweep_pass(&mut field, 1, Sweep::BottomRightToTopLeft);
    assert_eq!(distances(&field), vec![2, 1, INF, 1, 0, 1, INF, 1, 2]);
}

#[test]
fn mirrored_pair_gives_mirrored_field() {
    let mut obstacles = Obstacles::new(8, 5);
    obstacles.set_at(1, 3, true);
    obstacles.set_at(6, 3, true);
    let field = solve(&obstacles, 2, 8);
    for y in 0..5 {
        for x in 0..8 {
            assert_eq!(*field.get_at(x, y), *field.get_at(7 - x, y));
        }
    }
}

#[test]
fn converged_field_is_distance_to_nearest_obstacle() {
    let sources = [(1usize, 2usize), (7, 6), (4, 0)];
    let mut obstacles = Obstacles::new(9, 8);
    for &(x, y) in &sources {
        obstacles.set_at(x, y, true);
    }
    let step: u64 = 5;
    let field = solve(&obstacles, step, 20);
    for y in 0..8usize {
        for x in 0..9usize {
            let nearest = sources
                .iter()
                .map(|&(px, py)| (x.abs_diff(px) + y.abs_diff(py)) as u64 * step)
                .min()
                .unwrap();
            assert_eq!(*field.get_at(x, y), nearest);
        }
    }
}

#[test]
fn symmetry_waits_for_convergence() {
    let mut obstacles = Obstacles::new(4, 2);
    obstacles.set_at(0, 0, true);
    obstacles.set_at(3, 0, true);
    let one_round = distances(&solve(&obstacles, 1, 1));
    assert_eq!(one_round, vec![0, 1, 1, 0, 1, 3, 2, 1]);
    let two_rounds = distances(&solve(&obstacles, 1, 2));
    assert_eq!(two_rounds, vec![0, 1, 1, 0, 1, 2, 2, 1]);
    assert_eq!(distances(&solve(&obstacles, 1, 3)), two_rounds);
}
