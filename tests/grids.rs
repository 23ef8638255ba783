use fast_sweeping::{DistanceField, Grid, Obstacles, SavePgm};

/// Header of a binary PGM image of the given size.
fn header(width: usize, height: usize) -> Vec<u8> {
    let mut bytes = vec![b'P', b'0' + 5, b'\n'];
    bytes.extend_from_slice(format!("{} {}\n255\n", width, height).as_bytes());
    bytes
}

#[test]
fn new_obstacle_map_is_clear() {
    let obstacles = Obstacles::new(3, 2);
    assert_eq!(obstacles.width(), 3);
    assert_eq!(obstacles.height(), 2);
    assert_eq!(obstacles.iter().count(), 6);
    assert!(obstacles.iter().all(|&b| !b));
}

#[test]
fn set_at_writes_row_major() {
    let mut obstacles = Obstacles::new(3, 2);
    obstacles.set_at(2, 0, true);
    obstacles.set_at(0, 1, true);
    let cells: Vec<bool> = obstacles.iter().copied().collect();
    assert_eq!(cells, vec![false, false, true, true, false, false]);
    assert!(*obstacles.get_at(2, 0));
    assert!(!*obstacles.get_at(1, 1));
}

#[test]
fn iter_mut_writes_cells() {
    let mut obstacles = Obstacles::new(2, 2);
    obstacles.iter_mut()[3] = true;
    assert!(*obstacles.get_at(1, 1));
    let mut field = DistanceField::from(&obstacles);
    field.iter_mut()[1] = 9;
    assert_eq!(*field.get_at(1, 0), 9);
}

#[test]
fn field_from_obstacles_is_zero_filled() {
    let mut obstacles = Obstacles::new(4, 5);
    obstacles.set_at(1, 1, true);
    let field = DistanceField::from(&obstacles);
    assert_eq!(field.width(), 4);
    assert_eq!(field.height(), 5);
    assert_eq!(field.iter().count(), 20);
    assert!(field.iter().all(|&d| d == 0));
    let same = DistanceField::from_obstacles(&obstacles);
    assert!(same.iter().eq(field.iter()));
}

#[test]
fn field_set_and_get() {
    let obstacles = Obstacles::new(3, 3);
    let mut field = DistanceField::from(&obstacles);
    field.set_at(1, 2, 42);
    assert_eq!(*field.get_at(1, 2), 42);
    assert_eq!(field.iter().nth(7), Some(&42));
}

#[test]
fn obstacles_pgm_bytes() {
    let mut obstacles = Obstacles::new(3, 2);
    obstacles.set_at(1, 0, true);
    let mut expected = header(3, 2);
    expected.extend_from_slice(&[255, 0, 255, 255, 255, 255]);
    assert_eq!(obstacles.to_pgm(), expected);
}

#[test]
fn pgm_header_has_multi_digit_sizes() {
    let obstacles = Obstacles::new(640, 12);
    let bytes = obstacles.to_pgm();
    assert!(bytes.starts_with(&header(640, 12)));
    assert_eq!(bytes.len(), header(640, 12).len() + 640 * 12);
}

#[test]
fn distance_pgm_scales_to_largest_finite() {
    let obstacles = Obstacles::new(4, 1);
    let mut field = DistanceField::from(&obstacles);
    field.set_at(0, 0, 0);
    field.set_at(1, 0, 2);
    field.set_at(2, 0, 4);
    field.set_at(3, 0, 3);
    let mut expected = header(4, 1);
    expected.extend_from_slice(&[0, 127, 255, 191]);
    assert_eq!(field.to_pgm(), expected);
}

#[test]
fn distance_pgm_marks_unreached_white() {
    let obstacles = Obstacles::new(3, 1);
    let mut field = DistanceField::from(&obstacles);
    field.set_at(0, 0, 0);
    field.set_at(1, 0, 5);
    field.set_at(2, 0, DistanceField::MAX_DISTANCE);
    assert_eq!(&field.to_pgm()[header(3, 1).len()..], &[0, 255, 255]);
}

#[test]
fn distance_pgm_all_zero_field_is_black() {
    let obstacles = Obstacles::new(2, 1);
    let field = DistanceField::from(&obstacles);
    assert_eq!(&field.to_pgm()[header(2, 1).len()..], &[0, 0]);
}
