use maze_solver::bitmap::{classify, Bitmap, BlockState, DEFAULT_THRESHOLD, MAX_SIDE};
use maze_solver::position::{key, manhattan, same_position};

fn bitmap_of(rows: &[&str]) -> Bitmap {
    let height = rows.len();
    let width = if height == 0 { 0 } else { rows[0].len() };
    let mut pixels = Vec::new();
    for row in rows {
        for c in row.chars() {
            pixels.push(if c == '#' { 0u8 } else { 255u8 });
        }
    }
    Bitmap::new(width, height, pixels, DEFAULT_THRESHOLD).unwrap()
}

#[test]
fn manhattan_is_sum_of_coordinate_differences() {
    assert_eq!(manhattan((0, 2), (4, 2)), 4);
    assert_eq!(manhattan((4, 2), (0, 2)), 4);
    assert_eq!(manhattan((3, 7), (3, 7)), 0);
    assert_eq!(manhattan((1, 9), (6, 2)), 12);
    assert_eq!(manhattan((0, 0), (65535, 65535)), 131070);
}

#[test]
fn manhattan_obeys_triangle_inequality_on_samples() {
    let a = (3u16, 40u16);
    let b = (17u16, 2u16);
    let c = (9u16, 9u16);
    assert!(manhattan(a, c) <= manhattan(a, b) + manhattan(b, c));
    assert_eq!(manhattan(a, b), manhattan(b, a));
}

#[test]
fn same_position_compares_both_coordinates() {
    assert!(same_position((2, 3), (2, 3)));
    assert!(!same_position((2, 3), (3, 2)));
    assert!(!same_position((2, 3), (2, 4)));
}

#[test]
fn key_puts_column_high_and_row_low() {
    assert_eq!(key((0, 0)), 0);
    assert_eq!(key((0, 5)), 5);
    assert_eq!(key((1, 0)), 65536);
    assert_eq!(key((2, 3)), 131075);
    assert_eq!(key((65535, 65535)), u32::MAX);
}

#[test]
fn new_rejects_wrong_sample_count() {
    assert!(Bitmap::new(2, 2, vec![0, 0, 0], 150).is_none());
    assert!(Bitmap::new(2, 2, vec![0, 0, 0, 0, 0], 150).is_none());
    assert!(Bitmap::new(2, 2, vec![0, 0, 0, 0], 150).is_some());
    assert!(Bitmap::new(0, 0, vec![], 150).is_some());
}

#[test]
fn new_rejects_oversized_sides() {
    assert!(Bitmap::new(MAX_SIDE + 1, 0, vec![], 150).is_none());
    assert!(Bitmap::new(0, MAX_SIDE + 1, vec![], 150).is_none());
    assert!(Bitmap::new(MAX_SIDE, 1, vec![200; MAX_SIDE], 150).is_some());
}

#[test]
fn accessors_return_what_was_given() {
    let b = Bitmap::new(3, 2, vec![1, 2, 3, 4, 5, 6], 77).unwrap();
    assert_eq!(b.width(), 3);
    assert_eq!(b.height(), 2);
    assert_eq!(b.threshold(), 77);
    assert_eq!(b.sample(0, 0), 1);
    assert_eq!(b.sample(2, 0), 3);
    assert_eq!(b.sample(0, 1), 4);
    assert_eq!(b.sample(2, 1), 6);
}

#[test]
fn classify_tells_wall_from_open_at_the_threshold() {
    let b = Bitmap::new(3, 1, vec![149, 150, 151], DEFAULT_THRESHOLD).unwrap();
    assert_eq!(classify(&b, 0, 0), BlockState::Wall);
    assert_eq!(classify(&b, 1, 0), BlockState::Open);
    assert_eq!(classify(&b, 2, 0), BlockState::Open);
}

#[test]
fn classify_follows_the_chosen_threshold() {
    let b = Bitmap::new(2, 1, vec![10, 20], 15).unwrap();
    assert_eq!(classify(&b, 0, 0), BlockState::Wall);
    assert_eq!(classify(&b, 1, 0), BlockState::Open);
    let all_open = Bitmap::new(2, 1, vec![0, 0], 0).unwrap();
    assert_eq!(classify(&all_open, 0, 0), BlockState::Open);
}

#[test]
fn classify_is_out_of_bounds_outside_the_bitmap() {
    let b = bitmap_of(&["..", ".."]);
    assert_eq!(classify(&b, -1, 0), BlockState::OutOfBounds);
    assert_eq!(classify(&b, 0, -1), BlockState::OutOfBounds);
    assert_eq!(classify(&b, 2, 0), BlockState::OutOfBounds);
    assert_eq!(classify(&b, 0, 2), BlockState::OutOfBounds);
    assert_eq!(classify(&b, i64::MIN, i64::MAX), BlockState::OutOfBounds);
    assert_eq!(classify(&b, 1, 1), BlockState::Open);
}

#[test]
fn classify_reads_row_major_samples() {
    let b = bitmap_of(&["#.", ".#", ".."]);
    assert_eq!(classify(&b, 0, 0), BlockState::Wall);
    assert_eq!(classify(&b, 1, 0), BlockState::Open);
    assert_eq!(classify(&b, 0, 1), BlockState::Open);
    assert_eq!(classify(&b, 1, 1), BlockState::Wall);
    assert_eq!(classify(&b, 0, 2), BlockState::Open);
    assert_eq!(classify(&b, 1, 2), BlockState::Open);
}
