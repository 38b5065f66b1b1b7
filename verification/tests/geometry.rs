use othello::math::{Coordinate, CoordinateError, Dimensions, Vector, MAX_DIM};

fn d8() -> Dimensions {
    Dimensions::try_new(8, 8).unwrap()
}

#[test]
fn dimensions_accept_standard_board() {
    let d = d8();
    assert_eq!(d.width(), 8);
    assert_eq!(d.height(), 8);
}

#[test]
fn dimensions_reject_degenerate_extents() {
    assert_eq!(Dimensions::try_new(1, 8), Err(CoordinateError::OutOfBounds));
    assert_eq!(Dimensions::try_new(8, 0), Err(CoordinateError::OutOfBounds));
    assert_eq!(
        Dimensions::try_new(MAX_DIM + 1, 8),
        Err(CoordinateError::OutOfBounds)
    );
}

#[test]
fn coordinate_inside_bounds() {
    let d = d8();
    let c = Coordinate::try_new(3, 5, d).unwrap();
    assert_eq!(c.x(), 3);
    assert_eq!(c.y(), 5);
}

#[test]
fn coordinate_out_of_bounds() {
    let d = d8();
    assert_eq!(
        Coordinate::try_new(8, 0, d),
        Err(CoordinateError::OutOfBounds)
    );
    assert_eq!(
        Coordinate::try_new(0, 9, d),
        Err(CoordinateError::OutOfBounds)
    );
}

#[test]
fn translate_within_bounds() {
    let d = d8();
    let c = Coordinate::try_new(3, 3, d).unwrap();
    let moved = c.try_add(Vector::new(1, -1), d).unwrap();
    assert_eq!(moved.x(), 4);
    assert_eq!(moved.y(), 2);
}

#[test]
fn translate_underflow_is_arithmetic_overflow() {
    let d = d8();
    let c = Coordinate::try_new(0, 0, d).unwrap();
    assert_eq!(
        c.try_add(Vector::new(-1, 0), d),
        Err(CoordinateError::ArithmeticOverflow)
    );
    assert_eq!(
        c.try_add(Vector::new(0, -1), d),
        Err(CoordinateError::ArithmeticOverflow)
    );
}

#[test]
fn translate_past_edge_is_out_of_bounds() {
    let d = d8();
    let c = Coordinate::try_new(7, 7, d).unwrap();
    assert_eq!(
        c.try_add(Vector::new(1, 0), d),
        Err(CoordinateError::OutOfBounds)
    );
    assert_eq!(
        c.try_add(Vector::new(0, 1), d),
        Err(CoordinateError::OutOfBounds)
    );
}

#[test]
fn vector_zero_test() {
    assert!(Vector::new(0, 0).is_zero());
    assert!(!Vector::new(1, 0).is_zero());
    assert!(!Vector::new(0, -1).is_zero());
}

#[test]
fn directions_are_the_eight_nonzero_unit_offsets() {
    let dirs = Vector::directions();
    assert_eq!(dirs.len(), 8);
    for v in &dirs {
        assert!(!v.is_zero());
        assert!((-1..=1).contains(&v.x));
        assert!((-1..=1).contains(&v.y));
    }
    for dx in -1..=1_isize {
        for dy in -1..=1_isize {
            if dx == 0 && dy == 0 {
                continue;
            }
            assert!(dirs.iter().any(|v| v.x == dx && v.y == dy));
        }
    }
}

#[test]
fn directions_are_stable_across_calls() {
    let a = Vector::directions();
    let b = Vector::directions();
    assert_eq!(a.len(), b.len());
    for i in 0..a.len() {
        assert_eq!(a[i], b[i]);
    }
}
