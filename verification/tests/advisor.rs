use othello::ai::think;
use othello::math::{Coordinate, Dimensions, Vector};
use othello::othello::{Board, Player};

fn coord(b: &Board, x: usize, y: usize) -> Coordinate {
    Coordinate::try_new(x, y, b.dims()).unwrap()
}

fn capture_score(b: &Board, x: usize, y: usize, p: Player) -> usize {
    let c = coord(b, x, y);
    Vector::directions()
        .iter()
        .map(|&dir| b.flipable(c, dir, p).unwrap_or(0))
        .sum()
}

#[test]
fn advisor_is_deterministic() {
    let b = Board::new(Dimensions::try_new(8, 8).unwrap());
    let first_answer = think(&b, Player::First);
    for _ in 0..3 {
        assert_eq!(think(&b, Player::First), first_answer);
    }
    assert_eq!(think(&b, Player::Second), think(&b, Player::Second));
}

#[test]
fn advisor_returns_none_exactly_when_passing() {
    let open = Board::new(Dimensions::try_new(8, 8).unwrap());
    assert!(!open.is_pass(Player::First));
    assert!(think(&open, Player::First).is_some());
    let full = Board::new(Dimensions::try_new(2, 2).unwrap());
    assert!(full.is_pass(Player::First));
    assert!(think(&full, Player::First).is_none());
    assert!(think(&full, Player::Second).is_none());
}

#[test]
fn opening_move_takes_the_first_best_cell_in_scan_order() {
    let d = Dimensions::try_new(8, 8).unwrap();
    let mut b = Board::new(d);
    // All four legal opening cells for First capture exactly one disc, so
    // the tie breaks to the first in row-major scan order: (4, 2).
    for &(x, y) in &[(4, 2), (5, 3), (2, 4), (3, 5)] {
        assert_eq!(capture_score(&b, x, y, Player::First), 1);
    }
    let advice = think(&b, Player::First).unwrap();
    assert_eq!((advice.x(), advice.y()), (4, 2));
    assert_eq!(b.put(advice, Player::First), Ok(()));
    let s = b.stat();
    assert_eq!(s.first, 4);
    assert_eq!(s.second, 1);
    assert_eq!(s.empty, 59);
    let rec = b.record();
    assert_eq!(rec.len(), 1);
    assert_eq!(rec[0].0, Player::First);
    assert_eq!((rec[0].1.x(), rec[0].1.y()), (4, 2));
}

#[test]
fn advisor_prefers_a_corner_over_a_higher_scoring_cell() {
    let d = Dimensions::try_new(4, 4).unwrap();
    let mut b = Board::new(d);
    assert_eq!(b.put(coord(&b, 2, 0), Player::First), Ok(()));
    assert_eq!(b.put(coord(&b, 3, 2), Player::Second), Ok(()));
    assert_eq!(b.put(coord(&b, 1, 3), Player::First), Ok(()));
    assert_eq!(b.put(coord(&b, 1, 0), Player::Second), Ok(()));
    // The corner (0, 0) captures one disc while the non-corner (3, 1)
    // captures two; the advisor must still take the corner.
    assert_eq!(capture_score(&b, 0, 0, Player::First), 1);
    assert_eq!(capture_score(&b, 3, 1, Player::First), 2);
    let advice = think(&b, Player::First).unwrap();
    assert_eq!((advice.x(), advice.y()), (0, 0));
}
