use othello::math::{Coordinate, Dimensions};
use othello::othello::{Board, CellState, PlacementError, Player};

fn d8() -> Dimensions {
    Dimensions::try_new(8, 8).unwrap()
}

fn at(b: &Board, x: usize, y: usize) -> CellState {
    let c = Coordinate::try_new(x, y, b.dims()).unwrap();
    *b.get_cell(c)
}

fn snapshot(b: &Board) -> Vec<CellState> {
    let mut cells = Vec::new();
    for y in 0..b.dims().height() {
        for x in 0..b.dims().width() {
            cells.push(at(b, x, y));
        }
    }
    cells
}

#[test]
fn opponent_is_an_involution() {
    assert_eq!(Player::First.opponent(), Player::Second);
    assert_eq!(Player::Second.opponent(), Player::First);
    assert_eq!(Player::First.opponent().opponent(), Player::First);
    assert_eq!(Player::Second.opponent().opponent(), Player::Second);
}

#[test]
fn cell_state_of_each_player() {
    assert_eq!(CellState::from(Player::First), CellState::First);
    assert_eq!(CellState::from(Player::Second), CellState::Second);
    assert!(CellState::Empty.is_empty());
    assert!(!CellState::First.is_empty());
    assert!(!CellState::Second.is_empty());
}

#[test]
fn opening_board_has_the_canonical_diagonal_pattern() {
    let b = Board::new(d8());
    assert_eq!(at(&b, 3, 3), CellState::First);
    assert_eq!(at(&b, 4, 3), CellState::Second);
    assert_eq!(at(&b, 3, 4), CellState::Second);
    assert_eq!(at(&b, 4, 4), CellState::First);
    let s = b.stat();
    assert_eq!(s.first, 2);
    assert_eq!(s.second, 2);
    assert_eq!(s.empty, 60);
    assert_eq!(b.record().len(), 0);
    for y in 0..8 {
        for x in 0..8 {
            if (x == 3 || x == 4) && (y == 3 || y == 4) {
                assert!(!at(&b, x, y).is_empty());
            } else {
                assert!(at(&b, x, y).is_empty());
            }
        }
    }
}

#[test]
fn successful_put_places_the_disc() {
    let d = d8();
    let mut b = Board::new(d);
    let c = Coordinate::try_new(4, 2, d).unwrap();
    assert_eq!(b.put(c, Player::First), Ok(()));
    assert_eq!(at(&b, 4, 2), CellState::First);
}

#[test]
fn failed_put_leaves_the_grid_unchanged() {
    let d = d8();
    let mut b = Board::new(d);
    let before = snapshot(&b);
    let occupied = Coordinate::try_new(3, 3, d).unwrap();
    assert_eq!(b.put(occupied, Player::First), Err(PlacementError::CellOccupied));
    assert_eq!(snapshot(&b), before);
    let barren = Coordinate::try_new(0, 0, d).unwrap();
    assert_eq!(b.put(barren, Player::First), Err(PlacementError::NoCaptures));
    assert_eq!(snapshot(&b), before);
    assert_eq!(b.record().len(), 0);
}

#[test]
fn occupied_cell_fails_identically_on_retry() {
    let d = d8();
    let mut b = Board::new(d);
    let before = snapshot(&b);
    let c = Coordinate::try_new(4, 4, d).unwrap();
    assert_eq!(b.put(c, Player::Second), Err(PlacementError::CellOccupied));
    assert_eq!(b.put(c, Player::Second), Err(PlacementError::CellOccupied));
    assert_eq!(snapshot(&b), before);
    assert_eq!(b.record().len(), 0);
}

#[test]
fn opening_capture_flips_exactly_the_flanked_run() {
    let d = d8();
    let mut b = Board::new(d);
    // First flanks the Second disc at (4, 3) against its anchor at (4, 4).
    let c = Coordinate::try_new(4, 2, d).unwrap();
    assert_eq!(b.put(c, Player::First), Ok(()));
    assert_eq!(at(&b, 4, 2), CellState::First);
    assert_eq!(at(&b, 4, 3), CellState::First);
    assert_eq!(at(&b, 3, 4), CellState::Second);
    let s = b.stat();
    assert_eq!(s.first, 4);
    assert_eq!(s.second, 1);
    assert_eq!(s.empty, 59);
}

#[test]
fn capture_flips_a_full_run_of_two() {
    let d = d8();
    let mut b = Board::new(d);
    assert_eq!(b.put(Coordinate::try_new(4, 2, d).unwrap(), Player::First), Ok(()));
    assert_eq!(b.put(Coordinate::try_new(3, 2, d).unwrap(), Player::Second), Ok(()));
    assert_eq!(b.put(Coordinate::try_new(2, 1, d).unwrap(), Player::First), Ok(()));
    assert_eq!(b.put(Coordinate::try_new(5, 5, d).unwrap(), Player::Second), Ok(()));
    let s = b.stat();
    assert_eq!((s.first, s.second, s.empty), (4, 4, 56));
    // (3, 5) flanks the two Second discs at (3, 4) and (3, 3) against the
    // First anchor at (3, 2): exactly that run flips, nothing else.
    let c = Coordinate::try_new(3, 5, d).unwrap();
    assert_eq!(b.flipable(c, othello::math::Vector::new(0, -1), Player::First), Ok(2));
    assert_eq!(b.put(c, Player::First), Ok(()));
    assert_eq!(at(&b, 3, 3), CellState::First);
    assert_eq!(at(&b, 3, 4), CellState::First);
    assert_eq!(at(&b, 4, 4), CellState::Second);
    let s = b.stat();
    assert_eq!((s.first, s.second, s.empty), (7, 2, 55));
}

#[test]
fn flipable_probes_without_mutating() {
    let d = d8();
    let b = Board::new(d);
    let before = snapshot(&b);
    let c = Coordinate::try_new(4, 2, d).unwrap();
    assert_eq!(b.flipable(c, othello::math::Vector::new(0, 1), Player::First), Ok(1));
    assert!(b
        .flipable(c, othello::math::Vector::new(1, 1), Player::First)
        .is_err());
    // Immediately meeting an own disc is an empty run, not a failure.
    assert_eq!(
        b.flipable(c, othello::math::Vector::new(-1, 1), Player::First),
        Ok(0)
    );
    assert_eq!(snapshot(&b), before);
}

#[test]
fn neither_player_passes_at_the_opening() {
    let b = Board::new(d8());
    assert!(!b.is_pass(Player::First));
    assert!(!b.is_pass(Player::Second));
}

#[test]
fn both_players_pass_on_a_full_board() {
    // On the smallest board the opening already fills every cell: a genuine
    // game end, where both players are blocked at once.
    let d = Dimensions::try_new(2, 2).unwrap();
    let b = Board::new(d);
    let s = b.stat();
    assert_eq!(s.first, 2);
    assert_eq!(s.second, 2);
    assert_eq!(s.empty, 0);
    assert!(b.is_pass(Player::First));
    assert!(b.is_pass(Player::Second));
}

#[test]
fn record_keeps_moves_in_play_order() {
    let d = d8();
    let mut b = Board::new(d);
    let first_move = Coordinate::try_new(4, 2, d).unwrap();
    assert_eq!(b.put(first_move, Player::First), Ok(()));
    // Second flanks the First disc at (3, 3) against its anchor at (3, 4).
    let reply = Coordinate::try_new(3, 2, d).unwrap();
    assert_eq!(b.put(reply, Player::Second), Ok(()));
    let rec = b.record();
    assert_eq!(rec.len(), 2);
    assert_eq!(rec[0].0, Player::First);
    assert_eq!((rec[0].1.x(), rec[0].1.y()), (4, 2));
    assert_eq!(rec[1].0, Player::Second);
    assert_eq!((rec[1].1.x(), rec[1].1.y()), (3, 2));
}

#[test]
fn stat_counts_every_cell_once() {
    let d = Dimensions::try_new(6, 4).unwrap();
    let b = Board::new(d);
    let s = b.stat();
    assert_eq!(s.first + s.second + s.empty, 24);
    assert_eq!(s.first, 2);
    assert_eq!(s.second, 2);
}
