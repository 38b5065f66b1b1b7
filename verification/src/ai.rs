//! The move advisor: a stateless, single-ply greedy scan.  It ranks every
//! legal placement by how many discs it would capture, preferring corner
//! cells outright, and breaks score ties by scan order.

use crate::math::{
    dir_seq, is_dir, lemma_coordinate_eq, lemma_dir_seq_complete, lemma_dir_seq_is_dir, Coordinate,
    Vector, MAX_DIM,
};
use crate::othello::{
    lemma_capture_bound, lemma_capture_unique, lemma_rowmajor_in_range, lemma_rowmajor_injective,
    Board, BoardModel, CellState, Player,
};
use vstd::prelude::*;

verus! {

/// How many discs a placement of `p` at `(x, y)` would capture along one
/// direction; zero where the capture probe fails.
pub open spec fn capture_amount(
    m: BoardModel,
    x: int,
    y: int,
    dx: int,
    dy: int,
    p: Player,
) -> int {
    if exists|n: int| m.captures_exactly(x, y, dx, dy, p, n) {
        choose|n: int| m.captures_exactly(x, y, dx, dy, p, n)
    } else {
        0
    }
}

/// The capture amounts of the first `k` scan directions, summed.
pub open spec fn score_upto(m: BoardModel, x: int, y: int, p: Player, k: int) -> int
    decreases k,
{
    if k <= 0 {
        0
    } else {
        score_upto(m, x, y, p, k - 1) + capture_amount(
            m,
            x,
            y,
            dir_seq()[k - 1].0,
            dir_seq()[k - 1].1,
            p,
        )
    }
}

/// The capture score of a cell: how many discs a placement of `p` there
/// would flip, over all eight directions.
pub open spec fn score(m: BoardModel, x: int, y: int, p: Player) -> int {
    score_upto(m, x, y, p, 8)
}

/// A unique capture count fixes the direction's capture amount.
pub proof fn lemma_amount_of_capture(
    m: BoardModel,
    x: int,
    y: int,
    dx: int,
    dy: int,
    p: Player,
    n: int,
)
    requires
        m.captures_exactly(x, y, dx, dy, p, n),
    ensures
        capture_amount(m, x, y, dx, dy, p) == n,
{
    let n2 = choose|n2: int| m.captures_exactly(x, y, dx, dy, p, n2);
    lemma_capture_unique(m, x, y, dx, dy, p, n2, n);
}

/// Every capture amount is nonnegative.
pub proof fn lemma_amount_nonneg(m: BoardModel, x: int, y: int, dx: int, dy: int, p: Player)
    ensures
        capture_amount(m, x, y, dx, dy, p) >= 0,
{
}

/// Partial scores are nonnegative.
pub proof fn lemma_score_upto_nonneg(m: BoardModel, x: int, y: int, p: Player, k: int)
    ensures
        score_upto(m, x, y, p, k) >= 0,
    decreases k,
{
    if k > 0 {
        lemma_score_upto_nonneg(m, x, y, p, k - 1);
        lemma_amount_nonneg(m, x, y, dir_seq()[k - 1].0, dir_seq()[k - 1].1, p);
    }
}

/// A positive partial score names a direction with a positive amount.
pub proof fn lemma_score_upto_pos_witness(m: BoardModel, x: int, y: int, p: Player, k: int)
    requires
        score_upto(m, x, y, p, k) > 0,
    ensures
        exists|jj: int|
            0 <= jj < k && capture_amount(m, x, y, dir_seq()[jj].0, #[trigger] dir_seq()[jj].1, p)
                > 0,
    decreases k,
{
    if k > 0 {
        if capture_amount(m, x, y, dir_seq()[k - 1].0, dir_seq()[k - 1].1, p) > 0 {
            assert(0 <= k - 1 < k && capture_amount(
                m,
                x,
                y,
                dir_seq()[k - 1].0,
                dir_seq()[k - 1].1,
                p,
            ) > 0);
        } else {
            lemma_amount_nonneg(m, x, y, dir_seq()[k - 1].0, dir_seq()[k - 1].1, p);
            lemma_score_upto_pos_witness(m, x, y, p, k - 1);
        }
    }
}

/// A partial score dominates each single direction it sums.
pub proof fn lemma_score_upto_ge_amount(
    m: BoardModel,
    x: int,
    y: int,
    p: Player,
    k: int,
    jj: int,
)
    requires
        0 <= jj < k,
    ensures
        score_upto(m, x, y, p, k) >= capture_amount(m, x, y, dir_seq()[jj].0, dir_seq()[jj].1, p),
    decreases k,
{
    lemma_amount_nonneg(m, x, y, dir_seq()[k - 1].0, dir_seq()[k - 1].1, p);
    if jj == k - 1 {
        lemma_score_upto_nonneg(m, x, y, p, k - 1);
    } else {
        lemma_score_upto_ge_amount(m, x, y, p, k - 1, jj);
    }
}

/// A cell scores positively exactly when some direction captures at least
/// one disc there.
pub proof fn lemma_score_pos(m: BoardModel, x: int, y: int, p: Player)
    ensures
        (score(m, x, y, p) > 0) == (exists|dx: int, dy: int, n: int|
            is_dir(dx, dy) && n > 0 && #[trigger] m.captures_exactly(x, y, dx, dy, p, n)),
{
    if score(m, x, y, p) > 0 {
        lemma_score_upto_pos_witness(m, x, y, p, 8);
        let jj = choose|jj: int|
            0 <= jj < 8 && capture_amount(m, x, y, dir_seq()[jj].0, #[trigger] dir_seq()[jj].1, p)
                > 0;
        let dx = dir_seq()[jj].0;
        let dy = dir_seq()[jj].1;
        lemma_dir_seq_is_dir(jj);
        let n = choose|n: int| m.captures_exactly(x, y, dx, dy, p, n);
        assert(m.captures_exactly(x, y, dx, dy, p, n));
        assert(n > 0);
    }
    if exists|dx: int, dy: int, n: int|
        is_dir(dx, dy) && n > 0 && #[trigger] m.captures_exactly(x, y, dx, dy, p, n) {
        let (dx, dy, n) = choose|dx: int, dy: int, n: int|
            is_dir(dx, dy) && n > 0 && #[trigger] m.captures_exactly(x, y, dx, dy, p, n);
        lemma_dir_seq_complete(dx, dy);
        let jj = choose|jj: int| 0 <= jj < 8 && #[trigger] dir_seq()[jj] == (dx, dy);
        lemma_amount_of_capture(m, x, y, dir_seq()[jj].0, dir_seq()[jj].1, p, n);
        lemma_score_upto_ge_amount(m, x, y, p, 8, jj);
    }
}

/// A cell is an advisor candidate exactly when placing there is legal: a
/// positive capture score is a positive capture along some direction.
pub proof fn lemma_candidate_is_legal(m: BoardModel, x: int, y: int, p: Player)
    ensures
        candidate(m, x, y, p) == m.can_place(x, y, p),
{
    lemma_score_pos(m, x, y, p);
}

/// Law: the advisor answers `None` exactly when the player must pass.
pub proof fn lemma_none_means_pass(m: BoardModel, p: Player, r: Option<Coordinate>)
    requires
        advised(m, p, r),
    ensures
        (r is None) == m.must_pass(p),
{
    assert forall|x: int, y: int| #[trigger] candidate(m, x, y, p) == m.can_place(x, y, p) by {
        lemma_candidate_is_legal(m, x, y, p);
    }
    match r {
        Option::None => {
            assert forall|x: int, y: int| !(#[trigger] m.can_place(x, y, p)) by {
                assert(!candidate(m, x, y, p));
            }
        },
        Option::Some(c) => {
            assert(m.can_place(c@.0, c@.1, p));
        },
    }
}

/// A legal advisor candidate: an empty on-board cell with positive score.
pub open spec fn candidate(m: BoardModel, x: int, y: int, p: Player) -> bool {
    m.in_bounds(x, y) && m.cell(x, y) == CellState::Empty && score(m, x, y, p) > 0
}

/// Whether `(x, y)` is one of the four corner cells.
pub open spec fn is_corner(m: BoardModel, x: int, y: int) -> bool {
    (x == 0 || x == m.width - 1) && (y == 0 || y == m.height - 1)
}

/// A candidate, optionally restricted to the corner cells.
pub open spec fn eligible(m: BoardModel, x: int, y: int, p: Player, corner_only: bool) -> bool {
    candidate(m, x, y, p) && (corner_only ==> is_corner(m, x, y))
}

/// Position of a cell in the advisor's row-major sweep.
pub open spec fn scan_idx(m: BoardModel, x: int, y: int) -> int {
    y * m.width + x
}

/// `best` is the advisor's running choice over the cells before `bound` in
/// scan order, within one class of candidates: the first cell carrying the
/// class's greatest score.
pub open spec fn scanned_best(
    m: BoardModel,
    p: Player,
    bound: int,
    corner_only: bool,
    best: Option<(usize, Coordinate)>,
) -> bool {
    match best {
        None => forall|i: int, j: int|
            #[trigger] eligible(m, i, j, p, corner_only) ==> scan_idx(m, i, j) >= bound,
        Some((s, c)) => {
            &&& eligible(m, c@.0, c@.1, p, corner_only)
            &&& scan_idx(m, c@.0, c@.1) < bound
            &&& s as int == score(m, c@.0, c@.1, p)
            &&& forall|i: int, j: int|
                #[trigger] eligible(m, i, j, p, corner_only) && scan_idx(m, i, j) < bound ==> (
                score(m, i, j, p) < s as int || (score(m, i, j, p) == s as int && scan_idx(
                    m,
                    c@.0,
                    c@.1,
                ) <= scan_idx(m, i, j)))
        },
    }
}

/// The advisor's full contract.  `None` exactly when `p` has no candidate;
/// otherwise the returned cell is a candidate, drawn from the corner
/// candidates whenever any exists, and carries the greatest score of its
/// class, earliest in scan order among equals.
pub open spec fn advised(m: BoardModel, p: Player, r: Option<Coordinate>) -> bool {
    match r {
        None => forall|x: int, y: int| !(#[trigger] candidate(m, x, y, p)),
        Some(c) => {
            &&& candidate(m, c@.0, c@.1, p)
            &&& if exists|x: int, y: int| #[trigger] eligible(m, x, y, p, true) {
                is_corner(m, c@.0, c@.1) && (forall|i: int, j: int|
                    #[trigger] eligible(m, i, j, p, true) ==> (score(m, i, j, p) < score(
                        m,
                        c@.0,
                        c@.1,
                        p,
                    ) || (score(m, i, j, p) == score(m, c@.0, c@.1, p) && scan_idx(m, c@.0, c@.1)
                        <= scan_idx(m, i, j))))
            } else {
                forall|i: int, j: int|
                    #[trigger] eligible(m, i, j, p, false) ==> (score(m, i, j, p) < score(
                        m,
                        c@.0,
                        c@.1,
                        p,
                    ) || (score(m, i, j, p) == score(m, c@.0, c@.1, p) && scan_idx(m, c@.0, c@.1)
                        <= scan_idx(m, i, j)))
            }
        },
    }
}

/// Extending the scanned prefix by one cell preserves the running-choice
/// invariant, given the advisor's update rule: adopt the cell only when it
/// is eligible and strictly beats the current choice.
pub proof fn lemma_scan_step(
    m: BoardModel,
    p: Player,
    x: int,
    y: int,
    corner_only: bool,
    old_best: Option<(usize, Coordinate)>,
    new_best: Option<(usize, Coordinate)>,
    s: usize,
    c: Coordinate,
)
    requires
        m.wf(),
        m.in_bounds(x, y),
        c@.0 == x,
        c@.1 == y,
        eligible(m, x, y, p, corner_only) ==> s as int == score(m, x, y, p),
        scanned_best(m, p, scan_idx(m, x, y), corner_only, old_best),
        if eligible(m, x, y, p, corner_only) {
            match old_best {
                Option::None => new_best == Option::Some((s, c)),
                Option::Some((bs, bc)) => new_best == (if s > bs {
                    Option::Some((s, c))
                } else {
                    old_best
                }),
            }
        } else {
            new_best == old_best
        },
    ensures
        scanned_best(m, p, scan_idx(m, x, y) + 1, corner_only, new_best),
{
    let gb = scan_idx(m, x, y);
    assert forall|i: int, j: int|
        #[trigger] eligible(m, i, j, p, corner_only) && scan_idx(m, i, j) == gb implies i == x && j
            == y by {
        lemma_rowmajor_injective(m.width, i, j, x, y);
    }
    match new_best {
        Option::None => {
            assert forall|i: int, j: int|
                #[trigger] eligible(m, i, j, p, corner_only) implies scan_idx(m, i, j) >= gb
                    + 1 by {
                if scan_idx(m, i, j) == gb {
                    assert(i == x && j == y);
                }
            }
        },
        Option::Some((ns, nc)) => {
            assert forall|i: int, j: int|
                #[trigger] eligible(m, i, j, p, corner_only) && scan_idx(m, i, j) < gb
                    + 1 implies (score(m, i, j, p) < ns as int || (score(m, i, j, p) == ns as int
                && scan_idx(m, nc@.0, nc@.1) <= scan_idx(m, i, j))) by {
                if scan_idx(m, i, j) == gb {
                    assert(i == x && j == y);
                }
            }
        },
    }
}

/// Greedy single-ply advisor.  Scans every cell in row-major order, scores
/// each empty cell by its total capture count over the eight directions,
/// discards cells that capture nothing, prefers any corner candidate over
/// every non-corner one regardless of score, and otherwise keeps the first
/// cell found with the strictly greatest score.
pub fn think(b: &Board, p: Player) -> (r: Option<Coordinate>)
    requires
        b@.wf(),
    ensures
        advised(b@, p, r),
{
    let dims = b.dims();
    let w = dims.width();
    let h = dims.height();
    let dirs = Vector::directions();
    let mut best: Option<(usize, Coordinate)> = None;
    let mut cbest: Option<(usize, Coordinate)> = None;
    let mut y: usize = 0;
    while y < h
        invariant
            y <= h,
            b@.wf(),
            w as int == b@.width,
            h as int == b@.height,
            dims.w() == b@.width,
            dims.h() == b@.height,
            dirs@.len() == 8,
            forall|jj: int|
                0 <= jj < 8 ==> (#[trigger] dirs@[jj]).x as int == dir_seq()[jj].0
                    && dirs@[jj].y as int == dir_seq()[jj].1,
            scanned_best(b@, p, y as int * w as int, false, best),
            scanned_best(b@, p, y as int * w as int, true, cbest),
        decreases h - y,
    {
        let mut x: usize = 0;
        while x < w
            invariant
                x <= w,
                y < h,
                b@.wf(),
                w as int == b@.width,
                h as int == b@.height,
                dims.w() == b@.width,
                dims.h() == b@.height,
                dirs@.len() == 8,
                forall|jj: int|
                    0 <= jj < 8 ==> (#[trigger] dirs@[jj]).x as int == dir_seq()[jj].0
                        && dirs@[jj].y as int == dir_seq()[jj].1,
                scanned_best(b@, p, y as int * w as int + x as int, false, best),
                scanned_best(b@, p, y as int * w as int + x as int, true, cbest),
            decreases w - x,
        {
            let c = match Coordinate::try_new(x, y, dims) {
                Ok(c) => c,
                Err(_) => {
                    // Both loop indices are strictly inside the extents.
                    proof {
                        assert(false);
                    }
                    return None;
                },
            };
            let ghost ob = best;
            let ghost ocb = cbest;
            let mut s_acc: usize = 0;
            let mut scored: bool = false;
            if b.get_cell(c).is_empty() {
                let mut k: usize = 0;
                while k < 8
                    invariant
                        k <= 8,
                        b@.wf(),
                        b@.in_bounds(c@.0, c@.1),
                        c@.0 == x as int,
                        c@.1 == y as int,
                        dims.w() == b@.width,
                        dims.h() == b@.height,
                        dirs@.len() == 8,
                        forall|jj: int|
                            0 <= jj < 8 ==> (#[trigger] dirs@[jj]).x as int == dir_seq()[jj].0
                                && dirs@[jj].y as int == dir_seq()[jj].1,
                        s_acc as int == score_upto(b@, c@.0, c@.1, p, k as int),
                        s_acc as int <= k as int * MAX_DIM as int,
                    decreases 8 - k,
                {
                    proof {
                        lemma_dir_seq_is_dir(k as int);
                    }
                    match b.flipable(c, dirs[k], p) {
                        Ok(n) => {
                            proof {
                                lemma_capture_bound(
                                    b@,
                                    c@.0,
                                    c@.1,
                                    dir_seq()[k as int].0,
                                    dir_seq()[k as int].1,
                                    p,
                                    n as int,
                                );
                                lemma_amount_of_capture(
                                    b@,
                                    c@.0,
                                    c@.1,
                                    dir_seq()[k as int].0,
                                    dir_seq()[k as int].1,
                                    p,
                                    n as int,
                                );
                            }
                            s_acc = s_acc + n;
                        },
                        Err(_) => {
                            proof {
                                assert(capture_amount(
                                    b@,
                                    c@.0,
                                    c@.1,
                                    dir_seq()[k as int].0,
                                    dir_seq()[k as int].1,
                                    p,
                                ) == 0);
                            }
                        },
                    }
                    k = k + 1;
                }
                scored = true;
                if s_acc > 0 {
                    let is_new_best: bool = match best {
                        None => true,
                        Some((bs, _)) => s_acc > bs,
                    };
                    if is_new_best {
                        best = Some((s_acc, c));
                    }
                    let corner = (x == 0 || x == w - 1) && (y == 0 || y == h - 1);
                    if corner {
                        let is_new_cbest: bool = match cbest {
                            None => true,
                            Some((cs, _)) => s_acc > cs,
                        };
                        if is_new_cbest {
                            cbest = Some((s_acc, c));
                        }
                    }
                }
            }
            proof {
                assert(scan_idx(b@, x as int, y as int) == y as int * w as int + x as int);
                if !scored {
                    assert(b@.cell(x as int, y as int) != CellState::Empty);
                }
                lemma_scan_step(b@, p, x as int, y as int, false, ob, best, s_acc, c);
                lemma_scan_step(b@, p, x as int, y as int, true, ocb, cbest, s_acc, c);
            }
            x = x + 1;
        }
        proof {
            assert(y as int * w as int + w as int == (y as int + 1) * w as int) by (nonlinear_arith);
        }
        y = y + 1;
    }
    proof {
        assert forall|i: int, j: int, co: bool| #[trigger] eligible(b@, i, j, p, co) implies scan_idx(
            b@,
            i,
            j,
        ) < h as int * w as int by {
            lemma_rowmajor_in_range(b@.width, b@.height, i, j);
        }
    }
    match cbest {
        Some((_, c)) => {
            proof {
                assert(eligible(b@, c@.0, c@.1, p, true));
            }
            Some(c)
        },
        None => match best {
            Some((_, c)) => {
                proof {
                    assert forall|i: int, j: int| !(#[trigger] eligible(b@, i, j, p, true)) by {
                        if eligible(b@, i, j, p, true) {
                            assert(scan_idx(b@, i, j) < h as int * w as int);
                        }
                    }
                    assert(eligible(b@, c@.0, c@.1, p, false));
                }
                Some(c)
            },
            None => {
                proof {
                    assert forall|i: int, j: int| !(#[trigger] candidate(b@, i, j, p)) by {
                        if candidate(b@, i, j, p) {
                            assert(eligible(b@, i, j, p, false));
                            assert(scan_idx(b@, i, j) < h as int * w as int);
                        }
                    }
                }
                None
            },
        },
    }
}

/// Law: the advisor is deterministic.  Its contract pins a unique answer
/// for a given board and player, so repeated calls agree.
pub proof fn lemma_advise_deterministic(
    m: BoardModel,
    p: Player,
    r1: Option<Coordinate>,
    r2: Option<Coordinate>,
)
    requires
        m.wf(),
        advised(m, p, r1),
        advised(m, p, r2),
    ensures
        r1 == r2,
{
    match (r1, r2) {
        (Option::None, Option::None) => {
        },
        (Option::None, Option::Some(c)) => {
            assert(!candidate(m, c@.0, c@.1, p));
        },
        (Option::Some(c), Option::None) => {
            assert(!candidate(m, c@.0, c@.1, p));
        },
        (Option::Some(c1), Option::Some(c2)) => {
            if exists|x: int, y: int| #[trigger] eligible(m, x, y, p, true) {
                assert(eligible(m, c1@.0, c1@.1, p, true));
                assert(eligible(m, c2@.0, c2@.1, p, true));
            } else {
                assert(eligible(m, c1@.0, c1@.1, p, false));
                assert(eligible(m, c2@.0, c2@.1, p, false));
            }
            assert(score(m, c1@.0, c1@.1, p) == score(m, c2@.0, c2@.1, p));
            assert(scan_idx(m, c1@.0, c1@.1) == scan_idx(m, c2@.0, c2@.1));
            lemma_rowmajor_injective(m.width, c1@.0, c1@.1, c2@.0, c2@.1);
            lemma_coordinate_eq(c1, c2);
        },
    }
}

} // verus!
