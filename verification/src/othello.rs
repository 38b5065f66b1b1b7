//! The board engine: players, cell states, the grid with its move history,
//! legality checking, capture resolution, pass detection, and tallying.

use crate::math::{
    dir_seq, is_dir, lemma_dir_seq_complete, lemma_dir_seq_is_dir, lemma_ray_misses_origin,
    lemma_rays_disjoint, Coordinate, Dimensions, Vector, MAX_DIM,
};
use vstd::prelude::*;

verus! {

/// One of the two symmetric player identities.
#[derive(Clone, Copy, Debug, PartialEq, Eq, Structural)]
pub enum Player {
    First,
    Second,
}

/// The other player.
pub open spec fn spec_opponent(p: Player) -> Player {
    match p {
        Player::First => Player::Second,
        Player::Second => Player::First,
    }
}

impl Player {
    /// The other player.
    pub fn opponent(self) -> (r: Player)
        ensures
            r == spec_opponent(self),
    {
        match self {
            Player::First => Player::Second,
            Player::Second => Player::First,
        }
    }
}

/// The opponent operation is a total involution.
pub proof fn lemma_opponent_involutive(p: Player)
    ensures
        spec_opponent(spec_opponent(p)) == p,
{
}

/// What one grid cell holds.
#[derive(Clone, Copy, Debug, PartialEq, Eq, Structural)]
pub enum CellState {
    Empty,
    First,
    Second,
}

/// The cell state that marks a disc of player `p`.
pub open spec fn cell_of(p: Player) -> CellState {
    match p {
        Player::First => CellState::First,
        Player::Second => CellState::Second,
    }
}

impl CellState {
    pub fn is_empty(&self) -> (r: bool)
        ensures
            r == (*self == CellState::Empty),
    {
        *self == CellState::Empty
    }
}

impl From<Player> for CellState {
    fn from(p: Player) -> (r: CellState) {
        match p {
            Player::First => CellState::First,
            Player::Second => CellState::Second,
        }
    }
}

impl vstd::std_specs::convert::FromSpecImpl<Player> for CellState {
    open spec fn obeys_from_spec() -> bool {
        true
    }

    open spec fn from_spec(p: Player) -> CellState {
        cell_of(p)
    }
}

/// Why a placement was rejected.  Either way the board is left untouched.
#[derive(Clone, Copy, Debug, PartialEq, Eq, Structural)]
pub enum PlacementError {
    /// The targeted cell already holds a disc.
    CellOccupied,
    /// The placement would capture nothing in any direction.
    NoCaptures,
}

/// Failure of a directional capture probe: the run along that direction is
/// not a capture.
#[derive(Clone, Copy, Debug, PartialEq, Eq, Structural)]
pub struct NotCapturable;

/// A derived snapshot of the board: how many cells each player owns and how
/// many are empty.  Recomputed on demand, never cached.
#[derive(Clone, Copy, Debug, PartialEq, Eq, Structural, Default)]
pub struct Stat {
    pub first: usize,
    pub second: usize,
    pub empty: usize,
}

/// How many cells of `s` hold `t`.
pub open spec fn count_cells(s: Seq<CellState>, t: CellState) -> nat
    decreases s.len(),
{
    if s.len() == 0 {
        0
    } else {
        count_cells(s.drop_last(), t) + (if s.last() == t {
            1nat
        } else {
            0nat
        })
    }
}

/// Every cell is counted under exactly one of the three states.
pub proof fn lemma_count_partition(s: Seq<CellState>)
    ensures
        count_cells(s, CellState::Empty) + count_cells(s, CellState::First) + count_cells(
            s,
            CellState::Second,
        ) == s.len(),
    decreases s.len(),
{
    if s.len() > 0 {
        lemma_count_partition(s.drop_last());
    }
}

/// Counting a prefix one cell longer adds one exactly when that cell holds
/// the counted state.
pub proof fn lemma_count_take_step(s: Seq<CellState>, t: CellState, i: int)
    requires
        0 <= i < s.len(),
    ensures
        count_cells(s.take(i + 1), t) == count_cells(s.take(i), t) + (if s[i] == t {
            1int
        } else {
            0int
        }),
{
    assert(s.take(i + 1).drop_last() =~= s.take(i));
    assert(s.take(i + 1).last() == s[i]);
}

/// The position `t` steps from `a` along a per-step offset `d`.
pub open spec fn step(a: int, d: int, t: int) -> int {
    a + t * d
}

/// Stepping once more moves by exactly the offset.
pub proof fn lemma_step_succ(a: int, d: int, t: int)
    ensures
        step(a, d, t + 1) == step(a, d, t) + d,
{
    assert((t + 1) * d == t * d + d) by (nonlinear_arith);
}

/// Whether `(i, j)` lies strictly between a ray's origin `(x, y)` and the
/// cell `n + 1` steps out: on one of the first `n` steps along `(dx, dy)`.
pub open spec fn on_ray(x: int, y: int, dx: int, dy: int, n: int, i: int, j: int) -> bool {
    exists|t: int| 1 <= t <= n && i == #[trigger] step(x, dx, t) && j == step(y, dy, t)
}

/// If a walk of `t` steps with a nonzero per-step offset starts and ends
/// inside `[0, m)` on that axis, it took fewer than `m` steps.
pub proof fn lemma_steps_bounded(a: int, d: int, t: int, m: int)
    requires
        t >= 0,
        d <= -1 || d >= 1,
        0 <= a < m,
        0 <= a + t * d < m,
    ensures
        t < m,
{
    assert(t < m) by (nonlinear_arith)
        requires
            t >= 0,
            d <= -1 || d >= 1,
            0 <= a < m,
            0 <= a + t * d < m,
    {
    }
}

/// Distinct in-bounds positions have distinct row-major indices.
pub proof fn lemma_rowmajor_injective(w: int, x1: int, y1: int, x2: int, y2: int)
    requires
        w > 0,
        0 <= x1 < w,
        0 <= x2 < w,
        0 <= y1,
        0 <= y2,
    ensures
        (y1 * w + x1 == y2 * w + x2) <==> (x1 == x2 && y1 == y2),
{
    assert((y1 * w + x1 == y2 * w + x2) <==> (x1 == x2 && y1 == y2)) by (nonlinear_arith)
        requires
            w > 0,
            0 <= x1 < w,
            0 <= x2 < w,
            0 <= y1,
            0 <= y2,
    {
    }
}

/// The row-major index of an in-bounds position lies inside the grid.
pub proof fn lemma_rowmajor_in_range(w: int, h: int, x: int, y: int)
    requires
        0 <= x < w,
        0 <= y < h,
    ensures
        0 <= y * w + x < w * h,
    {
    assert(0 <= y * w + x < w * h) by (nonlinear_arith)
        requires
            0 <= x < w,
            0 <= y < h,
    {
    }
}

/// The mathematical state of a board: extents, the grid in row-major order,
/// and the history of accepted placements.
#[verifier::ext_equal]
pub ghost struct BoardModel {
    pub width: int,
    pub height: int,
    pub cells: Seq<CellState>,
    pub record: Seq<(Player, (int, int))>,
}

impl BoardModel {
    /// Well-formed: extents the engine accepts, and one cell per position.
    pub open spec fn wf(self) -> bool {
        &&& 2 <= self.width <= MAX_DIM as int
        &&& 2 <= self.height <= MAX_DIM as int
        &&& self.cells.len() == self.width * self.height
    }

    pub open spec fn in_bounds(self, x: int, y: int) -> bool {
        0 <= x < self.width && 0 <= y < self.height
    }

    /// Row-major index of a position.
    pub open spec fn idx(self, x: int, y: int) -> int {
        y * self.width + x
    }

    pub open spec fn cell(self, x: int, y: int) -> CellState {
        self.cells[self.idx(x, y)]
    }

    /// Whether the cell `t` steps from `(x, y)` along `(dx, dy)` is on the
    /// board.
    pub open spec fn ray_in_bounds(self, x: int, y: int, dx: int, dy: int, t: int) -> bool {
        self.in_bounds(step(x, dx, t), step(y, dy, t))
    }

    /// The cell `t` steps from `(x, y)` along `(dx, dy)`.
    pub open spec fn ray_cell(self, x: int, y: int, dx: int, dy: int, t: int) -> CellState {
        self.cell(step(x, dx, t), step(y, dy, t))
    }

    /// Placing at `(x, y)` captures exactly `n` discs along `(dx, dy)`: the
    /// first `n` steps hold opponent discs and step `n + 1` holds a disc of
    /// `p`, all on the board.  An unterminated run is not a capture.
    pub open spec fn captures_exactly(
        self,
        x: int,
        y: int,
        dx: int,
        dy: int,
        p: Player,
        n: int,
    ) -> bool {
        &&& 0 <= n
        &&& forall|t: int|
            1 <= t <= n ==> self.ray_in_bounds(x, y, dx, dy, t) && (#[trigger] self.ray_cell(
                x,
                y,
                dx,
                dy,
                t,
            )) == cell_of(spec_opponent(p))
        &&& self.ray_in_bounds(x, y, dx, dy, n + 1)
        &&& self.ray_cell(x, y, dx, dy, n + 1) == cell_of(p)
    }

    /// A placement at `(x, y)` is legal for `p`: the cell is on the board,
    /// empty, and some direction captures at least one disc.
    pub open spec fn can_place(self, x: int, y: int, p: Player) -> bool {
        &&& self.in_bounds(x, y)
        &&& self.cell(x, y) == CellState::Empty
        &&& exists|dx: int, dy: int, n: int|
            is_dir(dx, dy) && n > 0 && #[trigger] self.captures_exactly(x, y, dx, dy, p, n)
    }

    /// Whether some cell of the board would be flipped by a placement of `p`
    /// at `(x, y)`.
    pub open spec fn flips(self, x: int, y: int, p: Player, i: int, j: int) -> bool {
        exists|dx: int, dy: int, n: int|
            is_dir(dx, dy) && #[trigger] self.captures_exactly(x, y, dx, dy, p, n) && on_ray(
                x,
                y,
                dx,
                dy,
                n,
                i,
                j,
            )
    }

    /// `p` has no legal placement anywhere on the board.
    pub open spec fn must_pass(self, p: Player) -> bool {
        forall|x: int, y: int| !(#[trigger] self.can_place(x, y, p))
    }
}

/// At most one capture count fits a given origin and direction.
pub proof fn lemma_capture_unique(
    m: BoardModel,
    x: int,
    y: int,
    dx: int,
    dy: int,
    p: Player,
    n1: int,
    n2: int,
)
    requires
        m.captures_exactly(x, y, dx, dy, p, n1),
        m.captures_exactly(x, y, dx, dy, p, n2),
    ensures
        n1 == n2,
{
    if n1 < n2 {
        assert(m.ray_cell(x, y, dx, dy, n1 + 1) == cell_of(spec_opponent(p)));
    } else if n2 < n1 {
        assert(m.ray_cell(x, y, dx, dy, n2 + 1) == cell_of(spec_opponent(p)));
    }
}

/// A capture run is shorter than either extent of a well-formed board.
pub proof fn lemma_capture_bound(
    m: BoardModel,
    x: int,
    y: int,
    dx: int,
    dy: int,
    p: Player,
    n: int,
)
    requires
        m.wf(),
        m.in_bounds(x, y),
        dx != 0 || dy != 0,
        m.captures_exactly(x, y, dx, dy, p, n),
    ensures
        0 <= n < MAX_DIM as int,
{
    assert(m.ray_in_bounds(x, y, dx, dy, n + 1));
    if dx != 0 {
        lemma_steps_bounded(x, dx, n + 1, m.width);
    } else {
        lemma_steps_bounded(y, dy, n + 1, m.height);
    }
}

/// A board whose cells agree with another board's along a ray admits exactly
/// the same captures along that ray.
pub proof fn lemma_capture_frame(
    m1: BoardModel,
    m2: BoardModel,
    x: int,
    y: int,
    dx: int,
    dy: int,
    p: Player,
)
    requires
        m1.width == m2.width,
        m1.height == m2.height,
        forall|t: int|
            t >= 1 && m1.ray_in_bounds(x, y, dx, dy, t) ==> (#[trigger] m1.ray_cell(
                x,
                y,
                dx,
                dy,
                t,
            )) == m2.ray_cell(x, y, dx, dy, t),
    ensures
        forall|n: int|
            m1.captures_exactly(x, y, dx, dy, p, n) == m2.captures_exactly(x, y, dx, dy, p, n),
{
    assert forall|n: int|
        m1.captures_exactly(x, y, dx, dy, p, n) == m2.captures_exactly(
            x,
            y,
            dx,
            dy,
            p,
            n,
        ) by {
        if m1.captures_exactly(x, y, dx, dy, p, n) {
            assert forall|t: int| 1 <= t <= n implies m2.ray_in_bounds(x, y, dx, dy, t) && (
            #[trigger] m2.ray_cell(x, y, dx, dy, t)) == cell_of(spec_opponent(p)) by {
                assert(m1.ray_cell(x, y, dx, dy, t) == cell_of(spec_opponent(p)));
            }
            assert(m1.ray_cell(x, y, dx, dy, n + 1) == m2.ray_cell(x, y, dx, dy, n + 1));
            assert(m2.captures_exactly(x, y, dx, dy, p, n));
        }
        if m2.captures_exactly(x, y, dx, dy, p, n) {
            assert forall|t: int| 1 <= t <= n implies m1.ray_in_bounds(x, y, dx, dy, t) && (
            #[trigger] m1.ray_cell(x, y, dx, dy, t)) == cell_of(spec_opponent(p)) by {
                assert(m2.ray_cell(x, y, dx, dy, t) == cell_of(spec_opponent(p)));
                assert(m1.ray_cell(x, y, dx, dy, t) == m2.ray_cell(x, y, dx, dy, t));
            }
            assert(m1.ray_cell(x, y, dx, dy, n + 1) == m2.ray_cell(x, y, dx, dy, n + 1));
            assert(m1.captures_exactly(x, y, dx, dy, p, n));
        }
    }
}

/// Every row-major index denotes exactly one in-bounds position.
pub proof fn lemma_rowmajor_surjective(w: int, h: int, k: int)
    requires
        w > 0,
        h > 0,
        0 <= k < w * h,
    ensures
        0 <= k % w < w,
        0 <= k / w < h,
        (k / w) * w + (k % w) == k,
{
    vstd::arithmetic::div_mod::lemma_fundamental_div_mod(k, w);
    vstd::arithmetic::div_mod::lemma_mod_bound(k, w);
    vstd::arithmetic::div_mod::lemma_div_pos_is_pos(k, w);
    let q: int = k / w;
    let r: int = k % w;
    assert(k == w * q + r);
    assert(q * w == w * q) by (nonlinear_arith);
    if q >= h {
        vstd::arithmetic::mul::lemma_mul_inequality(h, q, w);
        assert(h * w <= q * w);
        assert(w * h == h * w) by (nonlinear_arith);
        assert(false);
    }
}

/// Entries of `dir_seq` are pairwise distinct.
pub proof fn lemma_dir_seq_distinct(j1: int, j2: int)
    requires
        0 <= j1 < 8,
        0 <= j2 < 8,
        j1 != j2,
    ensures
        dir_seq()[j1] != dir_seq()[j2],
{
}

/// Whether `(i, j)` is flipped by one of the first `k` scan directions when
/// `p` places at `(x, y)` on board `pre`.
pub open spec fn flips_upto(
    pre: BoardModel,
    x: int,
    y: int,
    p: Player,
    k: int,
    i: int,
    j: int,
) -> bool {
    exists|jj: int, n: int|
        0 <= jj < k && #[trigger] pre.captures_exactly(x, y, dir_seq()[jj].0, dir_seq()[jj].1, p, n)
            && on_ray(x, y, dir_seq()[jj].0, dir_seq()[jj].1, n, i, j)
}

/// Exhausting the scan order, `flips_upto` is exactly `flips`.
pub proof fn lemma_flips_upto_all(pre: BoardModel, x: int, y: int, p: Player, i: int, j: int)
    ensures
        flips_upto(pre, x, y, p, 8, i, j) == pre.flips(x, y, p, i, j),
{
    if flips_upto(pre, x, y, p, 8, i, j) {
        let (jj, n) = choose|jj: int, n: int|
            0 <= jj < 8 && #[trigger] pre.captures_exactly(
                x,
                y,
                dir_seq()[jj].0,
                dir_seq()[jj].1,
                p,
                n,
            ) && on_ray(x, y, dir_seq()[jj].0, dir_seq()[jj].1, n, i, j);
        lemma_dir_seq_is_dir(jj);
        assert(pre.flips(x, y, p, i, j));
    }
    if pre.flips(x, y, p, i, j) {
        let (dx, dy, n) = choose|dx: int, dy: int, n: int|
            is_dir(dx, dy) && #[trigger] pre.captures_exactly(x, y, dx, dy, p, n) && on_ray(
                x,
                y,
                dx,
                dy,
                n,
                i,
                j,
            );
        lemma_dir_seq_complete(dx, dy);
        let jj = choose|jj: int| 0 <= jj < 8 && #[trigger] dir_seq()[jj] == (dx, dy);
        assert(pre.captures_exactly(x, y, dir_seq()[jj].0, dir_seq()[jj].1, p, n));
        assert(flips_upto(pre, x, y, p, 8, i, j));
    }
}

/// A positive capture along some scan-order direction is a positive capture
/// along some compass direction, and conversely.
pub proof fn lemma_any_dir_capture(pre: BoardModel, x: int, y: int, p: Player)
    ensures
        (exists|jj: int, n: int|
            0 <= jj < 8 && n > 0 && #[trigger] pre.captures_exactly(
                x,
                y,
                dir_seq()[jj].0,
                dir_seq()[jj].1,
                p,
                n,
            )) == (exists|dx: int, dy: int, n: int|
            is_dir(dx, dy) && n > 0 && #[trigger] pre.captures_exactly(x, y, dx, dy, p, n)),
{
    if exists|jj: int, n: int|
        0 <= jj < 8 && n > 0 && #[trigger] pre.captures_exactly(
            x,
            y,
            dir_seq()[jj].0,
            dir_seq()[jj].1,
            p,
            n,
        ) {
        let (jj, n) = choose|jj: int, n: int|
            0 <= jj < 8 && n > 0 && #[trigger] pre.captures_exactly(
                x,
                y,
                dir_seq()[jj].0,
                dir_seq()[jj].1,
                p,
                n,
            );
        lemma_dir_seq_is_dir(jj);
        assert(pre.captures_exactly(x, y, dir_seq()[jj].0, dir_seq()[jj].1, p, n));
    }
    if exists|dx: int, dy: int, n: int|
        is_dir(dx, dy) && n > 0 && #[trigger] pre.captures_exactly(x, y, dx, dy, p, n) {
        let (dx, dy, n) = choose|dx: int, dy: int, n: int|
            is_dir(dx, dy) && n > 0 && #[trigger] pre.captures_exactly(x, y, dx, dy, p, n);
        lemma_dir_seq_complete(dx, dy);
        let jj = choose|jj: int| 0 <= jj < 8 && #[trigger] dir_seq()[jj] == (dx, dy);
        assert(pre.captures_exactly(x, y, dir_seq()[jj].0, dir_seq()[jj].1, p, n));
    }
}

/// The full contract of a placement: on success the origin and every
/// flipped cell hold `p`'s disc, everything else is untouched, and the move
/// is appended to the history; on failure the board is unchanged and the
/// error says exactly why.
pub open spec fn put_outcome(
    pre: BoardModel,
    post: BoardModel,
    x: int,
    y: int,
    p: Player,
    r: Result<(), PlacementError>,
) -> bool {
    match r {
        Ok(()) => {
            &&& pre.can_place(x, y, p)
            &&& post.width == pre.width
            &&& post.height == pre.height
            &&& post.cells.len() == pre.cells.len()
            &&& post.record == pre.record.push((p, (x, y)))
            &&& forall|i: int, j: int|
                pre.in_bounds(i, j) ==> #[trigger] post.cell(i, j) == (if i == x && j == y {
                    cell_of(p)
                } else if pre.flips(x, y, p, i, j) {
                    cell_of(p)
                } else {
                    pre.cell(i, j)
                })
        },
        Err(PlacementError::CellOccupied) => post == pre && pre.cell(x, y) != CellState::Empty,
        Err(PlacementError::NoCaptures) => post == pre && pre.cell(x, y) == CellState::Empty
            && !pre.can_place(x, y, p),
    }
}

/// Law: a placement immediately followed by a read of the same cell sees
/// the placing player's disc exactly when the placement succeeded, and a
/// failed placement leaves the board unchanged.  Stated for cells that do
/// not already hold the placing player's disc: on one that does, a failed
/// placement also reads that disc back.
pub proof fn lemma_put_then_get(
    pre: BoardModel,
    post: BoardModel,
    x: int,
    y: int,
    p: Player,
    r: Result<(), PlacementError>,
)
    requires
        pre.in_bounds(x, y),
        pre.cell(x, y) != cell_of(p),
        put_outcome(pre, post, x, y, p, r),
    ensures
        r is Ok <==> post.cell(x, y) == cell_of(p),
        r is Err ==> post == pre,
{
    if r is Ok {
        assert(post.cell(x, y) == cell_of(p));
    }
}

/// Law: placing on an already-occupied cell fails with `CellOccupied` every
/// time and never mutates the board, however often it is retried.
pub proof fn lemma_occupied_put_idempotent(
    pre: BoardModel,
    mid: BoardModel,
    post: BoardModel,
    x: int,
    y: int,
    p: Player,
    r1: Result<(), PlacementError>,
    r2: Result<(), PlacementError>,
)
    requires
        pre.cell(x, y) != CellState::Empty,
        put_outcome(pre, mid, x, y, p, r1),
        put_outcome(mid, post, x, y, p, r2),
    ensures
        r1 == Err::<(), PlacementError>(PlacementError::CellOccupied),
        r2 == Err::<(), PlacementError>(PlacementError::CellOccupied),
        mid == pre,
        post == pre,
{
}

/// Law: a disc, once on the board, never leaves it — a placement only adds
/// a disc and changes owners, so no occupied cell ever becomes empty again.
pub proof fn lemma_discs_never_removed(
    pre: BoardModel,
    post: BoardModel,
    x: int,
    y: int,
    p: Player,
    r: Result<(), PlacementError>,
)
    requires
        put_outcome(pre, post, x, y, p, r),
    ensures
        forall|i: int, j: int|
            pre.in_bounds(i, j) && pre.cell(i, j) != CellState::Empty ==> #[trigger] post.cell(
                i,
                j,
            ) != CellState::Empty,
{
}

/// Law: the history grows by exactly the accepted placement on success and
/// is untouched on failure, so its length counts the successful placements.
pub proof fn lemma_record_tracks_successes(
    pre: BoardModel,
    post: BoardModel,
    x: int,
    y: int,
    p: Player,
    r: Result<(), PlacementError>,
)
    requires
        put_outcome(pre, post, x, y, p, r),
    ensures
        r is Ok ==> post.record.len() == pre.record.len() + 1 && post.record.last() == (
        p,
        (x, y),
        ) && post.record.take(pre.record.len() as int) == pre.record,
        r is Err ==> post.record == pre.record,
{
    if r is Ok {
        assert(post.record.take(pre.record.len() as int) =~= pre.record);
    }
}

/// Law: on a board with no empty cell, every player must pass — a full
/// board is one way the game ends.
pub proof fn lemma_full_board_passes(m: BoardModel, p: Player)
    requires
        forall|x: int, y: int| m.in_bounds(x, y) ==> #[trigger] m.cell(x, y) != CellState::Empty,
    ensures
        m.must_pass(p),
{
    assert forall|x: int, y: int| !(#[trigger] m.can_place(x, y, p)) by {
        if m.can_place(x, y, p) {
            assert(m.cell(x, y) != CellState::Empty);
        }
    }
}

/// Two grids whose cells are empty in the same places hold equally many
/// empty cells.
proof fn lemma_count_empty_equal(a: Seq<CellState>, b: Seq<CellState>)
    requires
        a.len() == b.len(),
        forall|k: int| 0 <= k < a.len() ==> ((#[trigger] a[k] == CellState::Empty) <==> (#[trigger] b[k] == CellState::Empty)),
    ensures
        count_cells(a, CellState::Empty) == count_cells(b, CellState::Empty),
    decreases a.len(),
{
    if a.len() > 0 {
        lemma_count_empty_equal(a.drop_last(), b.drop_last());
    }
}

/// Two grids whose cells are empty in the same places, except one where
/// only the first is empty, differ by exactly one in their empty counts.
proof fn lemma_count_empty_one_filled(a: Seq<CellState>, b: Seq<CellState>, k0: int)
    requires
        a.len() == b.len(),
        0 <= k0 < a.len(),
        a[k0] == CellState::Empty,
        b[k0] != CellState::Empty,
        forall|k: int|
            0 <= k < a.len() && k != k0 ==> ((#[trigger] a[k] == CellState::Empty) <==> (
            #[trigger] b[k] == CellState::Empty)),
    ensures
        count_cells(b, CellState::Empty) + 1 == count_cells(a, CellState::Empty),
    decreases a.len(),
{
    let last = a.len() - 1;
    if k0 == last {
        lemma_count_empty_equal(a.drop_last(), b.drop_last());
    } else {
        lemma_count_empty_one_filled(a.drop_last(), b.drop_last(), k0);
    }
}

/// Law: a successful placement fills exactly one empty cell — the origin —
/// since every flipped cell already held an opponent disc.
pub proof fn lemma_put_empty_count(
    pre: BoardModel,
    post: BoardModel,
    x: int,
    y: int,
    p: Player,
    r: Result<(), PlacementError>,
)
    requires
        pre.wf(),
        post.wf(),
        put_outcome(pre, post, x, y, p, r),
        r is Ok,
    ensures
        count_cells(post.cells, CellState::Empty) + 1 == count_cells(pre.cells, CellState::Empty),
{
    let k0 = pre.idx(x, y);
    lemma_rowmajor_in_range(pre.width, pre.height, x, y);
    assert(pre.cells[k0] == CellState::Empty);
    assert(post.cell(x, y) == cell_of(p));
    assert(post.cells[k0] != CellState::Empty);
    assert forall|k: int| 0 <= k < pre.cells.len() && k != k0 implies ((#[trigger] pre.cells[k]
        == CellState::Empty) <==> (#[trigger] post.cells[k] == CellState::Empty)) by {
        lemma_rowmajor_surjective(pre.width, pre.height, k);
        let i = k % pre.width;
        let j = k / pre.width;
        lemma_rowmajor_injective(pre.width, i, j, x, y);
        assert(pre.cell(i, j) == pre.cells[k]);
        assert(post.cell(i, j) == post.cells[k]);
        if pre.flips(x, y, p, i, j) {
            // A flipped cell held an opponent disc before and holds `p`'s
            // disc after: non-empty on both sides.
            let (dx, dy, n) = choose|dx: int, dy: int, n: int|
                is_dir(dx, dy) && #[trigger] pre.captures_exactly(x, y, dx, dy, p, n) && on_ray(
                    x,
                    y,
                    dx,
                    dy,
                    n,
                    i,
                    j,
                );
            let t = choose|t: int|
                1 <= t <= n && i == #[trigger] step(x, dx, t) && j == step(y, dy, t);
            assert(pre.ray_cell(x, y, dx, dy, t) == cell_of(spec_opponent(p)));
        }
    }
    lemma_count_empty_one_filled(pre.cells, post.cells, k0);
}

/// The disc placed in the canonical opening at `(x, y)` of a fresh
/// `w` by `h` board: two diagonally opposed discs per player around the
/// center, every other cell empty.
pub open spec fn opening_cell(w: int, h: int, x: int, y: int) -> CellState {
    if x == w / 2 - 1 && y == h / 2 - 1 {
        CellState::First
    } else if x == w / 2 && y == h / 2 - 1 {
        CellState::Second
    } else if x == w / 2 - 1 && y == h / 2 {
        CellState::Second
    } else if x == w / 2 && y == h / 2 {
        CellState::First
    } else {
        CellState::Empty
    }
}

/// The playing board: a grid of cell states plus the ordered history of
/// accepted placements.
#[derive(Clone, Debug)]
pub struct Board {
    dims: Dimensions,
    cells: Vec<CellState>,
    record: Vec<(Player, Coordinate)>,
}

impl View for Board {
    type V = BoardModel;

    closed spec fn view(&self) -> BoardModel {
        BoardModel {
            width: self.dims.w(),
            height: self.dims.h(),
            cells: self.cells@,
            record: self.record@.map_values(|pc: (Player, Coordinate)| (pc.0, pc.1@)),
        }
    }
}

impl Board {
    /// A fresh board of the given extents: every cell empty but the four
    /// canonical opening discs, and an empty history.
    pub fn new(dims: Dimensions) -> (r: Board)
        requires
            dims.valid(),
        ensures
            r@.wf(),
            r@.width == dims.w(),
            r@.height == dims.h(),
            r@.record.len() == 0,
            forall|x: int, y: int|
                r@.in_bounds(x, y) ==> #[trigger] r@.cell(x, y) == opening_cell(
                    dims.w(),
                    dims.h(),
                    x,
                    y,
                ),
    {
        let w = dims.width();
        let h = dims.height();
        proof {
            assert(w as int * h as int <= MAX_DIM as int * MAX_DIM as int) by (nonlinear_arith)
                requires
                    0 <= w as int <= MAX_DIM as int,
                    0 <= h as int <= MAX_DIM as int,
            {
            }
        }
        let n = w * h;
        let mut cells: Vec<CellState> = Vec::new();
        let mut i: usize = 0;
        while i < n
            invariant
                i <= n,
                cells@.len() == i as int,
                forall|k: int| 0 <= k < i as int ==> cells@[k] == CellState::Empty,
            decreases n - i,
        {
            cells.push(CellState::Empty);
            i = i + 1;
        }
        let mut b = Board { dims, cells, record: Vec::new() };
        proof {
            assert forall|x: int, y: int| b@.in_bounds(x, y) implies #[trigger] b@.cell(x, y)
                == CellState::Empty by {
                lemma_rowmajor_in_range(b@.width, b@.height, x, y);
            }
        }
        let nx = w / 2;
        let ny = h / 2;
        b.set_cell_at(nx - 1, ny - 1, CellState::First);
        b.set_cell_at(nx, ny - 1, CellState::Second);
        b.set_cell_at(nx - 1, ny, CellState::Second);
        b.set_cell_at(nx, ny, CellState::First);
        b
    }

    /// The extents the board was built with.
    pub fn dims(&self) -> (d: Dimensions)
        ensures
            d.w() == self@.width,
            d.h() == self@.height,
            self@.wf() ==> d.valid(),
    {
        self.dims
    }

    /// Row-major index of an on-board coordinate.
    fn index_of(&self, c: Coordinate) -> (i: usize)
        requires
            self@.wf(),
            self@.in_bounds(c@.0, c@.1),
        ensures
            i as int == self@.idx(c@.0, c@.1),
            i < self@.cells.len(),
    {
        let n = self.cells.len();
        proof {
            lemma_rowmajor_in_range(self@.width, self@.height, c@.0, c@.1);
        }
        c.y() * self.dims.width() + c.x()
    }

    /// Overwrites one cell; the engine's only mutation of the grid.
    fn set_cell_at(&mut self, x: usize, y: usize, s: CellState)
        requires
            old(self)@.wf(),
            old(self)@.in_bounds(x as int, y as int),
        ensures
            final(self)@.wf(),
            final(self)@.width == old(self)@.width,
            final(self)@.height == old(self)@.height,
            final(self)@.cells.len() == old(self)@.cells.len(),
            final(self)@.record == old(self)@.record,
            forall|i: int, j: int|
                old(self)@.in_bounds(i, j) ==> #[trigger] final(self)@.cell(i, j) == (if i
                    == x as int && j == y as int {
                    s
                } else {
                    old(self)@.cell(i, j)
                }),
    {
        let n = self.cells.len();
        proof {
            lemma_rowmajor_in_range(self@.width, self@.height, x as int, y as int);
        }
        let i = y * self.dims.width() + x;
        self.cells[i] = s;
        proof {
            assert forall|a: int, b: int| old(self)@.in_bounds(a, b) implies #[trigger] self@.cell(
                a,
                b,
            ) == (if a == x as int && b == y as int {
                s
            } else {
                old(self)@.cell(a, b)
            }) by {
                lemma_rowmajor_in_range(old(self)@.width, old(self)@.height, a, b);
                lemma_rowmajor_injective(old(self)@.width, a, b, x as int, y as int);
            }
        }
    }

    /// The state of one cell.  Total over on-board coordinates.
    pub fn get_cell(&self, c: Coordinate) -> (r: &CellState)
        requires
            self@.wf(),
            self@.in_bounds(c@.0, c@.1),
        ensures
            *r == self@.cell(c@.0, c@.1),
    {
        let i = self.index_of(c);
        &self.cells[i]
    }

    /// Tallies the whole grid: cells owned by each player, and empty cells.
    pub fn stat(&self) -> (s: Stat)
        requires
            self@.wf(),
        ensures
            s.first as int == count_cells(self@.cells, CellState::First),
            s.second as int == count_cells(self@.cells, CellState::Second),
            s.empty as int == count_cells(self@.cells, CellState::Empty),
            s.first + s.second + s.empty == self@.cells.len(),
    {
        let mut first: usize = 0;
        let mut second: usize = 0;
        let mut empty: usize = 0;
        let n = self.cells.len();
        let mut i: usize = 0;
        while i < n
            invariant
                i <= n,
                n == self@.cells.len(),
                first as int == count_cells(self@.cells.take(i as int), CellState::First),
                second as int == count_cells(self@.cells.take(i as int), CellState::Second),
                empty as int == count_cells(self@.cells.take(i as int), CellState::Empty),
                first + second + empty == i,
            decreases n - i,
        {
            proof {
                lemma_count_take_step(self@.cells, CellState::First, i as int);
                lemma_count_take_step(self@.cells, CellState::Second, i as int);
                lemma_count_take_step(self@.cells, CellState::Empty, i as int);
            }
            match self.cells[i] {
                CellState::First => {
                    first = first + 1;
                },
                CellState::Second => {
                    second = second + 1;
                },
                CellState::Empty => {
                    empty = empty + 1;
                },
            }
            i = i + 1;
        }
        proof {
            assert(self@.cells.take(n as int) =~= self@.cells);
        }
        Stat { first, second, empty }
    }

    /// Read-only capture probe: walks outward from `at` one step at a time
    /// along `dir`.  Succeeds with the number of opponent discs crossed
    /// before a disc of `p`; fails if the walk falls off the board or meets
    /// an empty cell first.  Reused by legality checking and by the advisor.
    pub fn flipable(&self, at: Coordinate, dir: Vector, p: Player) -> (r: Result<
        usize,
        NotCapturable,
    >)
        requires
            self@.wf(),
            self@.in_bounds(at@.0, at@.1),
            dir.x != 0 || dir.y != 0,
        ensures
            match r {
                Ok(n) => self@.captures_exactly(
                    at@.0,
                    at@.1,
                    dir.x as int,
                    dir.y as int,
                    p,
                    n as int,
                ),
                Err(_) => forall|n: int|
                    !self@.captures_exactly(at@.0, at@.1, dir.x as int, dir.y as int, p, n),
            },
    {
        let ghost gx = at@.0;
        let ghost gy = at@.1;
        let ghost gdx = dir.x as int;
        let ghost gdy = dir.y as int;
        let dims = self.dims();
        let own = CellState::from(p);
        let opp = CellState::from(p.opponent());
        let mut cur = at;
        let mut count: usize = 0;
        loop
            invariant
                self@.wf(),
                dims.w() == self@.width,
                dims.h() == self@.height,
                self@.in_bounds(gx, gy),
                gx == at@.0 && gy == at@.1 && gdx == dir.x as int && gdy == dir.y as int,
                gdx != 0 || gdy != 0,
                own == cell_of(p),
                opp == cell_of(spec_opponent(p)),
                own != opp && own != CellState::Empty && opp != CellState::Empty,
                self@.in_bounds(cur@.0, cur@.1),
                cur@.0 == step(gx, gdx, count as int),
                cur@.1 == step(gy, gdy, count as int),
                (count as int) < MAX_DIM as int,
                forall|t: int|
                    1 <= t <= count as int ==> self@.ray_in_bounds(gx, gy, gdx, gdy, t) && (
                    #[trigger] self@.ray_cell(gx, gy, gdx, gdy, t)) == cell_of(spec_opponent(p)),
            decreases
                    if gdx > 0 {
                        self@.width - cur@.0
                    } else if gdx < 0 {
                        cur@.0 + 1
                    } else if gdy > 0 {
                        self@.height - cur@.1
                    } else {
                        cur@.1 + 1
                    },
        {
            proof {
                lemma_step_succ(gx, gdx, count as int);
                lemma_step_succ(gy, gdy, count as int);
            }
            match cur.try_add(dir, dims) {
                Err(_) => {
                    // The walk fell off the board: an unterminated run.
                    proof {
                        assert(!self@.ray_in_bounds(gx, gy, gdx, gdy, count as int + 1));
                        assert forall|n: int|
                            !self@.captures_exactly(gx, gy, gdx, gdy, p, n) by {
                            if self@.captures_exactly(gx, gy, gdx, gdy, p, n) {
                                if 0 <= n < count as int {
                                    assert(self@.ray_cell(gx, gy, gdx, gdy, n + 1) == cell_of(
                                        spec_opponent(p),
                                    ));
                                } else if n > count as int {
                                    assert(self@.ray_cell(gx, gy, gdx, gdy, count as int + 1)
                                        == cell_of(spec_opponent(p)));
                                }
                            }
                        }
                    }
                    return Err(NotCapturable);
                },
                Ok(next) => {
                    let s = *self.get_cell(next);
                    if s == own {
                        // Terminated by an own disc: `count` discs captured.
                        proof {
                            assert(self@.ray_cell(gx, gy, gdx, gdy, count as int + 1) == cell_of(
                                p,
                            ));
                            assert(self@.captures_exactly(gx, gy, gdx, gdy, p, count as int));
                        }
                        return Ok(count);
                    } else if s == opp {
                        // Crossing an opponent disc: keep walking.
                        proof {
                            if gdx != 0 {
                                lemma_steps_bounded(gx, gdx, count as int + 1, self@.width);
                            } else {
                                lemma_steps_bounded(gy, gdy, count as int + 1, self@.height);
                            }
                            assert(self@.ray_cell(gx, gy, gdx, gdy, count as int + 1) == cell_of(
                                spec_opponent(p),
                            ));
                        }
                        count = count + 1;
                        cur = next;
                    } else {
                        // Only two players exist, so the remaining state is
                        // Empty; the walk met an empty cell.
                        proof {
                            assert(s == CellState::Empty);
                            assert(self@.ray_cell(gx, gy, gdx, gdy, count as int + 1)
                                == CellState::Empty);
                            assert forall|n: int|
                                !self@.captures_exactly(gx, gy, gdx, gdy, p, n) by {
                                if self@.captures_exactly(gx, gy, gdx, gdy, p, n) {
                                    if 0 <= n < count as int {
                                        assert(self@.ray_cell(gx, gy, gdx, gdy, n + 1) == cell_of(
                                            spec_opponent(p),
                                        ));
                                    } else if n > count as int {
                                        assert(self@.ray_cell(gx, gy, gdx, gdy, count as int + 1)
                                            == cell_of(spec_opponent(p)));
                                    }
                                }
                            }
                        }
                        return Err(NotCapturable);
                    }
                },
            }
        }
    }

    /// Capture-and-flip variant of the probe: walks exactly as `flipable`
    /// and, only once a terminating own disc is confirmed, turns every
    /// crossed opponent disc into a disc of `p`.  On failure nothing along
    /// the direction is touched.
    fn flip(&mut self, at: Coordinate, dir: Vector, p: Player) -> (r: Result<usize, NotCapturable>)
        requires
            old(self)@.wf(),
            old(self)@.in_bounds(at@.0, at@.1),
            dir.x != 0 || dir.y != 0,
        ensures
            final(self)@.wf(),
            final(self)@.width == old(self)@.width,
            final(self)@.height == old(self)@.height,
            final(self)@.cells.len() == old(self)@.cells.len(),
            final(self)@.record == old(self)@.record,
            match r {
                Ok(n) => {
                    &&& old(self)@.captures_exactly(
                        at@.0,
                        at@.1,
                        dir.x as int,
                        dir.y as int,
                        p,
                        n as int,
                    )
                    &&& forall|i: int, j: int|
                        old(self)@.in_bounds(i, j) ==> #[trigger] final(self)@.cell(i, j) == (
                        if on_ray(at@.0, at@.1, dir.x as int, dir.y as int, n as int, i, j) {
                            cell_of(p)
                        } else {
                            old(self)@.cell(i, j)
                        })
                },
                Err(_) => {
                    &&& *final(self) == *old(self)
                    &&& forall|n: int|
                        !old(self)@.captures_exactly(at@.0, at@.1, dir.x as int, dir.y as int, p, n)
                },
            },
    {
        let ghost gx = at@.0;
        let ghost gy = at@.1;
        let ghost gdx = dir.x as int;
        let ghost gdy = dir.y as int;
        let n = match self.flipable(at, dir, p) {
            Err(e) => {
                return Err(e);
            },
            Ok(n) => n,
        };
        let ghost pre = self@;
        let dims = self.dims();
        let own = CellState::from(p);
        let mut t: usize = 0;
        let mut cur = at;
        while t < n
            invariant
                t <= n,
                pre.wf(),
                pre == old(self)@,
                pre.in_bounds(gx, gy),
                gx == at@.0 && gy == at@.1 && gdx == dir.x as int && gdy == dir.y as int,
                gdx != 0 || gdy != 0,
                dims.w() == pre.width,
                dims.h() == pre.height,
                own == cell_of(p),
                pre.captures_exactly(gx, gy, gdx, gdy, p, n as int),
                self@.wf(),
                self@.width == pre.width,
                self@.height == pre.height,
                self@.cells.len() == pre.cells.len(),
                self@.record == pre.record,
                cur@.0 == step(gx, gdx, t as int),
                cur@.1 == step(gy, gdy, t as int),
                self@.in_bounds(cur@.0, cur@.1),
                forall|i: int, j: int|
                    pre.in_bounds(i, j) ==> #[trigger] self@.cell(i, j) == (if on_ray(
                        gx,
                        gy,
                        gdx,
                        gdy,
                        t as int,
                        i,
                        j,
                    ) {
                        cell_of(p)
                    } else {
                        pre.cell(i, j)
                    }),
            decreases n - t,
        {
            proof {
                lemma_step_succ(gx, gdx, t as int);
                lemma_step_succ(gy, gdy, t as int);
                assert(pre.ray_cell(gx, gy, gdx, gdy, t as int + 1) == cell_of(spec_opponent(p)));
            }
            let next = match cur.try_add(dir, dims) {
                Ok(c) => c,
                Err(_) => {
                    // The walk that `flipable` certified stays on the board.
                    proof {
                        assert(false);
                    }
                    return Err(NotCapturable);
                },
            };
            self.set_cell_at(next.x(), next.y(), own);
            proof {
                let snapshot = self@;
                assert forall|i: int, j: int| pre.in_bounds(i, j) implies #[trigger] snapshot.cell(
                    i,
                    j,
                ) == (if on_ray(gx, gy, gdx, gdy, t as int + 1, i, j) {
                    cell_of(p)
                } else {
                    pre.cell(i, j)
                }) by {
                    if i == next@.0 && j == next@.1 {
                        assert(i == step(gx, gdx, t as int + 1) && j == step(gy, gdy, t as int + 1));
                        assert(on_ray(gx, gy, gdx, gdy, t as int + 1, i, j));
                    } else {
                        if on_ray(gx, gy, gdx, gdy, t as int + 1, i, j) {
                            let s = choose|s: int|
                                1 <= s <= t as int + 1 && i == #[trigger] step(gx, gdx, s) && j
                                    == step(gy, gdy, s);
                            if s == t as int + 1 {
                                assert(i == next@.0 && j == next@.1);
                            } else {
                                assert(on_ray(gx, gy, gdx, gdy, t as int, i, j));
                            }
                        }
                        if on_ray(gx, gy, gdx, gdy, t as int, i, j) {
                            let s = choose|s: int|
                                1 <= s <= t as int && i == #[trigger] step(gx, gdx, s) && j == step(
                                    gy,
                                    gdy,
                                    s,
                                );
                            assert(on_ray(gx, gy, gdx, gdy, t as int + 1, i, j));
                        }
                    }
                }
            }
            t = t + 1;
            cur = next;
        }
        Ok(n)
    }

    /// Attempts to place a disc of `p` at `c`.  On success every capturable
    /// run in each of the eight directions is flipped, the origin receives
    /// `p`'s disc, and the move is recorded; on failure the board is left
    /// untouched and the error names the reason.
    pub fn put(&mut self, c: Coordinate, p: Player) -> (r: Result<(), PlacementError>)
        requires
            old(self)@.wf(),
            old(self)@.in_bounds(c@.0, c@.1),
        ensures
            final(self)@.wf(),
            final(self)@.width == old(self)@.width,
            final(self)@.height == old(self)@.height,
            put_outcome(old(self)@, final(self)@, c@.0, c@.1, p, r),
    {
        let ghost gx = c@.0;
        let ghost gy = c@.1;
        if !self.get_cell(c).is_empty() {
            return Err(PlacementError::CellOccupied);
        }
        let ghost pre = self@;
        let dirs = Vector::directions();
        let mut k: usize = 0;
        let mut any: bool = false;
        while k < 8
            invariant
                k <= 8,
                pre.wf(),
                pre == old(self)@,
                pre.in_bounds(gx, gy),
                pre.cell(gx, gy) == CellState::Empty,
                gx == c@.0 && gy == c@.1,
                dirs@.len() == 8,
                forall|jj: int|
                    0 <= jj < 8 ==> (#[trigger] dirs@[jj]).x as int == dir_seq()[jj].0
                        && dirs@[jj].y as int == dir_seq()[jj].1,
                self@.wf(),
                self@.width == pre.width,
                self@.height == pre.height,
                self@.cells.len() == pre.cells.len(),
                self@.record == pre.record,
                forall|i: int, j: int|
                    pre.in_bounds(i, j) ==> #[trigger] self@.cell(i, j) == (if flips_upto(
                        pre,
                        gx,
                        gy,
                        p,
                        k as int,
                        i,
                        j,
                    ) {
                        cell_of(p)
                    } else {
                        pre.cell(i, j)
                    }),
                any == exists|jj: int, n: int|
                    0 <= jj < k as int && n > 0 && #[trigger] pre.captures_exactly(
                        gx,
                        gy,
                        dir_seq()[jj].0,
                        dir_seq()[jj].1,
                        p,
                        n,
                    ),
            decreases 8 - k,
        {
            let d = dirs[k];
            let ghost ddx = d.x as int;
            let ghost ddy = d.y as int;
            let ghost m = self@;
            proof {
                lemma_dir_seq_is_dir(k as int);
                // Cells along this direction's ray are untouched so far:
                // earlier directions flip only their own, disjoint rays.
                assert forall|t: int| t >= 1 && pre.ray_in_bounds(gx, gy, ddx, ddy, t) implies (
                #[trigger] pre.ray_cell(gx, gy, ddx, ddy, t)) == m.ray_cell(
                    gx,
                    gy,
                    ddx,
                    ddy,
                    t,
                ) by {
                    let ti = step(gx, ddx, t);
                    let tj = step(gy, ddy, t);
                    if flips_upto(pre, gx, gy, p, k as int, ti, tj) {
                        let (jj, n) = choose|jj: int, n: int|
                            0 <= jj < k as int && #[trigger] pre.captures_exactly(
                                gx,
                                gy,
                                dir_seq()[jj].0,
                                dir_seq()[jj].1,
                                p,
                                n,
                            ) && on_ray(gx, gy, dir_seq()[jj].0, dir_seq()[jj].1, n, ti, tj);
                        let s = choose|s: int|
                            1 <= s <= n && ti == #[trigger] step(gx, dir_seq()[jj].0, s) && tj
                                == step(gy, dir_seq()[jj].1, s);
                        lemma_dir_seq_is_dir(jj);
                        lemma_dir_seq_distinct(jj, k as int);
                        lemma_rays_disjoint(dir_seq()[jj].0, dir_seq()[jj].1, ddx, ddy, s, t);
                        assert(false);
                    }
                }
                lemma_capture_frame(pre, m, gx, gy, ddx, ddy, p);
            }
            match self.flip(c, d, p) {
                Ok(nn) => {
                    proof {
                        assert(pre.captures_exactly(gx, gy, ddx, ddy, p, nn as int));
                        assert forall|i: int, j: int| pre.in_bounds(i, j) implies #[trigger] self@.cell(
                            i,
                            j,
                        ) == (if flips_upto(pre, gx, gy, p, k as int + 1, i, j) {
                            cell_of(p)
                        } else {
                            pre.cell(i, j)
                        }) by {
                            if on_ray(gx, gy, ddx, ddy, nn as int, i, j) {
                                assert(flips_upto(pre, gx, gy, p, k as int + 1, i, j));
                            } else {
                                if flips_upto(pre, gx, gy, p, k as int + 1, i, j) {
                                    let (jj, n) = choose|jj: int, n: int|
                                        0 <= jj < k as int + 1 && #[trigger] pre.captures_exactly(
                                            gx,
                                            gy,
                                            dir_seq()[jj].0,
                                            dir_seq()[jj].1,
                                            p,
                                            n,
                                        ) && on_ray(
                                            gx,
                                            gy,
                                            dir_seq()[jj].0,
                                            dir_seq()[jj].1,
                                            n,
                                            i,
                                            j,
                                        );
                                    if jj == k as int {
                                        lemma_capture_unique(pre, gx, gy, ddx, ddy, p, n, nn as int);
                                        assert(false);
                                    } else {
                                        assert(flips_upto(pre, gx, gy, p, k as int, i, j));
                                    }
                                }
                                if flips_upto(pre, gx, gy, p, k as int, i, j) {
                                    assert(flips_upto(pre, gx, gy, p, k as int + 1, i, j));
                                }
                            }
                        }
                    }
                    if nn > 0 {
                        any = true;
                        proof {
                            assert(pre.captures_exactly(
                                gx,
                                gy,
                                dir_seq()[k as int].0,
                                dir_seq()[k as int].1,
                                p,
                                nn as int,
                            ));
                        }
                    } else {
                        proof {
                            if !any && exists|jj: int, n: int|
                                0 <= jj < k as int + 1 && n > 0 && #[trigger] pre.captures_exactly(
                                    gx,
                                    gy,
                                    dir_seq()[jj].0,
                                    dir_seq()[jj].1,
                                    p,
                                    n,
                                ) {
                                let (jj, n) = choose|jj: int, n: int|
                                    0 <= jj < k as int + 1 && n > 0
                                        && #[trigger] pre.captures_exactly(
                                        gx,
                                        gy,
                                        dir_seq()[jj].0,
                                        dir_seq()[jj].1,
                                        p,
                                        n,
                                    );
                                if jj == k as int {
                                    lemma_capture_unique(pre, gx, gy, ddx, ddy, p, n, nn as int);
                                }
                                assert(false);
                            }
                        }
                    }
                },
                Err(_) => {
                    proof {
                        assert forall|i: int, j: int|
                            flips_upto(pre, gx, gy, p, k as int + 1, i, j) == flips_upto(
                                pre,
                                gx,
                                gy,
                                p,
                                k as int,
                                i,
                                j,
                            ) by {
                            if flips_upto(pre, gx, gy, p, k as int + 1, i, j) {
                                let (jj, n) = choose|jj: int, n: int|
                                    0 <= jj < k as int + 1 && #[trigger] pre.captures_exactly(
                                        gx,
                                        gy,
                                        dir_seq()[jj].0,
                                        dir_seq()[jj].1,
                                        p,
                                        n,
                                    ) && on_ray(gx, gy, dir_seq()[jj].0, dir_seq()[jj].1, n, i, j);
                                if jj == k as int {
                                    assert(!m.captures_exactly(gx, gy, ddx, ddy, p, n));
                                    assert(false);
                                } else {
                                    assert(flips_upto(pre, gx, gy, p, k as int, i, j));
                                }
                            }
                            if flips_upto(pre, gx, gy, p, k as int, i, j) {
                                assert(flips_upto(pre, gx, gy, p, k as int + 1, i, j));
                            }
                        }
                        if !any && exists|jj: int, n: int|
                            0 <= jj < k as int + 1 && n > 0 && #[trigger] pre.captures_exactly(
                                gx,
                                gy,
                                dir_seq()[jj].0,
                                dir_seq()[jj].1,
                                p,
                                n,
                            ) {
                            let (jj, n) = choose|jj: int, n: int|
                                0 <= jj < k as int + 1 && n > 0 && #[trigger] pre.captures_exactly(
                                    gx,
                                    gy,
                                    dir_seq()[jj].0,
                                    dir_seq()[jj].1,
                                    p,
                                    n,
                                );
                            if jj == k as int {
                                assert(!m.captures_exactly(gx, gy, ddx, ddy, p, n));
                            }
                            assert(false);
                        }
                    }
                },
            }
            k = k + 1;
        }
        if !any {
            proof {
                assert forall|i: int, j: int| pre.in_bounds(i, j) implies self@.cell(i, j)
                    == pre.cell(i, j) by {
                    if flips_upto(pre, gx, gy, p, 8, i, j) {
                        let (jj, n) = choose|jj: int, n: int|
                            0 <= jj < 8 && #[trigger] pre.captures_exactly(
                                gx,
                                gy,
                                dir_seq()[jj].0,
                                dir_seq()[jj].1,
                                p,
                                n,
                            ) && on_ray(gx, gy, dir_seq()[jj].0, dir_seq()[jj].1, n, i, j);
                        let s = choose|s: int|
                            1 <= s <= n && i == #[trigger] step(gx, dir_seq()[jj].0, s) && j == step(
                                gy,
                                dir_seq()[jj].1,
                                s,
                            );
                        assert(n > 0);
                        assert(false);
                    }
                }
                assert forall|kk: int| 0 <= kk < self@.cells.len() implies self@.cells[kk]
                    == pre.cells[kk] by {
                    lemma_rowmajor_surjective(pre.width, pre.height, kk);
                    assert(self@.cell(kk % pre.width, kk / pre.width) == pre.cell(
                        kk % pre.width,
                        kk / pre.width,
                    ));
                }
                assert(self@.cells =~= pre.cells);
                assert(self@ =~= pre);
                lemma_any_dir_capture(pre, gx, gy, p);
            }
            return Err(PlacementError::NoCaptures);
        }
        proof {
            // The origin lies on no capture ray, so it is still empty.
            if flips_upto(pre, gx, gy, p, 8, gx, gy) {
                let (jj, n) = choose|jj: int, n: int|
                    0 <= jj < 8 && #[trigger] pre.captures_exactly(
                        gx,
                        gy,
                        dir_seq()[jj].0,
                        dir_seq()[jj].1,
                        p,
                        n,
                    ) && on_ray(gx, gy, dir_seq()[jj].0, dir_seq()[jj].1, n, gx, gy);
                let s = choose|s: int|
                    1 <= s <= n && gx == #[trigger] step(gx, dir_seq()[jj].0, s) && gy == step(
                        gy,
                        dir_seq()[jj].1,
                        s,
                    );
                lemma_dir_seq_is_dir(jj);
                lemma_ray_misses_origin(dir_seq()[jj].0, dir_seq()[jj].1, s);
                assert(false);
            }
        }
        let ghost m8 = self@;
        let own = CellState::from(p);
        self.record.push((p, c));
        let ghost m9 = self@;
        proof {
            assert(m9.record =~= pre.record.push((p, (gx, gy))));
        }
        self.set_cell_at(c.x(), c.y(), own);
        proof {
            lemma_any_dir_capture(pre, gx, gy, p);
            assert(pre.can_place(gx, gy, p));
            assert forall|i: int, j: int| pre.in_bounds(i, j) implies #[trigger] self@.cell(i, j)
                == (if i == gx && j == gy {
                cell_of(p)
            } else if pre.flips(gx, gy, p, i, j) {
                cell_of(p)
            } else {
                pre.cell(i, j)
            }) by {
                lemma_flips_upto_all(pre, gx, gy, p, i, j);
                assert(m9.cell(i, j) == m8.cell(i, j));
                assert(self@.cell(i, j) == (if i == gx && j == gy {
                    own
                } else {
                    m9.cell(i, j)
                }));
            }
        }
        Ok(())
    }

    /// Whether `p` has to pass: no empty cell admits a positive capture in
    /// any direction.  A full-board scan that stops at the first legal move.
    pub fn is_pass(&self, p: Player) -> (r: bool)
        requires
            self@.wf(),
        ensures
            r == self@.must_pass(p),
    {
        let dims = self.dims();
        let w = dims.width();
        let h = dims.height();
        let dirs = Vector::directions();
        let mut y: usize = 0;
        while y < h
            invariant
                y <= h,
                self@.wf(),
                dims.w() == self@.width,
                dims.h() == self@.height,
                w as int == self@.width,
                h as int == self@.height,
                dirs@.len() == 8,
                forall|jj: int|
                    0 <= jj < 8 ==> (#[trigger] dirs@[jj]).x as int == dir_seq()[jj].0
                        && dirs@[jj].y as int == dir_seq()[jj].1,
                forall|i: int, j: int|
                    0 <= j < y as int && 0 <= i < self@.width ==> !(#[trigger] self@.can_place(
                        i,
                        j,
                        p,
                    )),
            decreases h - y,
        {
            let mut x: usize = 0;
            while x < w
                invariant
                    x <= w,
                    y < h,
                    self@.wf(),
                    dims.w() == self@.width,
                    dims.h() == self@.height,
                    w as int == self@.width,
                    h as int == self@.height,
                    dirs@.len() == 8,
                    forall|jj: int|
                        0 <= jj < 8 ==> (#[trigger] dirs@[jj]).x as int == dir_seq()[jj].0
                            && dirs@[jj].y as int == dir_seq()[jj].1,
                    forall|i: int, j: int|
                        0 <= j < y as int && 0 <= i < self@.width ==> !(#[trigger] self@.can_place(
                            i,
                            j,
                            p,
                        )),
                    forall|i: int|
                        0 <= i < x as int ==> !(#[trigger] self@.can_place(i, y as int, p)),
                decreases w - x,
            {
                let c = match Coordinate::try_new(x, y, dims) {
                    Ok(c) => c,
                    Err(_) => {
                        // Both loop indices are strictly inside the extents.
                        proof {
                            assert(false);
                        }
                        return true;
                    },
                };
                if self.get_cell(c).is_empty() {
                    let mut k: usize = 0;
                    while k < 8
                        invariant
                            k <= 8,
                            self@.wf(),
                            self@.in_bounds(c@.0, c@.1),
                            self@.cell(c@.0, c@.1) == CellState::Empty,
                            c@.0 == x as int && c@.1 == y as int,
                            dirs@.len() == 8,
                            forall|jj: int|
                                0 <= jj < 8 ==> (#[trigger] dirs@[jj]).x as int == dir_seq()[jj].0
                                    && dirs@[jj].y as int == dir_seq()[jj].1,
                            forall|jj: int, n: int|
                                0 <= jj < k as int && n > 0 ==> !(#[trigger] self@.captures_exactly(
                                    c@.0,
                                    c@.1,
                                    dir_seq()[jj].0,
                                    dir_seq()[jj].1,
                                    p,
                                    n,
                                )),
                        decreases 8 - k,
                    {
                        proof {
                            lemma_dir_seq_is_dir(k as int);
                        }
                        match self.flipable(c, dirs[k], p) {
                            Ok(n) => {
                                if n > 0 {
                                    // A legal move exists, so `p` need not pass.
                                    proof {
                                        assert(self@.captures_exactly(
                                            c@.0,
                                            c@.1,
                                            dir_seq()[k as int].0,
                                            dir_seq()[k as int].1,
                                            p,
                                            n as int,
                                        ));
                                        assert(self@.can_place(c@.0, c@.1, p));
                                    }
                                    return false;
                                } else {
                                    proof {
                                        assert forall|nn: int| nn > 0 implies !self@.captures_exactly(
                                            c@.0,
                                            c@.1,
                                            dir_seq()[k as int].0,
                                            dir_seq()[k as int].1,
                                            p,
                                            nn,
                                        ) by {
                                            if self@.captures_exactly(
                                                c@.0,
                                                c@.1,
                                                dir_seq()[k as int].0,
                                                dir_seq()[k as int].1,
                                                p,
                                                nn,
                                            ) {
                                                lemma_capture_unique(
                                                    self@,
                                                    c@.0,
                                                    c@.1,
                                                    dir_seq()[k as int].0,
                                                    dir_seq()[k as int].1,
                                                    p,
                                                    nn,
                                                    n as int,
                                                );
                                            }
                                        }
                                    }
                                }
                            },
                            Err(_) => {},
                        }
                        k = k + 1;
                    }
                    proof {
                        if self@.can_place(c@.0, c@.1, p) {
                            let (dx, dy, n) = choose|dx: int, dy: int, n: int|
                                is_dir(dx, dy) && n > 0 && #[trigger] self@.captures_exactly(
                                    c@.0,
                                    c@.1,
                                    dx,
                                    dy,
                                    p,
                                    n,
                                );
                            lemma_dir_seq_complete(dx, dy);
                            let jj = choose|jj: int|
                                0 <= jj < 8 && #[trigger] dir_seq()[jj] == (dx, dy);
                            assert(!self@.captures_exactly(
                                c@.0,
                                c@.1,
                                dir_seq()[jj].0,
                                dir_seq()[jj].1,
                                p,
                                n,
                            ));
                            assert(false);
                        }
                    }
                } else {
                    proof {
                        assert(!self@.can_place(x as int, y as int, p));
                    }
                }
                x = x + 1;
            }
            y = y + 1;
        }
        proof {
            assert forall|i: int, j: int| !(#[trigger] self@.can_place(i, j, p)) by {
                if self@.can_place(i, j, p) {
                    assert(self@.in_bounds(i, j));
                }
            }
        }
        true
    }

    /// The ordered history of accepted placements, oldest first.
    pub fn record(&self) -> (r: &Vec<(Player, Coordinate)>)
        ensures
            r@.len() == self@.record.len(),
            forall|i: int|
                0 <= i < r@.len() ==> (#[trigger] r@[i]).0 == self@.record[i].0 && r@[i].1@
                    == self@.record[i].1,
    {
        &self.record
    }
}

} // verus!
