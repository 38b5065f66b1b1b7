//! Plane geometry for the board: signed offset vectors, the eight compass
//! directions, validated grid extents, and bounded coordinates.

use vstd::prelude::*;

verus! {

/// Largest extent the engine accepts along either axis.  Keeping both axes
/// under this bound keeps every cell index, and every sum of capture counts,
/// well inside `usize` arithmetic.
pub const MAX_DIM: usize = 65535;

/// Whether the mathematical integer `n` is representable as a `usize`.
pub open spec fn in_usize(n: int) -> bool {
    0 <= n <= usize::MAX as int
}

/// Why constructing or translating a coordinate failed.
#[derive(Clone, Copy, Debug, PartialEq, Eq, Structural)]
pub enum CoordinateError {
    /// The position lies outside the grid extents.
    OutOfBounds,
    /// The translated position is not representable in unsigned arithmetic.
    ArithmeticOverflow,
}

/// An offset in the plane.  The eight compass directions are the vectors
/// with both components in `{-1, 0, 1}`, the zero vector excluded; a
/// `Vector` itself may hold any signed offset.
#[derive(Clone, Copy, Debug, PartialEq, Eq, Structural)]
pub struct Vector {
    pub x: isize,
    pub y: isize,
}

/// The eight compass directions as component pairs, in the fixed order in
/// which every scan of the engine visits them.
pub open spec fn dir_seq() -> Seq<(int, int)> {
    seq![(-1, -1), (-1, 0), (-1, 1), (0, -1), (0, 1), (1, -1), (1, 0), (1, 1)]
}

/// Whether `(dx, dy)` is one of the eight compass directions.
pub open spec fn is_dir(dx: int, dy: int) -> bool {
    -1 <= dx <= 1 && -1 <= dy <= 1 && !(dx == 0 && dy == 0)
}

/// Every compass direction occurs in `dir_seq`.
pub proof fn lemma_dir_seq_complete(dx: int, dy: int)
    requires
        is_dir(dx, dy),
    ensures
        exists|j: int| 0 <= j < 8 && dir_seq()[j] == (dx, dy),
{
    if dx == -1 && dy == -1 {
        assert(dir_seq()[0] == (dx, dy));
    } else if dx == -1 && dy == 0 {
        assert(dir_seq()[1] == (dx, dy));
    } else if dx == -1 && dy == 1 {
        assert(dir_seq()[2] == (dx, dy));
    } else if dx == 0 && dy == -1 {
        assert(dir_seq()[3] == (dx, dy));
    } else if dx == 0 && dy == 1 {
        assert(dir_seq()[4] == (dx, dy));
    } else if dx == 1 && dy == -1 {
        assert(dir_seq()[5] == (dx, dy));
    } else if dx == 1 && dy == 0 {
        assert(dir_seq()[6] == (dx, dy));
    } else {
        assert(dir_seq()[7] == (dx, dy));
    }
}

/// Every entry of `dir_seq` is a compass direction.
pub proof fn lemma_dir_seq_is_dir(j: int)
    requires
        0 <= j < 8,
    ensures
        is_dir(dir_seq()[j].0, dir_seq()[j].1),
{
}

/// Two distinct compass directions never reach the same offset: walking `s`
/// steps one way and `t` steps the other lands on different cells.
pub proof fn lemma_rays_disjoint(dx1: int, dy1: int, dx2: int, dy2: int, s: int, t: int)
    requires
        is_dir(dx1, dy1),
        is_dir(dx2, dy2),
        !(dx1 == dx2 && dy1 == dy2),
        s >= 1,
        t >= 1,
    ensures
        s * dx1 != t * dx2 || s * dy1 != t * dy2,
{
    if s * dx1 == t * dx2 && s * dy1 == t * dy2 {
        assert(dx1 == dx2 && dy1 == dy2) by (nonlinear_arith)
            requires
                -1 <= dx1 <= 1,
                -1 <= dy1 <= 1,
                -1 <= dx2 <= 1,
                -1 <= dy2 <= 1,
                !(dx1 == 0 && dy1 == 0),
                !(dx2 == 0 && dy2 == 0),
                s >= 1,
                t >= 1,
                s * dx1 == t * dx2,
                s * dy1 == t * dy2,
        {
        }
    }
}

/// A cell strictly along a compass ray is never the ray's origin.
pub proof fn lemma_ray_misses_origin(dx: int, dy: int, s: int)
    requires
        is_dir(dx, dy),
        s >= 1,
    ensures
        s * dx != 0 || s * dy != 0,
{
    if dx != 0 {
        assert(s * dx != 0) by (nonlinear_arith)
            requires
                s >= 1,
                dx == -1 || dx == 1,
        {
        }
    } else {
        assert(s * dy != 0) by (nonlinear_arith)
            requires
                s >= 1,
                dy == -1 || dy == 1,
        {
        }
    }
}

impl Vector {
    pub fn new(x: isize, y: isize) -> (r: Vector)
        ensures
            r.x == x,
            r.y == y,
    {
        Vector { x, y }
    }

    pub fn is_zero(self) -> (r: bool)
        ensures
            r == (self.x == 0 && self.y == 0),
    {
        self.x == 0 && self.y == 0
    }

    /// The eight compass directions, in the fixed scan order of `dir_seq`.
    pub fn directions() -> (r: Vec<Vector>)
        ensures
            r@.len() == 8,
            forall|j: int|
                0 <= j < 8 ==> (#[trigger] r@[j]).x as int == dir_seq()[j].0 && r@[j].y as int
                    == dir_seq()[j].1,
    {
        let mut r: Vec<Vector> = Vec::new();
        r.push(Vector { x: -1, y: -1 });
        r.push(Vector { x: -1, y: 0 });
        r.push(Vector { x: -1, y: 1 });
        r.push(Vector { x: 0, y: -1 });
        r.push(Vector { x: 0, y: 1 });
        r.push(Vector { x: 1, y: -1 });
        r.push(Vector { x: 1, y: 0 });
        r.push(Vector { x: 1, y: 1 });
        r
    }
}

/// Grid extents, validated once at construction; every bounds check of the
/// engine reads from a value of this type.
#[derive(Clone, Copy, Debug, PartialEq, Eq, Structural)]
pub struct Dimensions {
    width: usize,
    height: usize,
}

impl Dimensions {
    /// The width as a mathematical integer.
    pub closed spec fn w(self) -> int {
        self.width as int
    }

    /// The height as a mathematical integer.
    pub closed spec fn h(self) -> int {
        self.height as int
    }

    /// Extents the engine accepts: at least the four opening cells fit, and
    /// both axes stay under `MAX_DIM`.
    pub open spec fn valid(self) -> bool {
        2 <= self.w() <= MAX_DIM as int && 2 <= self.h() <= MAX_DIM as int
    }

    /// Validates the extents once; all later bounds checks read the result.
    pub fn try_new(width: usize, height: usize) -> (r: Result<Dimensions, CoordinateError>)
        ensures
            match r {
                Ok(d) => d.w() == width as int && d.h() == height as int && d.valid(),
                Err(e) => e == CoordinateError::OutOfBounds && !(2 <= width <= MAX_DIM && 2
                    <= height <= MAX_DIM),
            },
    {
        if width < 2 || width > MAX_DIM || height < 2 || height > MAX_DIM {
            Err(CoordinateError::OutOfBounds)
        } else {
            Ok(Dimensions { width, height })
        }
    }

    pub fn width(&self) -> (r: usize)
        ensures
            r as int == self.w(),
    {
        self.width
    }

    pub fn height(&self) -> (r: usize)
        ensures
            r as int == self.h(),
    {
        self.height
    }
}

/// A position on the grid.  A value exists only for positions inside the
/// extents it was validated against.
#[derive(Clone, Copy, Debug, PartialEq, Eq, Structural)]
pub struct Coordinate {
    x: usize,
    y: usize,
}

impl View for Coordinate {
    type V = (int, int);

    closed spec fn view(&self) -> (int, int) {
        (self.x as int, self.y as int)
    }
}

/// Coordinates with equal components are the same value.
pub proof fn lemma_coordinate_eq(a: Coordinate, b: Coordinate)
    requires
        a@ == b@,
    ensures
        a == b,
{
}

impl Coordinate {
    /// Accepts exactly the positions inside `dims`.
    pub fn try_new(x: usize, y: usize, dims: Dimensions) -> (r: Result<
        Coordinate,
        CoordinateError,
    >)
        ensures
            match r {
                Ok(c) => c@ == (x as int, y as int) && (x as int) < dims.w() && (y as int) < dims.h(),
                Err(e) => e == CoordinateError::OutOfBounds && !((x as int) < dims.w() && (y as int) < dims.h()),
            },
    {
        if x < dims.width() && y < dims.height() {
            Ok(Coordinate { x, y })
        } else {
            Err(CoordinateError::OutOfBounds)
        }
    }

    /// Translates by `v` in signed arithmetic, guarding against underflow and
    /// overflow of the unsigned representation, then re-validates against
    /// `dims`.  This is the engine's only notion of a board edge.
    pub fn try_add(&self, v: Vector, dims: Dimensions) -> (r: Result<Coordinate, CoordinateError>)
        ensures
            match r {
                Ok(c) => {
                    &&& c@.0 == self@.0 + v.x as int
                    &&& c@.1 == self@.1 + v.y as int
                    &&& 0 <= c@.0 < dims.w()
                    &&& 0 <= c@.1 < dims.h()
                },
                Err(e) => ({
                    let nx = self@.0 + v.x as int;
                    let ny = self@.1 + v.y as int;
                    &&& !(0 <= nx < dims.w() && 0 <= ny < dims.h())
                    &&& e == (if in_usize(nx) && in_usize(ny) {
                        CoordinateError::OutOfBounds
                    } else {
                        CoordinateError::ArithmeticOverflow
                    })
                }),
            },
    {
        let nx = match add_offset(self.x, v.x) {
            Ok(n) => n,
            Err(e) => {
                return Err(e);
            },
        };
        let ny = match add_offset(self.y, v.y) {
            Ok(n) => n,
            Err(e) => {
                return Err(e);
            },
        };
        Coordinate::try_new(nx, ny, dims)
    }

    pub fn x(&self) -> (r: usize)
        ensures
            r as int == self@.0,
    {
        self.x
    }

    pub fn y(&self) -> (r: usize)
        ensures
            r as int == self@.1,
    {
        self.y
    }
}

/// Adds a signed offset to an unsigned position, failing exactly when the
/// exact result is not representable as a `usize`.
fn add_offset(u: usize, d: isize) -> (r: Result<usize, CoordinateError>)
    ensures
        match r {
            Ok(m) => m as int == u as int + d as int,
            Err(e) => e == CoordinateError::ArithmeticOverflow && !in_usize(u as int + d as int),
        },
{
    if d >= 0 {
        let mag = d as usize;
        if u <= usize::MAX - mag {
            Ok(u + mag)
        } else {
            Err(CoordinateError::ArithmeticOverflow)
        }
    } else {
        // `-(d + 1) + 1` computes the magnitude of `d` without negating
        // `isize::MIN`, which has no `isize` counterpart.
        let mag = (-(d + 1)) as usize + 1;
        if u >= mag {
            Ok(u - mag)
        } else {
            Err(CoordinateError::ArithmeticOverflow)
        }
    }
}

} // verus!
