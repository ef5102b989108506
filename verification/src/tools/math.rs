use vstd::prelude::*;
use crate::point::direction::Direction;
use crate::point::point::Point;

verus! {

/// Row-major index of `(x, y)` in a square grid of side `size`.
pub open spec fn spec_index(x: int, y: int, size: int) -> int {
    y * size + x
}

/// Whether `s` is the side of the largest square that fits in `len` cells.
pub open spec fn is_side(s: nat, len: nat) -> bool {
    s * s <= len < (s + 1) * (s + 1)
}

/// The side of the largest square grid that fits in `len` cells.
pub open spec fn spec_side(len: nat) -> nat {
    choose|s: nat| is_side(s, len)
}

/// Manhattan distance between two points.
pub open spec fn spec_dist(a: Point, b: Point) -> int {
    (if a.x >= b.x { a.x - b.x } else { b.x - a.x })
        + (if a.y >= b.y { a.y - b.y } else { b.y - a.y })
}

/// The direction whose displacement is exactly `a - b`, if any.
pub open spec fn spec_points_to_dir(a: Point, b: Point) -> Option<Direction> {
    if a.x - b.x == 0 && a.y - b.y == -2 {
        Some(Direction::UP)
    } else if a.x - b.x == -2 && a.y - b.y == 0 {
        Some(Direction::LEFT)
    } else if a.x - b.x == 2 && a.y - b.y == 0 {
        Some(Direction::RIGHT)
    } else if a.x - b.x == 0 && a.y - b.y == 2 {
        Some(Direction::DOWN)
    } else {
        None
    }
}

/// Squares of naturals are ordered as the naturals are.
pub proof fn lemma_square_monotone(a: nat, b: nat)
    ensures
        a <= b ==> a * a <= b * b,
        a < b ==> a * a < b * b,
{
    assert(a <= b ==> a * a <= b * b) by (nonlinear_arith);
    assert(a < b ==> a * a < b * b) by (nonlinear_arith);
}

/// Only one side fits a given length, so a grid of `n * n` cells has side `n`.
pub proof fn lemma_side_unique(len: nat, s: nat)
    requires
        is_side(s, len),
    ensures
        spec_side(len) == s,
{
    let t = spec_side(len);
    assert(is_side(t, len));
    if t < s {
        lemma_square_monotone(t + 1, s);
    } else if s < t {
        lemma_square_monotone(s + 1, t);
    }
}

/// A grid of `n * n` cells has side `n`.
pub proof fn lemma_side_of_square(n: nat)
    ensures
        spec_side(n * n) == n,
{
    lemma_square_monotone(n, n + 1);
    lemma_side_unique(n * n, n);
}

/// The row-major index of `(x, y)` in a grid of side `size`.
pub fn vec2_to_numb(x: usize, y: usize, size: usize) -> (numb: usize)
    requires
        spec_index(x as int, y as int, size as int) <= usize::MAX,
    ensures
        numb == spec_index(x as int, y as int, size as int),
{
    assert(y * size >= 0) by (nonlinear_arith)
        requires y >= 0, size >= 0;
    y * size + x
}

/// The point with the row-major index `numb` in a grid of side `size`.
pub fn numb_to_vec2(numb: usize, size: usize) -> (p: Point)
    requires
        size > 0,
    ensures
        p.x == numb as int % size as int,
        p.y == numb as int / size as int,
{
    Point { x: numb % size, y: numb / size }
}

/// The row-major index of `p` in a grid of side `size`.
pub fn point_to_numb(p: &Point, size: usize) -> (numb: usize)
    requires
        spec_index(p.x as int, p.y as int, size as int) <= usize::MAX,
    ensures
        numb == spec_index(p.x as int, p.y as int, size as int),
{
    vec2_to_numb(p.x, p.y, size)
}

/// Index and coordinates are inverse to each other inside the grid.
pub proof fn lemma_index_round_trip(x: int, y: int, size: int)
    requires
        0 <= x < size,
        0 <= y,
    ensures
        spec_index(x, y, size) % size == x,
        spec_index(x, y, size) / size == y,
        0 <= spec_index(x, y, size),
        y < size ==> spec_index(x, y, size) < size * size,
{
    vstd::arithmetic::div_mod::lemma_fundamental_div_mod_converse(y * size + x, size, y, x);
    assert(y * size >= 0) by (nonlinear_arith)
        requires y >= 0, size > 0;
    assert(y < size ==> y * size + x < size * size) by (nonlinear_arith)
        requires 0 <= x < size, 0 <= y;
}

/// Decomposing an index and indexing again gives the index back.
pub proof fn lemma_coords_round_trip(numb: int, size: int)
    requires
        0 <= numb,
        0 < size,
    ensures
        spec_index(numb % size, numb / size, size) == numb,
        0 <= numb % size < size,
{
    vstd::arithmetic::div_mod::lemma_fundamental_div_mod(numb, size);
    assert(size * (numb / size) == (numb / size) * size) by (nonlinear_arith);
}

/// The side of the square grid stored in `len` cells, rounded down.
pub fn grid_side(len: usize) -> (side: usize)
    ensures
        side == spec_side(len as nat),
        side * side <= len < (side + 1) * (side + 1),
{
    let mut lo: usize = 0;
    let mut hi: usize = if len < 4294967295 { len } else { 4294967295 };
    proof {
        assert((hi + 1) * (hi + 1) > len) by (nonlinear_arith)
            requires hi == len || (hi == 4294967295 && len <= 0xffff_ffff_ffff_ffff);
    }
    while lo < hi
        invariant
            lo <= hi <= 4294967295,
            lo * lo <= len,
            (hi + 1) * (hi + 1) > len,
        decreases hi - lo,
    {
        let mid: usize = hi - (hi - lo) / 2;
        if mid <= len / mid {
            assert(mid * mid <= len) by (nonlinear_arith)
                requires mid <= len as int / mid as int, mid > 0, len >= 0;
            lo = mid;
        } else {
            assert(mid * mid > len) by (nonlinear_arith)
                requires mid > len as int / mid as int, mid > 0, len >= 0;
            hi = mid - 1;
        }
    }
    proof {
        lemma_side_unique(len as nat, lo as nat);
    }
    lo
}

/// The cell of a square grid at `p`.
pub fn get_point<T: Copy>(matrix: &[T], p: &Point) -> (v: T)
    requires
        0 <= spec_index(p.x as int, p.y as int, spec_side(matrix@.len()) as int) < matrix@.len(),
    ensures
        v == matrix@[spec_index(p.x as int, p.y as int, spec_side(matrix@.len()) as int)],
{
    let size = grid_side(matrix.len());
    let pos = vec2_to_numb(p.x, p.y, size);
    matrix[pos]
}

/// Overwrites the cell of a square grid at `p`.
pub fn set_point<T>(matrix: &mut Vec<T>, p: &Point, state: T)
    requires
        0 <= spec_index(p.x as int, p.y as int, spec_side(old(matrix)@.len()) as int) < old(matrix)@.len(),
    ensures
        final(matrix)@ == old(matrix)@.update(
            spec_index(p.x as int, p.y as int, spec_side(old(matrix)@.len()) as int),
            state,
        ),
{
    let size = grid_side(matrix.len());
    let pos = vec2_to_numb(p.x, p.y, size);
    matrix[pos] = state;
}

/// The grid after the first `k` of `points` have been overwritten with
/// `state`, one after the other.
pub open spec fn spec_set_points<T>(matrix: Seq<T>, points: Seq<Point>, state: T, k: nat) -> Seq<T>
    decreases k,
{
    if k == 0 {
        matrix
    } else {
        spec_set_points(matrix, points, state, (k - 1) as nat).update(
            spec_index(
                points[k - 1].x as int,
                points[k - 1].y as int,
                spec_side(matrix.len()) as int,
            ),
            state,
        )
    }
}

/// Overwrites the cells of a square grid at all of `points`.
pub fn set_point_mult<T: Copy>(matrix: &mut Vec<T>, points: &Vec<Point>, state: T)
    requires
        forall|k: int|
            0 <= k < points@.len() ==> 0 <= spec_index(
                (#[trigger] points@[k]).x as int,
                points@[k].y as int,
                spec_side(old(matrix)@.len()) as int,
            ) < old(matrix)@.len(),
    ensures
        final(matrix)@ == spec_set_points(old(matrix)@, points@, state, points@.len()),
        final(matrix)@.len() == old(matrix)@.len(),
{
    let ghost before = matrix@;
    let mut i: usize = 0;
    while i < points.len()
        invariant
            i <= points@.len(),
            matrix@.len() == before.len(),
            matrix@ == spec_set_points(before, points@, state, i as nat),
            forall|k: int|
                0 <= k < points@.len() ==> 0 <= spec_index(
                    (#[trigger] points@[k]).x as int,
                    points@[k].y as int,
                    spec_side(before.len()) as int,
                ) < before.len(),
        decreases points@.len() - i,
    {
        let p = points[i];
        assert(p == points@[i as int]);
        set_point(matrix, &p, state);
        i = i + 1;
    }
}

/// Manhattan distance, or the largest `u64` where it does not fit.
pub open spec fn spec_capped_dist(a: Point, b: Point) -> u64 {
    if spec_dist(a, b) > u64::MAX {
        u64::MAX
    } else {
        spec_dist(a, b) as u64
    }
}

/// The Manhattan distance between two points.
pub fn get_dist(src: &Point, dest: &Point) -> (d: u64)
    ensures
        d == spec_capped_dist(*src, *dest),
{
    let dx: u64 = (if src.x >= dest.x { src.x - dest.x } else { dest.x - src.x }) as u64;
    let dy: u64 = (if src.y >= dest.y { src.y - dest.y } else { dest.y - src.y }) as u64;
    if dy > u64::MAX - dx {
        u64::MAX
    } else {
        dx + dy
    }
}

/// The direction in which `a` lies two steps from `b`, if it does.
pub fn points_to_dir(a: &Point, b: &Point) -> (dir: Option<Direction>)
    ensures
        dir == spec_points_to_dir(*a, *b),
{
    if a.x == b.x {
        if b.y >= 2 && a.y == b.y - 2 {
            Some(Direction::UP)
        } else if a.y >= 2 && b.y == a.y - 2 {
            Some(Direction::DOWN)
        } else {
            None
        }
    } else if a.y == b.y {
        if b.x >= 2 && a.x == b.x - 2 {
            Some(Direction::LEFT)
        } else if a.x >= 2 && b.x == a.x - 2 {
            Some(Direction::RIGHT)
        } else {
            None
        }
    } else {
        None
    }
}

} // verus!
