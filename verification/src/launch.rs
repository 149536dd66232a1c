//! Grid geometry: how many cubes of how many units a kernel is launched with.

use crate::arith::{ceil_div, ceil_div_int, ceil_div_u32, max_u32};
use vstd::prelude::*;

verus! {

/// The most cubes that one axis of a launch grid may hold.
pub const MAX_GRID_DIM: u32 = 65_535;

/// The cube width that the throughput-tuned kernels are written for.
pub const PERF_TUNED_BLOCK: u32 = 256;

/// The edge of the square cubes that pairwise kernels run in.
pub const CUBE_DIM_2D: u32 = 16;

/// A launch: the number of cubes along each axis, and the units along each
/// axis of one cube.
#[derive(Debug, Clone, Copy, PartialEq, Eq)]
pub struct LaunchDims {
    pub grid: (u32, u32, u32),
    pub block: (u32, u32, u32),
}

impl LaunchDims {
    /// The number of cubes in the grid.
    pub open spec fn cubes(self) -> int {
        self.grid.0 * self.grid.1 * self.grid.2
    }
}

/// At least one cube, and enough for `n` units in blocks of `block`.
pub open spec fn cube_count(n: int, block: int) -> int {
    vstd::math::max(1, ceil_div_int(n, block))
}

/// The second axis of a grid of `cubes` that is folded at `cap` per axis.
pub open spec fn fold_y(cubes: int, cap: int) -> int {
    vstd::math::max(1, ceil_div_int(cubes, cap))
}

/// The first axis of a grid of `cubes` that is folded at `cap` per axis.
pub open spec fn fold_x(cubes: int, cap: int) -> int {
    vstd::math::max(1, ceil_div_int(cubes, fold_y(cubes, cap)))
}

/// The one-axis launch over `n` units in blocks of `block`.
pub open spec fn line_dims(n: int, block: u32) -> LaunchDims {
    LaunchDims {
        grid: (cube_count(n, block as int) as u32, 1, 1),
        block: (block, 1, 1),
    }
}

/// A grid of `cubes` cubes of `width` units, folded over two axes.
pub open spec fn cube_dims(cubes: int, width: u32) -> LaunchDims {
    LaunchDims {
        grid: (
            fold_x(cubes, MAX_GRID_DIM as int) as u32,
            fold_y(cubes, MAX_GRID_DIM as int) as u32,
            1,
        ),
        block: (width, 1, 1),
    }
}

/// The folded launch over `n` units in blocks of `block`.
pub open spec fn folded_dims(n: int, block: u32) -> LaunchDims {
    cube_dims(cube_count(n, block as int), block)
}

/// The launch over the cells of a `rows` by `cols` output.
pub open spec fn tile_dims(rows: int, cols: int) -> LaunchDims {
    LaunchDims {
        grid: (
            cube_count(rows, CUBE_DIM_2D as int) as u32,
            cube_count(cols, CUBE_DIM_2D as int) as u32,
            1,
        ),
        block: (CUBE_DIM_2D, CUBE_DIM_2D, 1),
    }
}

/// One-axis launch over `n` units. The kernels behind it take 32-bit counts,
/// so `n` is read as one.
pub fn launch_dims_1d(n: usize, block: u32) -> (r: LaunchDims)
    requires
        block > 0,
    ensures
        r == line_dims((n as u32) as int, block),
        r.grid.0 == cube_count((n as u32) as int, block as int),
{
    let n32: u32 = #[verifier::truncate] (n as u32);
    let cubes: u32 = max_u32(1, ceil_div_u32(n32, block));
    LaunchDims { grid: (cubes, 1, 1), block: (block, 1, 1) }
}

/// Folds a cube count over two grid axes, so that neither axis exceeds
/// [`MAX_GRID_DIM`] while the count stays below its square.
pub fn fold_grid(cubes: u32) -> (r: (u32, u32))
    ensures
        r.1 == fold_y(cubes as int, MAX_GRID_DIM as int),
        r.0 == fold_x(cubes as int, MAX_GRID_DIM as int),
        r.0 >= 1,
        r.1 >= 1,
{
    let y: u32 = max_u32(1, ceil_div_u32(cubes, MAX_GRID_DIM));
    let x: u32 = max_u32(1, ceil_div_u32(cubes, y));
    (x, y)
}

/// [`launch_dims_1d`] with the cube count folded over the first two grid axes.
pub fn launch_dims_1d_folded(n: usize, block: u32) -> (r: LaunchDims)
    requires
        block > 0,
    ensures
        r == folded_dims((n as u32) as int, block),
        r.grid.0 == fold_x(cube_count((n as u32) as int, block as int), MAX_GRID_DIM as int),
        r.grid.1 == fold_y(cube_count((n as u32) as int, block as int), MAX_GRID_DIM as int),
{
    let n32: u32 = #[verifier::truncate] (n as u32);
    let cubes: u32 = max_u32(1, ceil_div_u32(n32, block));
    let (x, y) = fold_grid(cubes);
    LaunchDims { grid: (x, y, 1), block: (block, 1, 1) }
}

/// One cube of `width` units for each of `count` work items, folded over the
/// first two grid axes.
pub fn launch_cubes(count: usize, width: u32) -> (r: LaunchDims)
    ensures
        r == cube_dims(vstd::math::max(1, (count as u32) as int), width),
        r.grid.0 == fold_x(vstd::math::max(1, (count as u32) as int), MAX_GRID_DIM as int),
        r.grid.1 == fold_y(vstd::math::max(1, (count as u32) as int), MAX_GRID_DIM as int),
{
    let c32: u32 = #[verifier::truncate] (count as u32);
    let (x, y) = fold_grid(max_u32(1, c32));
    LaunchDims { grid: (x, y, 1), block: (width, 1, 1) }
}

/// A launch of one unit per element in blocks of 256, for element counts whose
/// cube count fits 32 bits.
pub fn launch_dims_elementwise(n: usize) -> (r: LaunchDims)
    requires
        ceil_div_int(n as int, 256) <= u32::MAX,
    ensures
        r == line_dims(n as int, 256),
        r.grid.0 == cube_count(n as int, 256),
{
    let cubes: u32 = ceil_div(n, 256) as u32;
    LaunchDims { grid: (max_u32(1, cubes), 1, 1), block: (256, 1, 1) }
}

/// A launch of one unit per cell of a `rows` by `cols` output, in square cubes.
pub fn launch_dims_2d(rows: usize, cols: usize) -> (r: LaunchDims)
    requires
        rows <= u32::MAX - 15,
        cols <= u32::MAX - 15,
    ensures
        r == tile_dims(rows as int, cols as int),
        r.grid.0 == cube_count(rows as int, CUBE_DIM_2D as int),
        r.grid.1 == cube_count(cols as int, CUBE_DIM_2D as int),
{
    let cx: u32 = ceil_div_u32(rows as u32, CUBE_DIM_2D);
    let cy: u32 = ceil_div_u32(cols as u32, CUBE_DIM_2D);
    LaunchDims {
        grid: (max_u32(1, cx), max_u32(1, cy), 1),
        block: (CUBE_DIM_2D, CUBE_DIM_2D, 1),
    }
}

/// A one-axis launch has a unit for every element, and no cube to spare.
pub proof fn lemma_launch_1d_covers(n: int, block: int)
    requires
        n >= 0,
        block > 0,
    ensures
        cube_count(n, block) * block >= n,
        n > 0 ==> (cube_count(n, block) - 1) * block < n,
        n == 0 ==> cube_count(n, block) == 1,
{
    crate::arith::lemma_ceil_div_brackets(n, block);
}

/// Folding keeps every cube: the two axes multiply to at least the cube count,
/// with less than one row of slack, and neither exceeds the cap as long as the
/// count is within the square of it.
pub proof fn lemma_fold_covers(cubes: int, cap: int)
    requires
        cubes >= 1,
        cap >= 1,
    ensures
        fold_x(cubes, cap) * fold_y(cubes, cap) >= cubes,
        (fold_x(cubes, cap) - 1) * fold_y(cubes, cap) < cubes,
        fold_x(cubes, cap) >= 1,
        fold_y(cubes, cap) >= 1,
        fold_x(cubes, cap) <= cap,
        cubes <= cap * cap ==> fold_y(cubes, cap) <= cap,
{
    let y = fold_y(cubes, cap);
    let x = fold_x(cubes, cap);
    crate::arith::lemma_ceil_div_brackets(cubes, cap);
    crate::arith::lemma_ceil_div_brackets(cubes, y);
    assert(cap * y >= cubes) by (nonlinear_arith)
        requires
            ceil_div_int(cubes, cap) * cap >= cubes,
            y == ceil_div_int(cubes, cap),
    ;
    crate::arith::lemma_ceil_div_least(cubes, y, cap);
    if cubes <= cap * cap {
        crate::arith::lemma_ceil_div_least(cubes, cap, cap);
    }
}

/// In a folded grid, where cube `(x, y)` starts at unit `(y * grid_x + x) *
/// block`, every element below `n` is addressed by a unit of the grid.
pub proof fn lemma_folded_addresses_all(n: int, block: int, cap: int, i: int)
    requires
        block > 0,
        cap >= 1,
        0 <= i < n,
    ensures
        ({
            let gx = fold_x(cube_count(n, block), cap);
            let gy = fold_y(cube_count(n, block), cap);
            let x = (i / block) % gx;
            let y = (i / block) / gx;
            &&& 0 <= x < gx
            &&& 0 <= y < gy
            &&& 0 <= i % block < block
            &&& (y * gx + x) * block + i % block == i
        }),
{
    let cubes = cube_count(n, block);
    let gx = fold_x(cubes, cap);
    let gy = fold_y(cubes, cap);
    lemma_launch_1d_covers(n, block);
    lemma_fold_covers(cubes, cap);
    let c = i / block;
    let x = c % gx;
    let y = c / gx;
    let u = i % block;
    vstd::arithmetic::div_mod::lemma_fundamental_div_mod(i, block);
    vstd::arithmetic::div_mod::lemma_mod_bound(i, block);
    vstd::arithmetic::div_mod::lemma_fundamental_div_mod(c, gx);
    vstd::arithmetic::div_mod::lemma_mod_bound(c, gx);
    assert(0 <= c < cubes) by (nonlinear_arith)
        requires
            i == block * c + u,
            0 <= u < block,
            0 <= i < n,
            cubes * block >= n,
    ;
    assert(0 <= y < gy) by (nonlinear_arith)
        requires
            c == gx * y + x,
            0 <= x < gx,
            0 <= c < cubes,
            gx * gy >= cubes,
    ;
    assert((y * gx + x) * block + u == i) by (nonlinear_arith)
        requires
            i == block * c + u,
            c == gx * y + x,
    ;
}

/// In a folded grid no two units address the same element.
pub proof fn lemma_folded_addresses_once(
    gx: int,
    block: int,
    x1: int,
    y1: int,
    u1: int,
    x2: int,
    y2: int,
    u2: int,
)
    requires
        0 <= x1 < gx,
        0 <= x2 < gx,
        0 <= u1 < block,
        0 <= u2 < block,
        (y1 * gx + x1) * block + u1 == (y2 * gx + x2) * block + u2,
    ensures
        x1 == x2,
        y1 == y2,
        u1 == u2,
{
    let i = (y1 * gx + x1) * block + u1;
    vstd::arithmetic::div_mod::lemma_fundamental_div_mod_converse(i, block, y1 * gx + x1, u1);
    vstd::arithmetic::div_mod::lemma_fundamental_div_mod_converse(i, block, y2 * gx + x2, u2);
    let c = y1 * gx + x1;
    vstd::arithmetic::div_mod::lemma_fundamental_div_mod_converse(c, gx, y1, x1);
    vstd::arithmetic::div_mod::lemma_fundamental_div_mod_converse(c, gx, y2, x2);
}

/// Every launch over `n` units has a unit for each of them: cubes times units
/// per cube are at least `n`, in a line and folded alike, in cubes of the given
/// width.
pub proof fn lemma_launch_covers(n: int, block: u32)
    requires
        0 <= n <= u32::MAX,
        block > 0,
    ensures
        line_dims(n, block).cubes() * line_dims(n, block).block.0 >= n,
        line_dims(n, block).block == (block, 1u32, 1u32),
        folded_dims(n, block).cubes() * folded_dims(n, block).block.0 >= n,
        folded_dims(n, block).block == (block, 1u32, 1u32),
        1 <= folded_dims(n, block).grid.0 <= 65_535,
        folded_dims(n, block).grid.1 >= 1,
        folded_dims(n, block).grid.2 == 1,
{
    let c = cube_count(n, block as int);
    lemma_launch_1d_covers(n, block as int);
    crate::arith::lemma_ceil_div_brackets(n, block as int);
    lemma_fold_covers(c, MAX_GRID_DIM as int);
    let x = fold_x(c, MAX_GRID_DIM as int);
    let y = fold_y(c, MAX_GRID_DIM as int);
    crate::arith::lemma_ceil_div_brackets(c, MAX_GRID_DIM as int);
    assert(1 <= x <= u32::MAX && 1 <= y <= u32::MAX && 1 <= c <= u32::MAX);
    assert(c * 1 * 1 == c && x * y * 1 == x * y) by (nonlinear_arith);
    assert(x * y * block >= c * block) by (nonlinear_arith)
        requires
            x * y >= c,
            block > 0,
    ;
}

/// A launch of one cube for each work item has as many cubes as items.
pub proof fn lemma_cubes_cover(count: int, width: u32)
    requires
        1 <= count <= u32::MAX,
    ensures
        cube_dims(count, width).cubes() >= count,
        cube_dims(count, width).block == (width, 1u32, 1u32),
{
    lemma_fold_covers(count, MAX_GRID_DIM as int);
    let x = fold_x(count, MAX_GRID_DIM as int);
    let y = fold_y(count, MAX_GRID_DIM as int);
    crate::arith::lemma_ceil_div_brackets(count, MAX_GRID_DIM as int);
    assert(x * y * 1 == x * y) by (nonlinear_arith);
}

/// A tiled launch has a unit for every cell: the first axis covers the rows and
/// the second the columns, neither with a whole cube to spare.
pub proof fn lemma_tiles_cover(rows: int, cols: int)
    requires
        1 <= rows <= u32::MAX,
        1 <= cols <= u32::MAX,
    ensures
        ({
            let l = tile_dims(rows, cols);
            &&& l.grid.0 * l.block.0 >= rows && (l.grid.0 - 1) * l.block.0 < rows
            &&& l.grid.1 * l.block.1 >= cols && (l.grid.1 - 1) * l.block.1 < cols
            &&& l.block == (16u32, 16u32, 1u32)
            &&& l.grid.2 == 1
        }),
{
    lemma_launch_1d_covers(rows, CUBE_DIM_2D as int);
    lemma_launch_1d_covers(cols, CUBE_DIM_2D as int);
    crate::arith::lemma_ceil_div_brackets(rows, CUBE_DIM_2D as int);
    crate::arith::lemma_ceil_div_brackets(cols, CUBE_DIM_2D as int);
}

} // verus!
