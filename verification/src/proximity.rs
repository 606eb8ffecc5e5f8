//! The distance rule: how near a view position is to a cell, measured
//! against the distance at which the cell splits or joins.
//!
//! Numbers that need not be whole are carried as whole numbers of binary
//! parts, so that every comparison is exact: positions and heights in
//! parts of which 1024 make a grid unit, the split scale in parts of which
//! 2^22 make one. Every scale that a 32-bit float can hold between 2 and 5
//! is a whole number of such parts.

use vstd::prelude::*;
use vstd::arithmetic::power2::pow2;
use crate::grid::{Cell, lod_size, chunk_size, lemma_pow2_at_most};

verus! {

/// Parts in one grid unit, for positions and heights.
pub const UNIT: u32 = 1024;

/// Parts in one, for the split scale: `2^22`.
pub const SCALE_UNIT: u32 = 4_194_304;

/// Parts of the distance rule in one part of a position. The rule
/// measures in parts of which `UNIT * STEP` make a grid unit, half as many
/// as `SCALE_UNIT`, so that twice a split distance is a whole number of
/// them.
pub const STEP: u32 = 2048;

/// The smallest split scale, 2, in parts of `SCALE_UNIT`.
pub const MIN_SPLIT_SCALE: u32 = 8_388_608;

/// The largest split scale, 5, in parts of `SCALE_UNIT`.
pub const MAX_SPLIT_SCALE: u32 = 20_971_520;

/// The widest chunk the distance rule measures, in grid units.
pub const MAX_CHUNK_SIZE: u64 = 0x2_0000_0000;

/// Where the viewer stands, in parts of `UNIT` to the grid unit. `x` runs along
/// the columns of the grid, `z` along its rows, and `y` is the height.
#[derive(Clone, Copy, Debug, PartialEq, Eq, Structural)]
pub struct ViewPosition {
    pub x: i64,
    pub y: i64,
    pub z: i64,
}

/// What a host says of the heights of the terrain over one cell.
#[derive(Clone, Copy, Debug, PartialEq, Eq, Structural)]
pub enum VerticalBounds {
    /// The host keeps no heights: the terrain counts as flat, at height 0.
    Flat,
    /// Lowest and highest point over the cell, in parts of `UNIT`.
    Range { low: i64, high: i64 },
    /// The host's answer was not a range.
    Invalid,
}

/// A view position measured against the split distance of a cell.
#[derive(Clone, Copy, Debug, PartialEq, Eq, Structural)]
pub enum Proximity {
    /// Strictly within the split distance.
    Near,
    /// Exactly at the split distance.
    Boundary,
    /// Strictly beyond the split distance.
    Far,
}

/// What the distance rule depends on besides the cell.
#[derive(Clone, Copy, Debug, PartialEq, Eq, Structural)]
pub struct Sight {
    /// Edge of a chunk of level 0, in grid units.
    pub base_size: u32,
    /// Split scale in parts of `SCALE_UNIT`.
    pub split_scale: u32,
    pub view: ViewPosition,
}

impl Sight {
    /// The sizes are ones the distance rule can measure at `level` and
    /// below it.
    pub open spec fn measures(self, level: u32) -> bool {
        &&& chunk_size(self.base_size, level) <= MAX_CHUNK_SIZE
        &&& self.split_scale <= MAX_SPLIT_SCALE
    }
}

pub open spec fn magnitude(v: int) -> nat {
    if v < 0 {
        (-v) as nat
    } else {
        v as nat
    }
}

/// A coordinate of the view position, doubled, in parts of the distance
/// rule.
pub open spec fn twice_view(coordinate: i64) -> int {
    2 * coordinate * STEP
}

/// Twice the height the centre of a cell is taken to have, in parts of the
/// distance rule: the sum of the two bounds, or 0 where there are none.
pub open spec fn twice_mid(bounds: VerticalBounds) -> int {
    match bounds {
        VerticalBounds::Range { low, high } => (low + high) * STEP,
        _ => 0,
    }
}

/// Twice the coordinate of the centre of a chunk `size` wide whose origin
/// is `origin`, in parts of the distance rule: `(origin + 1/2) * size`,
/// doubled.
pub open spec fn twice_center(origin: u32, size: nat) -> int {
    (2 * origin + 1) * size * (UNIT * STEP)
}

/// Four times the squared distance between the centre of `cell` and the
/// view position, in parts of the distance rule squared.
pub open spec fn gap(cell: Cell, sight: Sight, bounds: VerticalBounds) -> int {
    let size = chunk_size(sight.base_size, cell.level);
    let dx = twice_center(cell.x, size) - twice_view(sight.view.x);
    let dy = twice_mid(bounds) - twice_view(sight.view.y);
    let dz = twice_center(cell.y, size) - twice_view(sight.view.z);
    dx * dx + dy * dy + dz * dz
}

/// Twice the split distance of `cell` in parts of the distance rule: the
/// chunk's size times the split scale. Two grid units have `SCALE_UNIT`
/// parts of the rule, as one has parts of the scale, so the product needs
/// no factor.
pub open spec fn reach(cell: Cell, sight: Sight) -> int {
    chunk_size(sight.base_size, cell.level) * sight.split_scale
}

/// The distance rule: the squared distance to the centre of the cell
/// against the squared split distance.
pub open spec fn proximity(cell: Cell, sight: Sight, bounds: VerticalBounds) -> Proximity {
    let limit = reach(cell, sight) * reach(cell, sight);
    if gap(cell, sight, bounds) < limit {
        Proximity::Near
    } else if gap(cell, sight, bounds) > limit {
        Proximity::Far
    } else {
        Proximity::Boundary
    }
}

/// Edge of a chunk at `level`, in grid units.
pub fn chunk_edge(base_size: u32, level: u32) -> (size: u64)
    requires
        level <= crate::grid::MAX_LEVEL,
    ensures
        size == chunk_size(base_size, level),
{
    let cells: u64 = lod_size(level);
    assert(base_size * cells <= 0xffff_ffff * 0x1_0000_0000) by (nonlinear_arith)
        requires
            base_size <= 0xffff_ffff,
            cells <= 0x1_0000_0000,
    ;
    (base_size as u64) * cells
}

fn doubled_center(origin: u32, size: u64) -> (c: i128)
    requires
        size <= MAX_CHUNK_SIZE,
    ensures
        c == twice_center(origin, size as nat),
        0 <= c <= 0x1_ffff_ffff * 0x2_0000_0000 * 2_097_152,
{
    let odd: i128 = 2 * (origin as i128) + 1;
    assert(odd * size <= 0x1_ffff_ffff * 0x2_0000_0000 && odd * size >= 0) by (nonlinear_arith)
        requires
            0 <= odd <= 0x1_ffff_ffff,
            0 <= size <= 0x2_0000_0000,
    ;
    let wide: i128 = odd * (size as i128);
    wide * 2_097_152
}

fn doubled_mid(bounds: VerticalBounds) -> (m: i128)
    ensures
        m == twice_mid(bounds),
        -0x800_0000_0000_0000_0000 <= m <= 0x800_0000_0000_0000_0000,
{
    match bounds {
        VerticalBounds::Range { low, high } => ((low as i128) + (high as i128)) * 2048,
        _ => 0,
    }
}

fn offset(doubled: i128, coordinate: i64) -> (d: u128)
    requires
        -0x10_0000_0000_0000_0000_0000_0000 <= doubled <= 0x10_0000_0000_0000_0000_0000_0000,
    ensures
        d == magnitude(doubled - twice_view(coordinate)),
{
    let v: i128 = doubled - 4096 * (coordinate as i128);
    if v < 0 {
        (-v) as u128
    } else {
        v as u128
    }
}

proof fn lemma_square_of_magnitude(v: int)
    ensures
        v * v == magnitude(v) * magnitude(v),
        v * v >= 0,
{
    assert(v * v == (-v) * (-v)) by (nonlinear_arith);
    assert(v * v >= 0) by (nonlinear_arith);
}

proof fn lemma_square_grows(a: nat, b: nat)
    ensures
        a <= b ==> a * a <= b * b,
        a > b ==> a * a > b * b,
{
    if a <= b {
        assert(a * a <= b * b) by (nonlinear_arith)
            requires
                a <= b,
        ;
    } else {
        assert(a * a > b * b) by (nonlinear_arith)
            requires
                a > b,
        ;
    }
}

/// Measures the view position against the split distance of `cell`, with
/// the vertical bounds the host gave for it.
pub fn classify(cell: Cell, sight: &Sight, bounds: VerticalBounds) -> (p: Proximity)
    requires
        cell.in_grid(),
        sight.measures(cell.level),
    ensures
        p == proximity(cell, *sight, bounds),
{
    let size: u64 = chunk_edge(sight.base_size, cell.level);
    assert(size * sight.split_scale <= 0x2_0000_0000 * 20_971_520 && size * sight.split_scale
        >= 0) by (nonlinear_arith)
        requires
            0 <= size <= 0x2_0000_0000,
            0 <= sight.split_scale <= 20_971_520,
    ;
    let limit: u128 = (size as u128) * (sight.split_scale as u128);
    let dx: u128 = offset(doubled_center(cell.x, size), sight.view.x);
    let dy: u128 = offset(doubled_mid(bounds), sight.view.y);
    let dz: u128 = offset(doubled_center(cell.y, size), sight.view.z);
    proof {
        let gx = twice_center(cell.x, size as nat) - twice_view(sight.view.x);
        let gy = twice_mid(bounds) - twice_view(sight.view.y);
        let gz = twice_center(cell.y, size as nat) - twice_view(sight.view.z);
        lemma_square_of_magnitude(gx);
        lemma_square_of_magnitude(gy);
        lemma_square_of_magnitude(gz);
        lemma_square_grows(dx as nat, limit as nat);
        lemma_square_grows(dy as nat, limit as nat);
        lemma_square_grows(dz as nat, limit as nat);
        assert(gap(cell, *sight, bounds) == dx * dx + dy * dy + dz * dz);
        assert(reach(cell, *sight) == limit);
        assert(limit * limit <= 0x280_0000_0000_0000 * 0x280_0000_0000_0000) by (nonlinear_arith)
            requires
                limit <= 0x280_0000_0000_0000,
        ;
    }
    if dx > limit || dy > limit || dz > limit {
        Proximity::Far
    } else {
        let bound: u128 = limit * limit;
        let sum: u128 = dx * dx + dy * dy + dz * dz;
        if sum < bound {
            Proximity::Near
        } else if sum > bound {
            Proximity::Far
        } else {
            Proximity::Boundary
        }
    }
}

/// Near, at the boundary and far exclude one another: a cell that is near
/// enough to split is not far enough to join, and one at the boundary is
/// neither, because both tests compare the same two numbers strictly.
pub proof fn lemma_split_excludes_join(cell: Cell, sight: Sight, bounds: VerticalBounds)
    ensures
        proximity(cell, sight, bounds) is Near <==> gap(cell, sight, bounds) < reach(cell, sight)
            * reach(cell, sight),
        proximity(cell, sight, bounds) is Far <==> gap(cell, sight, bounds) > reach(cell, sight)
            * reach(cell, sight),
        !(proximity(cell, sight, bounds) is Near && proximity(cell, sight, bounds) is Far),
{
}

/// A sight that measures a level measures every level below it.
pub proof fn lemma_measures_below(sight: Sight, level: u32, below: u32)
    requires
        sight.measures(level),
        below <= level,
    ensures
        sight.measures(below),
{
    lemma_pow2_at_most(below as nat, level as nat);
    assert(sight.base_size * pow2(below as nat) <= sight.base_size * pow2(level as nat))
        by (nonlinear_arith)
        requires
            pow2(below as nat) <= pow2(level as nat),
    ;
}

} // verus!
