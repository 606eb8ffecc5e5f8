//! Grid addressing: levels, cells, and the coordinates of a cell's children.

use vstd::prelude::*;
use vstd::arithmetic::power2::{pow2, lemma_pow2_pos, lemma_pow2_unfold, lemma2_to64, lemma_pow2_strictly_increases};

verus! {

/// The deepest level a tree can have: cell coordinates are 32 bits wide.
pub const MAX_LEVEL: u32 = 32;

/// One cell of the grid: a square of `2^level` finest cells on each side,
/// whose origin is counted in cells of its own level.
#[derive(Clone, Copy, Debug, PartialEq, Eq, Structural)]
pub struct Cell {
    pub level: u32,
    pub x: u32,
    pub y: u32,
}

impl Cell {
    /// The cell lies within the addressable grid: its far edges, counted in
    /// finest cells, do not pass `2^32`.
    pub open spec fn in_grid(self) -> bool {
        &&& self.level <= MAX_LEVEL
        &&& (self.x + 1) * pow2(self.level as nat) <= pow2(32)
        &&& (self.y + 1) * pow2(self.level as nat) <= pow2(32)
    }

    /// The root cell of a tree with `max_depth` levels above level 0.
    pub open spec fn root(max_depth: u32) -> Cell {
        Cell { level: max_depth, x: 0, y: 0 }
    }

    /// Quadrant `i` of this cell, one level finer: bit 0 of `i` selects the
    /// column, bit 1 the row.
    pub open spec fn child(self, i: int) -> Cell {
        Cell {
            level: (self.level - 1) as u32,
            x: (2 * self.x + i % 2) as u32,
            y: (2 * self.y + (i / 2) % 2) as u32,
        }
    }

    /// Edge of the cell in finest cells.
    pub open spec fn span(self) -> nat {
        pow2(self.level as nat)
    }

    /// First finest-cell column the cell covers.
    pub open spec fn left(self) -> nat {
        self.x as nat * pow2(self.level as nat)
    }

    /// First finest-cell row the cell covers.
    pub open spec fn top(self) -> nat {
        self.y as nat * pow2(self.level as nat)
    }

    /// Whether the cell covers the finest cell `(px, py)`.
    pub open spec fn covers(self, px: nat, py: nat) -> bool {
        &&& self.left() <= px < self.left() + self.span()
        &&& self.top() <= py < self.top() + self.span()
    }

    /// Computes quadrant `i` of this cell.
    pub fn quadrant(&self, i: u32) -> (c: Cell)
        requires
            self.in_grid(),
            self.level > 0,
            i < 4,
        ensures
            c == self.child(i as int),
            c.in_grid(),
    {
        proof {
            lemma_child_in_grid(*self, i as int);
        }
        Cell { level: self.level - 1, x: 2 * self.x + i % 2, y: 2 * self.y + (i / 2) % 2 }
    }
}

/// A child of a cell of the grid is a cell of the grid, and its coordinates
/// are twice the parent's plus the quadrant's bits, without wrapping.
pub proof fn lemma_child_in_grid(cell: Cell, i: int)
    requires
        cell.in_grid(),
        cell.level > 0,
        0 <= i < 4,
    ensures
        cell.child(i).in_grid(),
        cell.child(i).level == cell.level - 1,
        cell.child(i).x == 2 * cell.x + i % 2,
        cell.child(i).y == 2 * cell.y + (i / 2) % 2,
{
    let p = pow2((cell.level - 1) as nat);
    lemma_pow2_unfold(cell.level as nat);
    lemma_pow2_pos((cell.level - 1) as nat);
    lemma2_to64();
    assert((cell.x + 1) * (2 * p) == (2 * cell.x + 2) * p) by (nonlinear_arith);
    assert((cell.y + 1) * (2 * p) == (2 * cell.y + 2) * p) by (nonlinear_arith);
    assert(2 * cell.x + 2 <= 0x1_0000_0000) by (nonlinear_arith)
        requires
            (2 * cell.x + 2) * p <= 0x1_0000_0000,
            p >= 1,
    ;
    assert(2 * cell.y + 2 <= 0x1_0000_0000) by (nonlinear_arith)
        requires
            (2 * cell.y + 2) * p <= 0x1_0000_0000,
            p >= 1,
    ;
    assert((2 * cell.x + i % 2 + 1) * p <= (2 * cell.x + 2) * p) by (nonlinear_arith)
        requires
            0 <= i % 2 <= 1,
            p >= 1,
    ;
    assert((2 * cell.y + (i / 2) % 2 + 1) * p <= (2 * cell.y + 2) * p) by (nonlinear_arith)
        requires
            0 <= (i / 2) % 2 <= 1,
            p >= 1,
    ;
}

/// The four children of a cell split it exactly: a finest cell covered by
/// the parent is covered by the one child that the bits of its coordinates
/// select, and by no other; a finest cell outside the parent is covered by
/// no child.
pub proof fn lemma_children_partition(cell: Cell, px: nat, py: nat)
    requires
        cell.in_grid(),
        cell.level > 0,
    ensures
        forall|i: int| 0 <= i < 4 && #[trigger] cell.child(i).covers(px, py) ==> cell.covers(px, py),
        cell.covers(px, py) ==> {
            let i = covering_quadrant(cell, px, py);
            &&& 0 <= i < 4
            &&& cell.child(i).covers(px, py)
            &&& forall|j: int| 0 <= j < 4 && #[trigger] cell.child(j).covers(px, py) ==> j == i
        },
{
    let p = pow2((cell.level - 1) as nat);
    lemma_pow2_unfold(cell.level as nat);
    lemma_pow2_pos((cell.level - 1) as nat);
    assert forall|i: int| 0 <= i < 4 implies {
        let c = #[trigger] cell.child(i);
        &&& c.left() == cell.left() + (i % 2) * p
        &&& c.top() == cell.top() + ((i / 2) % 2) * p
        &&& c.span() == p
    } by {
        lemma_child_in_grid(cell, i);
        assert((2 * cell.x + i % 2) * p == cell.x * (2 * p) + (i % 2) * p) by (nonlinear_arith);
        assert((2 * cell.y + (i / 2) % 2) * p == cell.y * (2 * p) + ((i / 2) % 2) * p)
            by (nonlinear_arith);
    }
    assert(cell.child(0).span() == p);
    assert(cell.child(1).span() == p);
    assert(cell.child(2).span() == p);
    assert(cell.child(3).span() == p);
    assert(0 * p == 0 && 1 * p == p) by (nonlinear_arith);
}

/// The quadrant of `cell` that covers the finest cell `(px, py)`.
pub open spec fn covering_quadrant(cell: Cell, px: nat, py: nat) -> int {
    let half = pow2((cell.level - 1) as nat);
    let column: int = if px < cell.left() + half { 0 } else { 1 };
    let row: int = if py < cell.top() + half { 0 } else { 1 };
    column + 2 * row
}

/// Number of halvings that bring `full_size` down to `base_size` or below.
pub open spec fn lod_count(base_size: nat, full_size: nat) -> nat
    decreases full_size,
{
    if full_size <= base_size {
        0
    } else {
        1 + lod_count(base_size, full_size / 2)
    }
}

/// `lod_count` is the least number of halvings that suffices, and that many
/// levels of cells of `base_size` stay below twice `full_size`.
pub proof fn lemma_lod_count(base_size: nat, full_size: nat)
    ensures
        full_size / pow2(lod_count(base_size, full_size)) <= base_size,
        forall|k: nat| k < lod_count(base_size, full_size) ==> full_size / #[trigger] pow2(k) > base_size,
        full_size < pow2(32) ==> lod_count(base_size, full_size) <= 32,
        lod_count(base_size, full_size) > 0 ==> base_size * pow2(lod_count(base_size, full_size)) < 2 * full_size,
    decreases full_size,
{
    lemma2_to64();
    let n = lod_count(base_size, full_size);
    if full_size <= base_size {
        assert(full_size / 1 == full_size);
    } else {
        let half = full_size / 2;
        let m = lod_count(base_size, half);
        lemma_lod_count(base_size, half);
        lemma_pow2_unfold(n);
        lemma_pow2_pos(m);
        lemma_halved_quotient(full_size, pow2(m));
        assert forall|k: nat| k < n implies full_size / #[trigger] pow2(k) > base_size by {
            if k == 0 {
                assert(full_size / 1 == full_size);
            } else {
                let j = (k - 1) as nat;
                lemma_pow2_unfold(k);
                lemma_pow2_pos(j);
                lemma_halved_quotient(full_size, pow2(j));
                assert(half / pow2(j) > base_size);
            }
        }
        if full_size < pow2(32) {
            assert(half < pow2(31));
            lemma_lod_count_width(base_size, half, 31);
        }
        if m > 0 {
            assert(base_size * (2 * pow2(m)) == 2 * (base_size * pow2(m))) by (nonlinear_arith);
        } else {
            assert(half <= base_size);
            assert(pow2(m) == 1);
            assert(base_size * (2 * 1) < 2 * full_size);
        }
    }
}

/// Halving and then dividing by `d` is dividing by `2 * d`.
proof fn lemma_halved_quotient(n: nat, d: nat)
    requires
        d > 0,
    ensures
        (n / 2) / d == n / (2 * d),
{
    vstd::arithmetic::div_mod::lemma_div_denominator(n as int, 2, d as int);
}

/// A size below `2^bits` is brought to zero, and so to any `base_size`, by
/// `bits` halvings.
proof fn lemma_lod_count_width(base_size: nat, full_size: nat, bits: nat)
    requires
        full_size < pow2(bits),
    ensures
        lod_count(base_size, full_size) <= bits,
    decreases bits,
{
    if full_size > base_size {
        if bits == 0 {
            lemma2_to64();
        } else {
            lemma_pow2_unfold(bits);
            lemma_lod_count_width(base_size, full_size / 2, (bits - 1) as nat);
        }
    }
}

/// Counts the levels of detail above level 0 that a terrain of `full_size`
/// needs when its finest chunks are `base_size` wide.
pub fn compute_lod_count(base_size: u32, full_size: u32) -> (count: u32)
    ensures
        count == lod_count(base_size as nat, full_size as nat),
        count <= MAX_LEVEL,
{
    proof {
        lemma2_to64();
        lemma_lod_count(base_size as nat, full_size as nat);
    }
    let mut count: u32 = 0;
    let mut size: u32 = full_size;
    while size > base_size
        invariant
            count + lod_count(base_size as nat, size as nat) == lod_count(
                base_size as nat,
                full_size as nat,
            ),
            lod_count(base_size as nat, full_size as nat) <= 32,
        decreases size,
    {
        size = size / 2;
        count = count + 1;
    }
    count
}

/// Edge of a cell of `level`, in finest cells.
pub fn lod_size(level: u32) -> (size: u64)
    requires
        level <= MAX_LEVEL,
    ensures
        size == pow2(level as nat),
        size <= 0x1_0000_0000,
{
    proof {
        lemma2_to64();
        lemma_pow2_at_most(level as nat, 32);
        vstd::bits::lemma_u64_shl_is_mul(1, level as u64);
    }
    1u64 << (level as u64)
}

/// Powers of two grow with the exponent.
pub proof fn lemma_pow2_at_most(a: nat, b: nat)
    requires
        a <= b,
    ensures
        pow2(a) <= pow2(b),
{
    if a < b {
        lemma_pow2_strictly_increases(a, b);
    }
}

/// The root cell of a tree of at most `MAX_LEVEL` levels is a cell of the
/// grid.
pub proof fn lemma_root_in_grid(max_depth: u32)
    requires
        max_depth <= MAX_LEVEL,
    ensures
        Cell::root(max_depth).in_grid(),
{
    lemma_pow2_at_most(max_depth as nat, 32);
    assert(1 * pow2(max_depth as nat) == pow2(max_depth as nat)) by (nonlinear_arith);
}

/// Edge of a chunk at `level` in grid units, for finest chunks `base_size`
/// wide.
pub open spec fn chunk_size(base_size: u32, level: u32) -> nat {
    base_size as nat * pow2(level as nat)
}

} // verus!
