//! Mathematical model of the sandpile automaton.
//!
//! A grid is modelled as its two dimensions and a flat, row-major sequence of
//! integer cell heights. Toppling, topple sequences, mass and the decreasing
//! potential used for termination are all defined here, together with the
//! lemmas that the executable code and the public laws rest on.

use vstd::prelude::*;
use vstd::arithmetic::div_mod::lemma_fundamental_div_mod;
use vstd::arithmetic::div_mod::lemma_mod_bound;

verus! {

/// Mathematical value of a grid: the dimensions and the flat, row-major
/// sequence of cell heights (`cells[i * cols + j]` is the height at row `i`,
/// column `j`).
#[verifier::ext_equal]
pub struct GridV {
    pub rows: int,
    pub cols: int,
    pub cells: Seq<int>,
}

/// A well-formed grid has at least one row and one column and exactly
/// `rows * cols` cells.
pub open spec fn wf(g: GridV) -> bool {
    g.rows >= 1 && g.cols >= 1 && g.cells.len() == g.rows * g.cols
}

/// `(i, j)` names a cell of the grid.
pub open spec fn in_bounds(g: GridV, i: int, j: int) -> bool {
    0 <= i < g.rows && 0 <= j < g.cols
}

/// Flat index of the cell at row `i`, column `j`.
pub open spec fn flat(g: GridV, i: int, j: int) -> int {
    i * g.cols + j
}

/// Height of the cell at row `i`, column `j`.
pub open spec fn cell(g: GridV, i: int, j: int) -> int {
    g.cells[flat(g, i, j)]
}

/// A grid is stable when every cell holds less than 4 units.
pub open spec fn stable(g: GridV) -> bool {
    forall|k: int| 0 <= k < g.cells.len() ==> g.cells[k] < 4
}

/// Number of orthogonal neighbours of the cell at row `i`, column `j`:
/// 4 in the interior, 3 on an edge, 2 in a corner (fewer on one-row or
/// one-column grids).
pub open spec fn nbr_count(g: GridV, i: int, j: int) -> int {
    (if i > 0 { 1int } else { 0int }) + (if i < g.rows - 1 { 1int } else { 0int })
        + (if j > 0 { 1int } else { 0int }) + (if j < g.cols - 1 { 1int } else { 0int })
}

/// Units that leave the grid when the cell at `(i, j)` fires once: a firing
/// costs 4 units and only existing neighbours receive one, so an interior
/// firing spills 0, an edge firing 1 and a corner firing 2.
pub open spec fn spill(g: GridV, i: int, j: int) -> int {
    4 - nbr_count(g, i, j)
}

/// One firing of the cell at `(i, j)`: the cell loses 4 units and each
/// existing orthogonal neighbour gains 1.
pub open spec fn topple(g: GridV, i: int, j: int) -> GridV {
    let c0 = g.cells.update(flat(g, i, j), g.cells[flat(g, i, j)] - 4);
    let c1 = if i > 0 {
        c0.update(flat(g, i - 1, j), c0[flat(g, i - 1, j)] + 1)
    } else {
        c0
    };
    let c2 = if i < g.rows - 1 {
        c1.update(flat(g, i + 1, j), c1[flat(g, i + 1, j)] + 1)
    } else {
        c1
    };
    let c3 = if j > 0 {
        c2.update(flat(g, i, j - 1), c2[flat(g, i, j - 1)] + 1)
    } else {
        c2
    };
    let c4 = if j < g.cols - 1 {
        c3.update(flat(g, i, j + 1), c3[flat(g, i, j + 1)] + 1)
    } else {
        c3
    };
    GridV { rows: g.rows, cols: g.cols, cells: c4 }
}

/// Change that one firing of the cell at `(i, j)` makes to the height held at
/// flat index `k`.
pub open spec fn delta(g: GridV, i: int, j: int, k: int) -> int {
    if k == flat(g, i, j) {
        -4
    } else if i > 0 && k == flat(g, i - 1, j) {
        1
    } else if i < g.rows - 1 && k == flat(g, i + 1, j) {
        1
    } else if j > 0 && k == flat(g, i, j - 1) {
        1
    } else if j < g.cols - 1 && k == flat(g, i, j + 1) {
        1
    } else {
        0
    }
}

/// The flat index of a cell lies within the sequence of cells.
pub proof fn lemma_flat_range(g: GridV, i: int, j: int)
    requires
        wf(g),
        in_bounds(g, i, j),
    ensures
        0 <= flat(g, i, j) < g.cells.len(),
{
    assert(0 <= i * g.cols + j < g.rows * g.cols) by (nonlinear_arith)
        requires
            0 <= i < g.rows,
            0 <= j < g.cols,
    ;
}

/// Distinct cells have distinct flat indices.
pub proof fn lemma_flat_injective(g: GridV, i1: int, j1: int, i2: int, j2: int)
    requires
        wf(g),
        in_bounds(g, i1, j1),
        in_bounds(g, i2, j2),
    ensures
        flat(g, i1, j1) == flat(g, i2, j2) <==> (i1 == i2 && j1 == j2),
{
    assert(i1 * g.cols + j1 == i2 * g.cols + j2 ==> (i1 == i2 && j1 == j2)) by (nonlinear_arith)
        requires
            0 <= j1 < g.cols,
            0 <= j2 < g.cols,
    ;
}

/// One firing keeps the dimensions and changes each cell by exactly its
/// `delta`.
pub proof fn lemma_topple_pointwise(g: GridV, i: int, j: int)
    requires
        wf(g),
        in_bounds(g, i, j),
    ensures
        topple(g, i, j).rows == g.rows,
        topple(g, i, j).cols == g.cols,
        topple(g, i, j).cells.len() == g.cells.len(),
        wf(topple(g, i, j)),
        forall|k: int|
            0 <= k < g.cells.len() ==> topple(g, i, j).cells[k] == g.cells[k] + delta(g, i, j, k),
{
    lemma_flat_range(g, i, j);
    if i > 0 {
        lemma_flat_range(g, i - 1, j);
        lemma_flat_injective(g, i - 1, j, i, j);
    }
    if i < g.rows - 1 {
        lemma_flat_range(g, i + 1, j);
        lemma_flat_injective(g, i + 1, j, i, j);
        if i > 0 {
            lemma_flat_injective(g, i + 1, j, i - 1, j);
        }
    }
    if j > 0 {
        lemma_flat_range(g, i, j - 1);
        lemma_flat_injective(g, i, j - 1, i, j);
        if i > 0 {
            lemma_flat_injective(g, i, j - 1, i - 1, j);
        }
        if i < g.rows - 1 {
            lemma_flat_injective(g, i, j - 1, i + 1, j);
        }
    }
    if j < g.cols - 1 {
        lemma_flat_range(g, i, j + 1);
        lemma_flat_injective(g, i, j + 1, i, j);
        if i > 0 {
            lemma_flat_injective(g, i, j + 1, i - 1, j);
        }
        if i < g.rows - 1 {
            lemma_flat_injective(g, i, j + 1, i + 1, j);
        }
        if j > 0 {
            lemma_flat_injective(g, i, j + 1, i, j - 1);
        }
    }
    assert forall|k: int| 0 <= k < g.cells.len() implies topple(g, i, j).cells[k] == g.cells[k]
        + delta(g, i, j, k) by {
        lemma_flat_injective(g, i, j, i, j);
    }
}

/// Total mass of a sequence of heights.
pub open spec fn total(s: Seq<int>) -> int
    decreases s.len(),
{
    if s.len() == 0 {
        0
    } else {
        total(s.drop_last()) + s.last()
    }
}

/// Positive part of a height.
pub open spec fn clip(x: int) -> int {
    if x > 0 {
        x
    } else {
        0
    }
}

/// Total of the positive parts of a sequence of heights. Toppling never
/// increases it, so it bounds every cell throughout stabilization.
pub open spec fn clip_total(s: Seq<int>) -> int
    decreases s.len(),
{
    if s.len() == 0 {
        0
    } else {
        clip_total(s.drop_last()) + clip(s.last())
    }
}

/// Changing one entry moves the total by the difference at that entry.
pub proof fn lemma_total_update(s: Seq<int>, k: int, v: int)
    requires
        0 <= k < s.len(),
    ensures
        total(s.update(k, v)) == total(s) - s[k] + v,
    decreases s.len(),
{
    if k == s.len() - 1 {
        assert(s.update(k, v).drop_last() =~= s.drop_last());
    } else {
        assert(s.update(k, v).drop_last() =~= s.drop_last().update(k, v));
        lemma_total_update(s.drop_last(), k, v);
    }
}

/// Changing one entry moves the positive-part total by the difference of the
/// positive parts at that entry.
pub proof fn lemma_clip_total_update(s: Seq<int>, k: int, v: int)
    requires
        0 <= k < s.len(),
    ensures
        clip_total(s.update(k, v)) == clip_total(s) - clip(s[k]) + clip(v),
    decreases s.len(),
{
    if k == s.len() - 1 {
        assert(s.update(k, v).drop_last() =~= s.drop_last());
    } else {
        assert(s.update(k, v).drop_last() =~= s.drop_last().update(k, v));
        lemma_clip_total_update(s.drop_last(), k, v);
    }
}

/// The positive-part total is never negative.
pub proof fn lemma_clip_total_nonneg(s: Seq<int>)
    ensures
        clip_total(s) >= 0,
    decreases s.len(),
{
    if s.len() > 0 {
        lemma_clip_total_nonneg(s.drop_last());
    }
}

/// Every entry is bounded by the positive-part total of the whole sequence.
pub proof fn lemma_cell_le_clip_total(s: Seq<int>, k: int)
    requires
        0 <= k < s.len(),
    ensures
        s[k] <= clip(s[k]) <= clip_total(s),
    decreases s.len(),
{
    if k == s.len() - 1 {
        lemma_clip_total_nonneg(s.drop_last());
    } else {
        lemma_cell_le_clip_total(s.drop_last(), k);
    }
}

/// One firing removes exactly the spilled units from the total mass: the
/// firing cell loses 4 and each existing neighbour gains 1.
pub proof fn lemma_topple_total(g: GridV, i: int, j: int)
    requires
        wf(g),
        in_bounds(g, i, j),
    ensures
        total(topple(g, i, j).cells) == total(g.cells) - spill(g, i, j),
{
    let c0 = g.cells.update(flat(g, i, j), g.cells[flat(g, i, j)] - 4);
    lemma_flat_range(g, i, j);
    lemma_total_update(g.cells, flat(g, i, j), g.cells[flat(g, i, j)] - 4);
    let c1 = if i > 0 {
        c0.update(flat(g, i - 1, j), c0[flat(g, i - 1, j)] + 1)
    } else {
        c0
    };
    if i > 0 {
        lemma_flat_range(g, i - 1, j);
        lemma_total_update(c0, flat(g, i - 1, j), c0[flat(g, i - 1, j)] + 1);
    }
    let c2 = if i < g.rows - 1 {
        c1.update(flat(g, i + 1, j), c1[flat(g, i + 1, j)] + 1)
    } else {
        c1
    };
    if i < g.rows - 1 {
        lemma_flat_range(g, i + 1, j);
        lemma_total_update(c1, flat(g, i + 1, j), c1[flat(g, i + 1, j)] + 1);
    }
    let c3 = if j > 0 {
        c2.update(flat(g, i, j - 1), c2[flat(g, i, j - 1)] + 1)
    } else {
        c2
    };
    if j > 0 {
        lemma_flat_range(g, i, j - 1);
        lemma_total_update(c2, flat(g, i, j - 1), c2[flat(g, i, j - 1)] + 1);
    }
    if j < g.cols - 1 {
        lemma_flat_range(g, i, j + 1);
        lemma_total_update(c3, flat(g, i, j + 1), c3[flat(g, i, j + 1)] + 1);
    }
}

/// A firing of a cell holding at least 4 units never increases the
/// positive-part total: the firing cell's positive part drops by 4 and each
/// of the at most 4 neighbours gains at most 1.
pub proof fn lemma_topple_clip_total(g: GridV, i: int, j: int)
    requires
        wf(g),
        in_bounds(g, i, j),
        cell(g, i, j) >= 4,
    ensures
        clip_total(topple(g, i, j).cells) <= clip_total(g.cells),
{
    let c0 = g.cells.update(flat(g, i, j), g.cells[flat(g, i, j)] - 4);
    lemma_flat_range(g, i, j);
    lemma_clip_total_update(g.cells, flat(g, i, j), g.cells[flat(g, i, j)] - 4);
    let c1 = if i > 0 {
        c0.update(flat(g, i - 1, j), c0[flat(g, i - 1, j)] + 1)
    } else {
        c0
    };
    if i > 0 {
        lemma_flat_range(g, i - 1, j);
        lemma_clip_total_update(c0, flat(g, i - 1, j), c0[flat(g, i - 1, j)] + 1);
    }
    let c2 = if i < g.rows - 1 {
        c1.update(flat(g, i + 1, j), c1[flat(g, i + 1, j)] + 1)
    } else {
        c1
    };
    if i < g.rows - 1 {
        lemma_flat_range(g, i + 1, j);
        lemma_clip_total_update(c1, flat(g, i + 1, j), c1[flat(g, i + 1, j)] + 1);
    }
    let c3 = if j > 0 {
        c2.update(flat(g, i, j - 1), c2[flat(g, i, j - 1)] + 1)
    } else {
        c2
    };
    if j > 0 {
        lemma_flat_range(g, i, j - 1);
        lemma_clip_total_update(c2, flat(g, i, j - 1), c2[flat(g, i, j - 1)] + 1);
    }
    if j < g.cols - 1 {
        lemma_flat_range(g, i, j + 1);
        lemma_clip_total_update(c3, flat(g, i, j + 1), c3[flat(g, i, j + 1)] + 1);
    }
}

/// Weight of position `i` on an axis of length `n`: a concave parabola that
/// is zero at both ends of the axis.
pub open spec fn axis_weight(i: int, n: int) -> int {
    i * (n - 1 - i)
}

/// Weight of the cell at `(i, j)`: strictly superharmonic, so each firing
/// strictly decreases the weighted positive mass `phi` and stabilization
/// terminates.
pub open spec fn weight(g: GridV, i: int, j: int) -> int {
    axis_weight(i, g.rows) + axis_weight(j, g.cols) + g.rows + g.cols
}

/// Weight of the cell holding flat index `k`.
pub open spec fn weight_at(g: GridV, k: int) -> int {
    weight(g, k / g.cols, k % g.cols)
}

/// Weighted positive mass of the first `n` cells.
pub open spec fn phi_upto(g: GridV, n: int) -> int
    decreases n,
{
    if n <= 0 {
        0
    } else {
        phi_upto(g, n - 1) + clip(g.cells[n - 1]) * weight_at(g, n - 1)
    }
}

/// Weighted positive mass of the grid: the termination measure of
/// stabilization.
pub open spec fn phi(g: GridV) -> int {
    phi_upto(g, g.cells.len() as int)
}

/// A flat index decomposes into the row and column of its cell.
pub proof fn lemma_flat_coords(g: GridV, k: int)
    requires
        wf(g),
        0 <= k < g.cells.len(),
    ensures
        in_bounds(g, k / g.cols, k % g.cols),
        flat(g, k / g.cols, k % g.cols) == k,
{
    lemma_fundamental_div_mod(k, g.cols);
    lemma_mod_bound(k, g.cols);
    assert(0 <= k / g.cols < g.rows) by (nonlinear_arith)
        requires
            k == g.cols * (k / g.cols) + k % g.cols,
            0 <= k % g.cols < g.cols,
            0 <= k < g.rows * g.cols,
            g.cols >= 1,
    ;
}

/// `weight_at` agrees with `weight` on the flat index of a cell.
pub proof fn lemma_weight_at_flat(g: GridV, i: int, j: int)
    requires
        wf(g),
        in_bounds(g, i, j),
    ensures
        weight_at(g, flat(g, i, j)) == weight(g, i, j),
{
    lemma_flat_range(g, i, j);
    let k = flat(g, i, j);
    lemma_flat_coords(g, k);
    lemma_flat_injective(g, k / g.cols, k % g.cols, i, j);
}

/// Axis weights are nonnegative on the axis.
pub proof fn lemma_axis_weight_nonneg(i: int, n: int)
    requires
        0 <= i <= n - 1,
    ensures
        axis_weight(i, n) >= 0,
{
    assert(i * (n - 1 - i) >= 0) by (nonlinear_arith)
        requires
            0 <= i,
            i <= n - 1,
    ;
}

/// Every cell's weight is at least `rows + cols`, hence at least 2.
pub proof fn lemma_weight_lower(g: GridV, i: int, j: int)
    requires
        wf(g),
        in_bounds(g, i, j),
    ensures
        weight(g, i, j) >= g.rows + g.cols >= 2,
{
    lemma_axis_weight_nonneg(i, g.rows);
    lemma_axis_weight_nonneg(j, g.cols);
}

/// Four times a cell's weight strictly exceeds the summed weights of its
/// existing neighbours: the weighting is strictly superharmonic everywhere.
pub proof fn lemma_weight_superharmonic(g: GridV, i: int, j: int)
    requires
        wf(g),
        in_bounds(g, i, j),
    ensures
        4 * weight(g, i, j) >= (if i > 0 { weight(g, i - 1, j) } else { 0 })
            + (if i < g.rows - 1 { weight(g, i + 1, j) } else { 0 })
            + (if j > 0 { weight(g, i, j - 1) } else { 0 })
            + (if j < g.cols - 1 { weight(g, i, j + 1) } else { 0 }) + 1,
{
    let r = g.rows;
    let c = g.cols;
    let w = weight(g, i, j);
    lemma_weight_lower(g, i, j);
    let vert = (if i > 0 { weight(g, i - 1, j) } else { 0 })
        + (if i < r - 1 { weight(g, i + 1, j) } else { 0 });
    let horiz = (if j > 0 { weight(g, i, j - 1) } else { 0 })
        + (if j < c - 1 { weight(g, i, j + 1) } else { 0 });
    if 0 < i && i < r - 1 {
        assert((i - 1) * (r - 1 - (i - 1)) + (i + 1) * (r - 1 - (i + 1)) == 2 * (i * (r - 1 - i))
            - 2) by (nonlinear_arith);
        assert(vert == 2 * w - 2);
    } else if i == 0 && i < r - 1 {
        assert(axis_weight(1, r) == r - 2) by (nonlinear_arith);
        assert(axis_weight(0, r) == 0) by (nonlinear_arith);
        assert(vert == w + r - 2);
    } else if i > 0 && i == r - 1 {
        assert(axis_weight(r - 2, r) == r - 2) by (nonlinear_arith);
        assert(axis_weight(r - 1, r) == 0) by (nonlinear_arith);
        assert(vert == w + r - 2);
    } else {
        assert(vert == 0);
    }
    if 0 < j && j < c - 1 {
        assert((j - 1) * (c - 1 - (j - 1)) + (j + 1) * (c - 1 - (j + 1)) == 2 * (j * (c - 1 - j))
            - 2) by (nonlinear_arith);
        assert(horiz == 2 * w - 2);
    } else if j == 0 && j < c - 1 {
        assert(axis_weight(1, c) == c - 2) by (nonlinear_arith);
        assert(axis_weight(0, c) == 0) by (nonlinear_arith);
        assert(horiz == w + c - 2);
    } else if j > 0 && j == c - 1 {
        assert(axis_weight(c - 2, c) == c - 2) by (nonlinear_arith);
        assert(axis_weight(c - 1, c) == 0) by (nonlinear_arith);
        assert(horiz == w + c - 2);
    } else {
        assert(horiz == 0);
    }
}

/// Updating one cell moves the weighted positive mass of a prefix by the
/// weighted difference of the positive parts, when the cell lies in the
/// prefix.
proof fn lemma_phi_upto_update(g: GridV, k: int, v: int, n: int)
    requires
        wf(g),
        0 <= k < g.cells.len(),
        n <= g.cells.len(),
    ensures
        phi_upto(GridV { rows: g.rows, cols: g.cols, cells: g.cells.update(k, v) }, n)
            == phi_upto(g, n) + (if k < n {
            (clip(v) - clip(g.cells[k])) * weight_at(g, k)
        } else {
            0
        }),
    decreases n,
{
    let g2 = GridV { rows: g.rows, cols: g.cols, cells: g.cells.update(k, v) };
    if n > 0 {
        lemma_phi_upto_update(g, k, v, n - 1);
        assert(weight_at(g2, n - 1) == weight_at(g, n - 1));
        if k == n - 1 {
            assert(g2.cells[n - 1] == v);
            assert(clip(g.cells[k]) * weight_at(g, k) + (clip(v) - clip(g.cells[k])) * weight_at(
                g,
                k,
            ) == clip(v) * weight_at(g, k)) by (nonlinear_arith);
        } else {
            assert(g2.cells[n - 1] == g.cells[n - 1]);
        }
    }
}

/// Updating one cell moves the weighted positive mass by the weighted
/// difference of the positive parts.
pub proof fn lemma_phi_update(g: GridV, k: int, v: int)
    requires
        wf(g),
        0 <= k < g.cells.len(),
    ensures
        phi(GridV { rows: g.rows, cols: g.cols, cells: g.cells.update(k, v) }) == phi(g) + (clip(v)
            - clip(g.cells[k])) * weight_at(g, k),
{
    lemma_phi_upto_update(g, k, v, g.cells.len() as int);
}

proof fn lemma_phi_upto_nonneg(g: GridV, n: int)
    requires
        wf(g),
        n <= g.cells.len(),
    ensures
        phi_upto(g, n) >= 0,
    decreases n,
{
    if n > 0 {
        lemma_phi_upto_nonneg(g, n - 1);
        lemma_flat_coords(g, n - 1);
        lemma_weight_lower(g, (n - 1) / g.cols, (n - 1) % g.cols);
        assert(clip(g.cells[n - 1]) * weight_at(g, n - 1) >= 0) by (nonlinear_arith)
            requires
                clip(g.cells[n - 1]) >= 0,
                weight_at(g, n - 1) >= 0,
        ;
    }
}

/// A firing of a cell holding at least 4 units strictly decreases the
/// weighted positive mass: the firing cell gives up 4 times its weight and
/// the neighbours together regain strictly less, by superharmonicity.
#[verifier::rlimit(60)]
pub proof fn lemma_topple_phi(g: GridV, i: int, j: int)
    requires
        wf(g),
        in_bounds(g, i, j),
        cell(g, i, j) >= 4,
    ensures
        phi(topple(g, i, j)) <= phi(g) - 1,
{
    let w = weight(g, i, j);
    lemma_flat_range(g, i, j);
    lemma_weight_at_flat(g, i, j);
    let k0 = flat(g, i, j);
    let h = g.cells[k0];
    let g0 = GridV { rows: g.rows, cols: g.cols, cells: g.cells.update(k0, h - 4) };
    lemma_phi_update(g, k0, h - 4);
    assert((clip(h - 4) - clip(h)) * weight_at(g, k0) == -4 * w) by (nonlinear_arith)
        requires
            clip(h - 4) - clip(h) == -4,
            weight_at(g, k0) == w,
    ;
    let up = if i > 0 { weight(g, i - 1, j) } else { 0 };
    let g1 = if i > 0 {
        GridV {
            rows: g.rows,
            cols: g.cols,
            cells: g0.cells.update(flat(g, i - 1, j), g0.cells[flat(g, i - 1, j)] + 1),
        }
    } else {
        g0
    };
    if i > 0 {
        let k = flat(g, i - 1, j);
        lemma_flat_range(g, i - 1, j);
        lemma_weight_at_flat(g, i - 1, j);
        lemma_weight_lower(g, i - 1, j);
        lemma_phi_update(g0, k, g0.cells[k] + 1);
        let d = clip(g0.cells[k] + 1) - clip(g0.cells[k]);
        assert(phi(g1) == phi(g0) + d * weight_at(g0, k));
        assert(d * weight_at(g0, k) <= up) by (nonlinear_arith)
            requires
                d == 0 || d == 1,
                weight_at(g0, k) == up,
                up >= 0,
        ;
    }
    assert(phi(g1) <= phi(g) - 4 * w + up);
    let down = if i < g.rows - 1 { weight(g, i + 1, j) } else { 0 };
    let g2 = if i < g.rows - 1 {
        GridV {
            rows: g.rows,
            cols: g.cols,
            cells: g1.cells.update(flat(g, i + 1, j), g1.cells[flat(g, i + 1, j)] + 1),
        }
    } else {
        g1
    };
    if i < g.rows - 1 {
        let k = flat(g, i + 1, j);
        lemma_flat_range(g, i + 1, j);
        lemma_weight_at_flat(g, i + 1, j);
        lemma_weight_lower(g, i + 1, j);
        lemma_phi_update(g1, k, g1.cells[k] + 1);
        let d = clip(g1.cells[k] + 1) - clip(g1.cells[k]);
        assert(phi(g2) == phi(g1) + d * weight_at(g1, k));
        assert(d * weight_at(g1, k) <= down) by (nonlinear_arith)
            requires
                d == 0 || d == 1,
                weight_at(g1, k) == down,
                down >= 0,
        ;
    }
    assert(phi(g2) <= phi(g) - 4 * w + up + down);
    let left = if j > 0 { weight(g, i, j - 1) } else { 0 };
    let g3 = if j > 0 {
        GridV {
            rows: g.rows,
            cols: g.cols,
            cells: g2.cells.update(flat(g, i, j - 1), g2.cells[flat(g, i, j - 1)] + 1),
        }
    } else {
        g2
    };
    if j > 0 {
        let k = flat(g, i, j - 1);
        lemma_flat_range(g, i, j - 1);
        lemma_weight_at_flat(g, i, j - 1);
        lemma_weight_lower(g, i, j - 1);
        lemma_phi_update(g2, k, g2.cells[k] + 1);
        let d = clip(g2.cells[k] + 1) - clip(g2.cells[k]);
        assert(phi(g3) == phi(g2) + d * weight_at(g2, k));
        assert(d * weight_at(g2, k) <= left) by (nonlinear_arith)
            requires
                d == 0 || d == 1,
                weight_at(g2, k) == left,
                left >= 0,
        ;
    }
    assert(phi(g3) <= phi(g) - 4 * w + up + down + left);
    let right = if j < g.cols - 1 { weight(g, i, j + 1) } else { 0 };
    let g4 = if j < g.cols - 1 {
        GridV {
            rows: g.rows,
            cols: g.cols,
            cells: g3.cells.update(flat(g, i, j + 1), g3.cells[flat(g, i, j + 1)] + 1),
        }
    } else {
        g3
    };
    if j < g.cols - 1 {
        let k = flat(g, i, j + 1);
        lemma_flat_range(g, i, j + 1);
        lemma_weight_at_flat(g, i, j + 1);
        lemma_weight_lower(g, i, j + 1);
        lemma_phi_update(g3, k, g3.cells[k] + 1);
        let d = clip(g3.cells[k] + 1) - clip(g3.cells[k]);
        assert(phi(g4) == phi(g3) + d * weight_at(g3, k));
        assert(d * weight_at(g3, k) <= right) by (nonlinear_arith)
            requires
                d == 0 || d == 1,
                weight_at(g3, k) == right,
                right >= 0,
        ;
    }
    assert(phi(g4) <= phi(g) - 4 * w + up + down + left + right);
    assert(topple(g, i, j) =~= g4);
    lemma_weight_superharmonic(g, i, j);
}

/// The weighted positive mass is never negative.
pub proof fn lemma_phi_nonneg(g: GridV)
    requires
        wf(g),
    ensures
        phi(g) >= 0,
{
    lemma_phi_upto_nonneg(g, g.cells.len() as int);
}

/// Result of firing the listed cells in order, unconditionally.
pub open spec fn run(g: GridV, s: Seq<(int, int)>) -> GridV
    decreases s.len(),
{
    if s.len() == 0 {
        g
    } else {
        run(topple(g, s[0].0, s[0].1), s.drop_first())
    }
}

/// Every listed position names a cell of the grid.
pub open spec fn jobs_in_bounds(g: GridV, s: Seq<(int, int)>) -> bool {
    forall|k: int| 0 <= k < s.len() ==> in_bounds(g, s[k].0, s[k].1)
}

/// The listed cells can legally fire in order: each is in bounds and holds
/// more than 3 units at its turn.
pub open spec fn valid_topples(g: GridV, s: Seq<(int, int)>) -> bool
    decreases s.len(),
{
    s.len() == 0 || {
        &&& in_bounds(g, s[0].0, s[0].1)
        &&& cell(g, s[0].0, s[0].1) > 3
        &&& valid_topples(topple(g, s[0].0, s[0].1), s.drop_first())
    }
}

/// Units lost past the boundary when the listed cells fire in order.
pub open spec fn spill_total(g: GridV, s: Seq<(int, int)>) -> int
    decreases s.len(),
{
    if s.len() == 0 {
        0
    } else {
        spill(g, s[0].0, s[0].1) + spill_total(g, s.drop_first())
    }
}

/// `r` is the stable configuration that `g` reaches by a legal sequence of
/// firings. By the abelian property this determines `r` uniquely, and the
/// stabilization engine returns exactly this grid.
pub open spec fn stabilizes_to(g: GridV, r: GridV) -> bool {
    exists|s: Seq<(int, int)>|
        valid_topples(g, s) && run(g, s) == r && stable(r)
}

/// Running a sequence of firings keeps the dimensions and the cell count.
pub proof fn lemma_run_wf(g: GridV, s: Seq<(int, int)>)
    requires
        wf(g),
        jobs_in_bounds(g, s),
    ensures
        run(g, s).rows == g.rows,
        run(g, s).cols == g.cols,
        wf(run(g, s)),
    decreases s.len(),
{
    if s.len() > 0 {
        let g1 = topple(g, s[0].0, s[0].1);
        lemma_topple_pointwise(g, s[0].0, s[0].1);
        assert(jobs_in_bounds(g1, s.drop_first()));
        lemma_run_wf(g1, s.drop_first());
    }
}

/// A legal sequence only names cells of the grid.
pub proof fn lemma_valid_in_bounds(g: GridV, s: Seq<(int, int)>)
    requires
        valid_topples(g, s),
    ensures
        jobs_in_bounds(g, s),
    decreases s.len(),
{
    if s.len() > 0 {
        let g1 = topple(g, s[0].0, s[0].1);
        lemma_valid_in_bounds(g1, s.drop_first());
        assert forall|k: int| 0 <= k < s.len() implies in_bounds(g, s[k].0, s[k].1) by {
            if k > 0 {
                assert(s.drop_first()[k - 1] == s[k]);
                assert(in_bounds(g1, s[k].0, s[k].1));
            }
        }
    }
}

/// Running a sequence of firings removes exactly the spilled units from the
/// total mass: interior firings conserve it, edge firings lose 1 unit each
/// and corner firings 2.
pub proof fn lemma_run_total(g: GridV, s: Seq<(int, int)>)
    requires
        wf(g),
        jobs_in_bounds(g, s),
    ensures
        total(run(g, s).cells) == total(g.cells) - spill_total(g, s),
    decreases s.len(),
{
    if s.len() > 0 {
        let g1 = topple(g, s[0].0, s[0].1);
        lemma_topple_total(g, s[0].0, s[0].1);
        lemma_topple_pointwise(g, s[0].0, s[0].1);
        assert(jobs_in_bounds(g1, s.drop_first()));
        lemma_run_total(g1, s.drop_first());
        assert(spill_total(g1, s.drop_first()) == spill_total(g, s.drop_first())) by {
            lemma_spill_total_dims(g1, g, s.drop_first());
        }
    }
}

/// The spill of a sequence depends only on the dimensions of the grid.
proof fn lemma_spill_total_dims(g1: GridV, g2: GridV, s: Seq<(int, int)>)
    requires
        g1.rows == g2.rows,
        g1.cols == g2.cols,
    ensures
        spill_total(g1, s) == spill_total(g2, s),
    decreases s.len(),
{
    if s.len() > 0 {
        lemma_spill_total_dims(g1, g2, s.drop_first());
    }
}

/// A legal sequence of firings decreases the weighted positive mass by at
/// least its length.
pub proof fn lemma_run_phi(g: GridV, s: Seq<(int, int)>)
    requires
        wf(g),
        valid_topples(g, s),
    ensures
        phi(run(g, s)) <= phi(g) - s.len(),
    decreases s.len(),
{
    if s.len() > 0 {
        let g1 = topple(g, s[0].0, s[0].1);
        lemma_topple_phi(g, s[0].0, s[0].1);
        lemma_topple_pointwise(g, s[0].0, s[0].1);
        lemma_run_phi(g1, s.drop_first());
    }
}

/// Legal sequences compose: running one and then another is running their
/// concatenation.
pub proof fn lemma_run_concat(g: GridV, s1: Seq<(int, int)>, s2: Seq<(int, int)>)
    requires
        valid_topples(g, s1),
        valid_topples(run(g, s1), s2),
    ensures
        valid_topples(g, s1 + s2),
        run(g, s1 + s2) == run(run(g, s1), s2),
    decreases s1.len(),
{
    if s1.len() == 0 {
        assert(s1 + s2 =~= s2);
    } else {
        let g1 = topple(g, s1[0].0, s1[0].1);
        assert((s1 + s2).drop_first() =~= s1.drop_first() + s2);
        lemma_run_concat(g1, s1.drop_first(), s2);
    }
}

/// A list of distinct cells, each holding more than 3 units, may legally
/// fire in any order: firing one of them only adds to the others.
pub proof fn lemma_distinct_unstable_valid(g: GridV, s: Seq<(int, int)>)
    requires
        wf(g),
        jobs_in_bounds(g, s),
        forall|k: int| 0 <= k < s.len() ==> cell(g, s[k].0, s[k].1) > 3,
        forall|k1: int, k2: int| 0 <= k1 < k2 < s.len() ==> s[k1] != s[k2],
    ensures
        valid_topples(g, s),
    decreases s.len(),
{
    if s.len() > 0 {
        let g1 = topple(g, s[0].0, s[0].1);
        lemma_topple_pointwise(g, s[0].0, s[0].1);
        assert forall|k: int| 0 <= k < s.drop_first().len() implies cell(
            g1,
            s.drop_first()[k].0,
            s.drop_first()[k].1,
        ) > 3 by {
            let (i, j) = s.drop_first()[k];
            assert(s[k + 1] == s.drop_first()[k]);
            lemma_flat_range(g, i, j);
            lemma_flat_injective(g, i, j, s[0].0, s[0].1);
            assert(delta(g, s[0].0, s[0].1, flat(g, i, j)) >= 0);
        }
        lemma_distinct_unstable_valid(g1, s.drop_first());
    }
}

/// Two firings commute: each adds a fixed change to every cell, and
/// addition commutes.
pub proof fn lemma_topple_commute(g: GridV, pi: int, pj: int, qi: int, qj: int)
    requires
        wf(g),
        in_bounds(g, pi, pj),
        in_bounds(g, qi, qj),
    ensures
        topple(topple(g, pi, pj), qi, qj) == topple(topple(g, qi, qj), pi, pj),
{
    let gp = topple(g, pi, pj);
    let gq = topple(g, qi, qj);
    lemma_topple_pointwise(g, pi, pj);
    lemma_topple_pointwise(g, qi, qj);
    lemma_topple_pointwise(gp, qi, qj);
    lemma_topple_pointwise(gq, pi, pj);
    assert forall|k: int| 0 <= k < g.cells.len() implies topple(gp, qi, qj).cells[k] == topple(
        gq,
        pi,
        pj,
    ).cells[k] by {
        assert(delta(gp, qi, qj, k) == delta(g, qi, qj, k));
        assert(delta(gq, pi, pj, k) == delta(g, pi, pj, k));
    }
    assert(topple(gp, qi, qj).cells =~= topple(gq, pi, pj).cells);
    assert(topple(gp, qi, qj) =~= topple(gq, pi, pj));
}

/// Any listed firing may be pulled to the front of an unconditional run
/// without changing the result.
pub proof fn lemma_run_pull(g: GridV, s: Seq<(int, int)>, k: int)
    requires
        wf(g),
        jobs_in_bounds(g, s),
        0 <= k < s.len(),
    ensures
        run(g, s) == run(topple(g, s[k].0, s[k].1), s.remove(k)),
    decreases k,
{
    let g0 = topple(g, s[0].0, s[0].1);
    if k == 0 {
        assert(s.remove(0) =~= s.drop_first());
    } else {
        lemma_topple_pointwise(g, s[0].0, s[0].1);
        assert(jobs_in_bounds(g0, s.drop_first()));
        assert(s.drop_first()[k - 1] == s[k]);
        lemma_run_pull(g0, s.drop_first(), k - 1);
        lemma_topple_commute(g, s[0].0, s[0].1, s[k].0, s[k].1);
        let gk = topple(g, s[k].0, s[k].1);
        assert(s.drop_first().remove(k - 1) =~= s.remove(k).drop_first());
        assert(s.remove(k)[0] == s[0]);
        assert(run(gk, s.remove(k)) == run(
            topple(gk, s[0].0, s[0].1),
            s.remove(k).drop_first(),
        ));
    }
}

/// Firing the same multiset of cells, in any order, yields the same grid:
/// the abelian heart of the sandpile model.
pub proof fn lemma_run_permutation(g: GridV, s1: Seq<(int, int)>, s2: Seq<(int, int)>)
    requires
        wf(g),
        jobs_in_bounds(g, s1),
        s1.to_multiset() == s2.to_multiset(),
    ensures
        run(g, s1) == run(g, s2),
    decreases s1.len(),
{
    broadcast use vstd::seq_lib::group_to_multiset_ensures;

    if s1.len() == 0 {
        assert(s2.to_multiset().len() == 0);
        assert(s2.len() == 0);
    } else {
        let p = s1[0];
        assert(s1.contains(p));
        assert(s2.to_multiset().count(p) > 0);
        assert(s2.contains(p));
        let k = choose|k: int| 0 <= k < s2.len() && s2[k] == p;
        assert forall|m: int| 0 <= m < s2.len() implies in_bounds(g, s2[m].0, s2[m].1) by {
            assert(s2.contains(s2[m]));
            assert(s2.to_multiset().count(s2[m]) > 0);
            assert(s1.contains(s2[m]));
            let n = choose|n: int| 0 <= n < s1.len() && s1[n] == s2[m];
            assert(in_bounds(g, s1[n].0, s1[n].1));
        }
        lemma_run_pull(g, s2, k);
        let g1 = topple(g, p.0, p.1);
        lemma_topple_pointwise(g, p.0, p.1);
        assert(s1.drop_first() =~= s1.remove(0));
        assert(s1.remove(0).to_multiset() == s1.to_multiset().remove(p));
        assert(s2.remove(k).to_multiset() == s2.to_multiset().remove(p));
        assert(jobs_in_bounds(g1, s1.drop_first()));
        lemma_run_permutation(g1, s1.drop_first(), s2.remove(k));
    }
}

/// A cell that is unstable when a stabilizing sequence starts must fire in
/// it: other firings only add to the cell, so were it never to fire it would
/// still be unstable at the end. Returns the index of its first firing.
proof fn lemma_first_firing(g: GridV, s: Seq<(int, int)>, p: (int, int)) -> (m: int)
    requires
        wf(g),
        valid_topples(g, s),
        stable(run(g, s)),
        in_bounds(g, p.0, p.1),
        cell(g, p.0, p.1) > 3,
    ensures
        0 <= m < s.len(),
        s[m] == p,
        forall|k: int| 0 <= k < m ==> s[k] != p,
    decreases s.len(),
{
    lemma_flat_range(g, p.0, p.1);
    if s.len() == 0 {
        assert(run(g, s) == g);
        assert(false);
        0
    } else if s[0] == p {
        0
    } else {
        let g1 = topple(g, s[0].0, s[0].1);
        lemma_topple_pointwise(g, s[0].0, s[0].1);
        lemma_flat_injective(g, p.0, p.1, s[0].0, s[0].1);
        assert(cell(g1, p.0, p.1) >= cell(g, p.0, p.1));
        let m1 = lemma_first_firing(g1, s.drop_first(), p);
        assert(s[m1 + 1] == s.drop_first()[m1]);
        assert forall|k: int| 0 <= k < m1 + 1 implies s[k] != p by {
            if k > 0 {
                assert(s[k] == s.drop_first()[k - 1]);
            }
        }
        m1 + 1
    }
}

/// A legal sequence whose first firing of the unstable cell `p` stands at
/// index `m` stays legal when that firing is moved to the front: the
/// firings before it are of other cells, which `p`'s firing only feeds.
proof fn lemma_move_first(g: GridV, s: Seq<(int, int)>, m: int, p: (int, int))
    requires
        wf(g),
        valid_topples(g, s),
        0 <= m < s.len(),
        s[m] == p,
        forall|k: int| 0 <= k < m ==> s[k] != p,
        in_bounds(g, p.0, p.1),
        cell(g, p.0, p.1) > 3,
    ensures
        valid_topples(topple(g, p.0, p.1), s.remove(m)),
    decreases m,
{
    if m == 0 {
        assert(s.remove(0) =~= s.drop_first());
    } else {
        let q = s[0];
        let gq = topple(g, q.0, q.1);
        let gp = topple(g, p.0, p.1);
        lemma_topple_pointwise(g, q.0, q.1);
        lemma_topple_pointwise(g, p.0, p.1);
        lemma_flat_range(g, p.0, p.1);
        lemma_flat_range(g, q.0, q.1);
        lemma_flat_injective(g, p.0, p.1, q.0, q.1);
        assert(cell(gq, p.0, p.1) >= cell(g, p.0, p.1));
        assert(s.drop_first()[m - 1] == s[m]);
        assert forall|k: int| 0 <= k < m - 1 implies s.drop_first()[k] != p by {
            assert(s.drop_first()[k] == s[k + 1]);
        }
        lemma_move_first(gq, s.drop_first(), m - 1, p);
        lemma_topple_commute(g, p.0, p.1, q.0, q.1);
        assert(s.remove(m).drop_first() =~= s.drop_first().remove(m - 1));
        assert(s.remove(m)[0] == q);
        assert(cell(gp, q.0, q.1) >= cell(g, q.0, q.1));
        assert(valid_topples(topple(gp, q.0, q.1), s.remove(m).drop_first()));
    }
}

/// Two legal stabilizing sequences from one grid reach the same stable
/// grid: the abelian property of the sandpile model.
pub proof fn lemma_run_unique(g: GridV, s1: Seq<(int, int)>, s2: Seq<(int, int)>)
    requires
        wf(g),
        valid_topples(g, s1),
        valid_topples(g, s2),
        stable(run(g, s1)),
        stable(run(g, s2)),
    ensures
        run(g, s1) == run(g, s2),
    decreases s1.len(),
{
    if s1.len() == 0 {
        assert(run(g, s1) == g);
        lemma_stable_run_is_identity(g, s2);
    } else {
        let p = s1[0];
        let gp = topple(g, p.0, p.1);
        lemma_topple_pointwise(g, p.0, p.1);
        let m = lemma_first_firing(g, s2, p);
        lemma_move_first(g, s2, m, p);
        lemma_valid_in_bounds(g, s2);
        lemma_run_pull(g, s2, m);
        lemma_run_unique(gp, s1.drop_first(), s2.remove(m));
    }
}

/// From a stable grid no cell may legally fire, so the only legal sequence
/// is empty and the grid can only stabilize to itself.
pub proof fn lemma_stable_run_is_identity(g: GridV, s: Seq<(int, int)>)
    requires
        wf(g),
        stable(g),
        valid_topples(g, s),
    ensures
        s.len() == 0,
        run(g, s) == g,
{
    if s.len() > 0 {
        lemma_flat_range(g, s[0].0, s[0].1);
        assert(cell(g, s[0].0, s[0].1) < 4);
    }
}

} // verus!
