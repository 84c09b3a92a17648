//! The executable sandpile grid and its verified operations.

use vstd::prelude::*;

use crate::model;
use crate::model::GridV;

verus! {

/// A rectangular grid of integer heights, stored flat in row-major order.
#[derive(Debug)]
pub struct Sandpile {
    cols: usize,
    rows: usize,
    data: Vec<i64>,
}

/// Error of constructing a grid from a flat list whose length is not
/// `rows * cols`.
#[derive(Debug, Clone, Copy, PartialEq, Eq, Structural)]
pub struct DataLengthMismatch {
    pub expected: usize,
    pub actual: usize,
}

/// Error of adding two grids whose shapes differ.
#[derive(Debug, Clone, Copy, PartialEq, Eq, Structural)]
pub struct ShapeMismatch {
    pub left_rows: usize,
    pub left_cols: usize,
    pub right_rows: usize,
    pub right_cols: usize,
}

impl View for Sandpile {
    type V = GridV;

    closed spec fn view(&self) -> GridV {
        GridV {
            rows: self.rows as int,
            cols: self.cols as int,
            cells: self.data@.map_values(|x: i64| x as int),
        }
    }
}

/// Mathematical value of a job list: the listed coordinates as integers.
pub open spec fn jobs(q: Seq<(usize, usize)>) -> Seq<(int, int)> {
    q.map_values(|p: (usize, usize)| (p.0 as int, p.1 as int))
}

/// A flat list of heights as the cell sequence it denotes.
pub open spec fn heights_view(d: Seq<i64>) -> Seq<int> {
    d.map_values(|x: i64| x as int)
}

/// Cell-wise sum of two equally long cell sequences.
pub open spec fn sum_cells(a: Seq<int>, b: Seq<int>) -> Seq<int> {
    Seq::new(a.len(), |k: int| a[k] + b[k])
}

/// A vector of `n` zero heights.
fn zero_heights(n: usize) -> (v: Vec<i64>)
    ensures
        v@.len() == n,
        forall|k: int| 0 <= k < n ==> v@[k] == 0i64,
{
    let mut v: Vec<i64> = Vec::new();
    while v.len() < n
        invariant
            v@.len() <= n,
            forall|k: int| 0 <= k < v@.len() ==> v@[k] == 0i64,
        decreases n - v@.len(),
    {
        v.push(0);
    }
    v
}

impl Sandpile {
    /// The grid is well-formed: dimensions are positive and the data holds
    /// exactly one entry per cell.
    pub open spec fn wf(&self) -> bool {
        model::wf(self@)
    }

    /// Loads a grid from a flat, row-major list of heights without
    /// stabilizing it. Fails exactly when the list does not hold one value
    /// per cell.
    pub fn from_heights(cols: usize, rows: usize, heights: Vec<i64>) -> (result: Result<
        Sandpile,
        DataLengthMismatch,
    >)
        requires
            rows >= 1,
            cols >= 1,
            rows * cols <= usize::MAX,
        ensures
            result is Ok <==> heights@.len() == rows * cols,
            match result {
                Ok(s) => {
                    &&& s.wf()
                    &&& s@.rows == rows
                    &&& s@.cols == cols
                    &&& s@.cells == heights_view(heights@)
                },
                Err(e) => {
                    &&& heights@.len() != rows * cols
                    &&& e.expected == rows * cols
                    &&& e.actual == heights@.len()
                },
            },
    {
        let expected = rows * cols;
        if heights.len() != expected {
            Err(DataLengthMismatch { expected, actual: heights.len() })
        } else {
            Ok(Sandpile { cols, rows, data: heights })
        }
    }

    /// Shapes agree, so the two grids may be added cell-wise.
    pub fn is_add_compatible(&self, other: &Sandpile) -> (r: bool)
        ensures
            r == (self@.rows == other@.rows && self@.cols == other@.cols),
    {
        self.rows == other.rows && self.cols == other.cols
    }

    /// Number of rows.
    pub fn row_count(&self) -> (r: usize)
        ensures
            r == self@.rows,
    {
        self.rows
    }

    /// Number of columns.
    pub fn col_count(&self) -> (r: usize)
        ensures
            r == self@.cols,
    {
        self.cols
    }

    /// Height of the cell at the given row and column.
    pub fn height_at(&self, row: usize, col: usize) -> (h: i64)
        requires
            self.wf(),
            model::in_bounds(self@, row as int, col as int),
        ensures
            h as int == model::cell(self@, row as int, col as int),
    {
        let n = self.data.len();
        proof {
            model::lemma_flat_range(self@, row as int, col as int);
            assert((row as int) * (self.cols as int) + (col as int) < n as int);
        }
        self.data[row * self.cols + col]
    }
}

impl Sandpile {
    /// Coordinates of every unstable cell (height above 3), in row-major
    /// order: the job list of one discovery scan.
    pub fn get_job_queue(&self) -> (q: Vec<(usize, usize)>)
        requires
            self.wf(),
        ensures
            forall|m: int|
                0 <= m < q@.len() ==> model::in_bounds(self@, q@[m].0 as int, q@[m].1 as int)
                    && model::cell(self@, q@[m].0 as int, q@[m].1 as int) > 3,
            forall|m1: int, m2: int|
                0 <= m1 < m2 < q@.len() ==> model::flat(self@, q@[m1].0 as int, q@[m1].1 as int)
                    < model::flat(self@, q@[m2].0 as int, q@[m2].1 as int),
            forall|pi: usize, pj: usize|
                model::in_bounds(self@, pi as int, pj as int) && model::cell(
                    self@,
                    pi as int,
                    pj as int,
                ) > 3 ==> q@.contains((pi, pj)),
    {
        let ghost g = self@;
        let mut q: Vec<(usize, usize)> = Vec::new();
        let n = self.data.len();
        let mut k: usize = 0;
        while k < n
            invariant
                self.wf(),
                g == self@,
                n == self.data@.len(),
                k <= n,
                forall|m: int|
                    0 <= m < q@.len() ==> model::in_bounds(g, q@[m].0 as int, q@[m].1 as int)
                        && model::cell(g, q@[m].0 as int, q@[m].1 as int) > 3 && model::flat(
                        g,
                        q@[m].0 as int,
                        q@[m].1 as int,
                    ) < k,
                forall|m1: int, m2: int|
                    0 <= m1 < m2 < q@.len() ==> model::flat(g, q@[m1].0 as int, q@[m1].1 as int)
                        < model::flat(g, q@[m2].0 as int, q@[m2].1 as int),
                forall|pi: usize, pj: usize|
                    model::in_bounds(g, pi as int, pj as int) && model::flat(
                        g,
                        pi as int,
                        pj as int,
                    ) < k && model::cell(g, pi as int, pj as int) > 3 ==> q@.contains((pi, pj)),
            decreases n - k,
        {
            if self.data[k] > 3 {
                let pi = k / self.cols;
                let pj = k % self.cols;
                let ghost q0 = q@;
                proof {
                    model::lemma_flat_coords(g, k as int);
                }
                q.push((pi, pj));
                proof {
                    let e = (pi, pj);
                    assert(q@ == q0.push(e));
                    assert(model::in_bounds(g, pi as int, pj as int));
                    assert(model::flat(g, pi as int, pj as int) == k as int);
                    assert(model::cell(g, pi as int, pj as int) > 3);
                    assert forall|m1: int, m2: int| 0 <= m1 < m2 < q@.len() implies model::flat(
                        g,
                        q@[m1].0 as int,
                        q@[m1].1 as int,
                    ) < model::flat(g, q@[m2].0 as int, q@[m2].1 as int) by {
                        if m2 < q@.len() - 1 {
                            assert(q@[m1] == q0[m1] && q@[m2] == q0[m2]);
                        } else {
                            assert(q@[m2] == e);
                            assert(q@[m1] == q0[m1]);
                        }
                    }
                    assert forall|qi: usize, qj: usize|
                        model::in_bounds(g, qi as int, qj as int) && model::flat(
                            g,
                            qi as int,
                            qj as int,
                        ) < k + 1 && model::cell(g, qi as int, qj as int) > 3 implies q@.contains(
                        (qi, qj),
                    ) by {
                        if model::flat(g, qi as int, qj as int) < k {
                            assert(q0.contains((qi, qj)));
                            let idx = choose|idx: int|
                                0 <= idx < q0.len() && q0[idx] == (qi, qj);
                            assert(q@[idx] == (qi, qj));
                        } else {
                            model::lemma_flat_injective(g, qi as int, qj as int, pi as int,
                                pj as int);
                            assert(q@[q@.len() - 1] == (qi, qj));
                        }
                    }
                }
            }
            k += 1;
        }
        proof {
            assert forall|pi: usize, pj: usize|
                model::in_bounds(g, pi as int, pj as int) && model::cell(g, pi as int, pj as int)
                    > 3 implies q@.contains((pi, pj)) by {
                model::lemma_flat_range(g, pi as int, pj as int);
            }
        }
        q
    }
}

/// Updating one stored height updates the denoted cell sequence pointwise.
proof fn lemma_view_update(v: Seq<i64>, k: int, x: i64)
    requires
        0 <= k < v.len(),
    ensures
        heights_view(v.update(k, x)) =~= heights_view(v).update(k, x as int),
{
}

/// Adds one unit to the stored height at flat index `k`.
fn bump(v: &mut Vec<i64>, k: usize)
    requires
        k < old(v)@.len(),
        old(v)@[k as int] < i64::MAX,
    ensures
        heights_view(final(v)@) == heights_view(old(v)@).update(
            k as int,
            heights_view(old(v)@)[k as int] + 1,
        ),
        final(v)@.len() == old(v)@.len(),
{
    let x = v[k];
    let y = x + 1;
    v[k] = y;
    proof {
        lemma_view_update(old(v)@, k as int, y);
    }
}

/// Removes four units from the stored height at flat index `k`.
fn drop_four(v: &mut Vec<i64>, k: usize)
    requires
        k < old(v)@.len(),
        old(v)@[k as int] >= 4,
    ensures
        heights_view(final(v)@) == heights_view(old(v)@).update(
            k as int,
            heights_view(old(v)@)[k as int] - 4,
        ),
        final(v)@.len() == old(v)@.len(),
{
    let x = v[k];
    let y = x - 4;
    v[k] = y;
    proof {
        lemma_view_update(old(v)@, k as int, y);
    }
}

impl Sandpile {
    /// One topple pass: fires every listed cell once, in order. The list
    /// must be legal (each cell in bounds and above the threshold at its
    /// turn), as the lists produced by discovery scans are.
    pub fn topple_pass(self, job_queue: Vec<(usize, usize)>) -> (r: Sandpile)
        requires
            self.wf(),
            model::valid_topples(self@, jobs(job_queue@)),
            model::clip_total(self@.cells) < i64::MAX,
        ensures
            r@ == model::run(self@, jobs(job_queue@)),
            r.wf(),
            r@.rows == self@.rows,
            r@.cols == self@.cols,
            model::clip_total(r@.cells) <= model::clip_total(self@.cells),
    {
        let ghost orig = self@;
        let ghost js = jobs(job_queue@);
        let mut g = self;
        let len = job_queue.len();
        let mut n: usize = 0;
        proof {
            assert(js.skip(0) =~= js);
        }
        while n < len
            invariant
                len == job_queue@.len(),
                n <= len,
                js == jobs(job_queue@),
                model::wf(g@),
                g@.rows == orig.rows,
                g@.cols == orig.cols,
                model::wf(orig),
                model::valid_topples(g@, js.skip(n as int)),
                model::run(g@, js.skip(n as int)) == model::run(orig, js),
                model::clip_total(g@.cells) <= model::clip_total(orig.cells),
                model::clip_total(orig.cells) < i64::MAX,
            decreases len - n,
        {
            let (pi, pj) = job_queue[n];
            let ghost gv = g@;
            let ghost rest = js.skip(n as int);
            let ghost ii = pi as int;
            let ghost jj = pj as int;
            let ghost ct0 = model::clip_total(gv.cells);
            proof {
                assert(js[n as int] == (ii, jj));
                assert(rest[0] == (ii, jj));
                assert(model::in_bounds(gv, ii, jj));
                assert(model::cell(gv, ii, jj) > 3);
                model::lemma_flat_range(gv, ii, jj);
            }
            let cols = g.cols;
            let ndata = g.data.len();
            proof {
                assert((pi as int) * (cols as int) + (pj as int) < ndata as int);
            }
            let k = pi * cols + pj;
            let ghost kk = k as int;
            let ghost c0 = gv.cells;
            proof {
                assert(kk == model::flat(gv, ii, jj));
                assert(c0[kk] >= 4);
                assert(g.data@[kk] >= 4);
            }
            drop_four(&mut g.data, k);
            let ghost c1 = c0.update(kk, c0[kk] - 4);
            proof {
                assert(g@.cells == c1);
                model::lemma_clip_total_update(c0, kk, c0[kk] - 4);
                assert(model::clip_total(c1) == ct0 - 4);
            }
            let ghost c2 = if ii > 0 {
                c1.update(kk - cols as int, c1[kk - cols as int] + 1)
            } else {
                c1
            };
            if pi > 0 {
                proof {
                    model::lemma_flat_range(gv, ii - 1, jj);
                    assert((ii - 1) * (cols as int) + jj == kk - cols as int) by (nonlinear_arith)
                        requires
                            kk == ii * (cols as int) + jj,
                    ;
                    assert(model::flat(gv, ii - 1, jj) == kk - cols as int);
                    assert(0 <= kk - (cols as int) && kk - (cols as int) < c1.len());
                    model::lemma_cell_le_clip_total(c1, kk - cols as int);
                    assert(g.data@[kk - cols as int] < i64::MAX);
                }
                bump(&mut g.data, k - cols);
                proof {
                    assert(g@.cells == c2);
                    model::lemma_clip_total_update(c1, kk - cols as int, c1[kk - cols as int] + 1);
                }
            }
            proof {
                assert(g@.cells == c2);
                assert(model::clip_total(c2) <= ct0 - 3);
            }
            let ghost c3 = if ii < gv.rows - 1 {
                c2.update(kk + cols as int, c2[kk + cols as int] + 1)
            } else {
                c2
            };
            if pi + 1 < g.rows {
                proof {
                    model::lemma_flat_range(gv, ii + 1, jj);
                    assert((ii + 1) * (cols as int) + jj == kk + cols as int) by (nonlinear_arith)
                        requires
                            kk == ii * (cols as int) + jj,
                    ;
                    assert(model::flat(gv, ii + 1, jj) == kk + cols as int);
                    assert(0 <= kk + (cols as int) && kk + (cols as int) < c2.len());
                    model::lemma_cell_le_clip_total(c2, kk + cols as int);
                    assert(g.data@[kk + cols as int] < i64::MAX);
                }
                bump(&mut g.data, k + cols);
                proof {
                    assert(g@.cells == c3);
                    model::lemma_clip_total_update(c2, kk + cols as int, c2[kk + cols as int] + 1);
                }
            }
            proof {
                assert(g@.cells == c3);
                assert(model::clip_total(c3) <= ct0 - 2);
            }
            let ghost c4 = if jj > 0 {
                c3.update(kk - 1, c3[kk - 1] + 1)
            } else {
                c3
            };
            if pj > 0 {
                proof {
                    assert(model::flat(gv, ii, jj - 1) == kk - 1);
                    assert(0 <= kk - 1 < c3.len());
                    model::lemma_cell_le_clip_total(c3, kk - 1);
                    assert(g.data@[kk - 1] < i64::MAX);
                }
                bump(&mut g.data, k - 1);
                proof {
                    assert(g@.cells == c4);
                    model::lemma_clip_total_update(c3, kk - 1, c3[kk - 1] + 1);
                }
            }
            proof {
                assert(g@.cells == c4);
                assert(model::clip_total(c4) <= ct0 - 1);
            }
            let ghost c5 = if jj < gv.cols - 1 {
                c4.update(kk + 1, c4[kk + 1] + 1)
            } else {
                c4
            };
            if pj + 1 < cols {
                proof {
                    model::lemma_flat_range(gv, ii, jj + 1);
                    assert(model::flat(gv, ii, jj + 1) == kk + 1);
                    assert(0 <= kk + 1 < c4.len());
                    model::lemma_cell_le_clip_total(c4, kk + 1);
                    assert(g.data@[kk + 1] < i64::MAX);
                }
                bump(&mut g.data, k + 1);
                proof {
                    assert(g@.cells == c5);
                    model::lemma_clip_total_update(c4, kk + 1, c4[kk + 1] + 1);
                }
            }
            proof {
                assert(g@.cells == c5);
                assert(model::clip_total(c5) <= ct0);
                let t = model::topple(gv, ii, jj);
                assert(g@.cells =~= t.cells);
                assert(g@ =~= t);
                assert(rest.drop_first() =~= js.skip(n as int + 1));
                assert(model::run(gv, rest) == model::run(t, rest.drop_first()));
                model::lemma_topple_pointwise(gv, ii, jj);
            }
            n += 1;
        }
        proof {
            assert(js.skip(len as int) =~= Seq::<(int, int)>::empty());
            assert(model::run(g@, js.skip(len as int)) == g@);
        }
        g
    }
}

impl Sandpile {
    /// Drives the grid to the stable configuration reachable by legal
    /// firings: repeatedly discovers every unstable cell and fires each
    /// once, until none remains. A grid that is already stable is returned
    /// unchanged. Terminates because every firing strictly decreases the
    /// weighted positive mass `model::phi`.
    pub fn stabilize(self) -> (r: Sandpile)
        requires
            self.wf(),
            model::clip_total(self@.cells) < i64::MAX,
        ensures
            r.wf(),
            r@.rows == self@.rows,
            r@.cols == self@.cols,
            model::stable(r@),
            model::stabilizes_to(self@, r@),
            model::clip_total(r@.cells) <= model::clip_total(self@.cells),
            model::stable(self@) ==> r@ == self@,
    {
        let ghost orig = self@;
        let mut g = self;
        let ghost mut acc: Seq<(int, int)> = Seq::empty();
        let mut queue = g.get_job_queue();
        while queue.len() > 0
            invariant
                model::wf(g@),
                g@.rows == orig.rows,
                g@.cols == orig.cols,
                model::wf(orig),
                model::valid_topples(orig, acc),
                model::run(orig, acc) == g@,
                model::clip_total(g@.cells) <= model::clip_total(orig.cells),
                model::clip_total(orig.cells) < i64::MAX,
                forall|m: int|
                    0 <= m < queue@.len() ==> model::in_bounds(
                        g@,
                        queue@[m].0 as int,
                        queue@[m].1 as int,
                    ) && model::cell(g@, queue@[m].0 as int, queue@[m].1 as int) > 3,
                forall|m1: int, m2: int|
                    0 <= m1 < m2 < queue@.len() ==> model::flat(
                        g@,
                        queue@[m1].0 as int,
                        queue@[m1].1 as int,
                    ) < model::flat(g@, queue@[m2].0 as int, queue@[m2].1 as int),
                forall|pi: usize, pj: usize|
                    model::in_bounds(g@, pi as int, pj as int) && model::cell(
                        g@,
                        pi as int,
                        pj as int,
                    ) > 3 ==> queue@.contains((pi, pj)),
            decreases model::phi(g@),
        {
            let ghost pre = g@;
            let ghost qs = jobs(queue@);
            proof {
                assert(qs.len() == queue@.len());
                assert forall|m: int|
                    0 <= m < qs.len() implies model::in_bounds(pre, qs[m].0, qs[m].1)
                    && model::cell(pre, qs[m].0, qs[m].1) > 3 by {
                    assert(qs[m] == (queue@[m].0 as int, queue@[m].1 as int));
                }
                assert forall|m1: int, m2: int| 0 <= m1 < m2 < qs.len() implies qs[m1]
                    != qs[m2] by {
                    assert(qs[m1] == (queue@[m1].0 as int, queue@[m1].1 as int));
                    assert(qs[m2] == (queue@[m2].0 as int, queue@[m2].1 as int));
                    assert(model::flat(pre, qs[m1].0, qs[m1].1) < model::flat(
                        pre,
                        qs[m2].0,
                        qs[m2].1,
                    ));
                }
                model::lemma_distinct_unstable_valid(pre, qs);
                model::lemma_phi_nonneg(pre);
            }
            g = g.topple_pass(queue);
            proof {
                model::lemma_run_phi(pre, qs);
                model::lemma_phi_nonneg(g@);
                model::lemma_run_concat(orig, acc, qs);
                acc = acc + qs;
            }
            queue = g.get_job_queue();
        }
        proof {
            assert forall|k: int| 0 <= k < g@.cells.len() implies g@.cells[k] < 4 by {
                model::lemma_flat_coords(g@, k);
                let pi = ((k / g@.cols) as usize);
                let pj = ((k % g@.cols) as usize);
                if g@.cells[k] > 3 {
                    assert(model::cell(g@, pi as int, pj as int) > 3);
                    assert(queue@.contains((pi, pj)));
                    let idx = choose|idx: int| 0 <= idx < queue@.len() && queue@[idx] == (pi, pj);
                    assert(false);
                }
            }
            assert(model::stable(g@));
            assert(model::valid_topples(orig, acc) && model::run(orig, acc) == g@
                && model::stable(g@));
            assert(model::stabilizes_to(orig, g@));
            if model::stable(orig) {
                model::lemma_stable_run_is_identity(orig, acc);
            }
        }
        g
    }

    /// Builds a grid: with no data, the all-zero (hence stable) grid of the
    /// given shape; with a flat row-major list of heights, the grid loaded
    /// from it and then stabilized. Fails exactly when a list is given whose
    /// length is not `rows * cols`.
    pub fn new(cols: usize, rows: usize, data: Option<Vec<i64>>) -> (result: Result<
        Sandpile,
        DataLengthMismatch,
    >)
        requires
            rows >= 1,
            cols >= 1,
            rows * cols <= usize::MAX,
            match data {
                Option::Some(d) => d@.len() == rows * cols ==> model::clip_total(heights_view(d@))
                    < i64::MAX,
                Option::None => true,
            },
        ensures
            result is Ok <==> (data is None || (data matches Some(d) && d@.len() == rows * cols)),
            match result {
                Ok(s) => {
                    &&& s.wf()
                    &&& s@.rows == rows
                    &&& s@.cols == cols
                    &&& model::stable(s@)
                    &&& (data matches Some(d) ==> model::clip_total(s@.cells)
                        <= model::clip_total(heights_view(d@)))
                    &&& match data {
                        Option::None => forall|k: int| 0 <= k < s@.cells.len() ==> s@.cells[k] == 0,
                        Option::Some(d) => model::stabilizes_to(
                            (GridV { rows: rows as int, cols: cols as int, cells: heights_view(d@) }),
                            s@,
                        ),
                    }
                },
                Err(e) => {
                    &&& data matches Some(d) && d@.len() != rows * cols && e.actual == d@.len()
                    &&& e.expected == rows * cols
                },
            },
    {
        match data {
            None => {
                let s = Sandpile { cols, rows, data: zero_heights(rows * cols) };
                proof {
                    assert(forall|k: int| 0 <= k < s@.cells.len() ==> s@.cells[k] == 0);
                }
                Ok(s)
            },
            Some(d) => {
                match Self::from_heights(cols, rows, d) {
                    Ok(s) => {
                        let ghost loaded = s@;
                        let r = s.stabilize();
                        proof {
                            assert(loaded == GridV {
                                rows: rows as int,
                                cols: cols as int,
                                cells: heights_view(d@),
                            });
                        }
                        Ok(r)
                    },
                    Err(e) => Err(e),
                }
            },
        }
    }

    /// Cell-wise sum of two equally shaped grids, stabilized. Fails exactly
    /// when the shapes differ.
    pub fn add(self, other: Sandpile) -> (result: Result<Sandpile, ShapeMismatch>)
        requires
            self.wf(),
            other.wf(),
            (self@.rows == other@.rows && self@.cols == other@.cols) ==> {
                &&& forall|k: int|
                    0 <= k < self@.cells.len() ==> self@.cells[k] + other@.cells[k] >= i64::MIN
                &&& model::clip_total(sum_cells(self@.cells, other@.cells)) < i64::MAX
            },
        ensures
            result is Ok <==> (self@.rows == other@.rows && self@.cols == other@.cols),
            match result {
                Ok(r) => {
                    &&& r.wf()
                    &&& r@.rows == self@.rows
                    &&& r@.cols == self@.cols
                    &&& model::stable(r@)
                    &&& model::clip_total(r@.cells) <= model::clip_total(
                        sum_cells(self@.cells, other@.cells),
                    )
                    &&& model::stabilizes_to(
                        (GridV {
                            rows: self@.rows,
                            cols: self@.cols,
                            cells: sum_cells(self@.cells, other@.cells),
                        }),
                        r@,
                    )
                },
                Err(e) => {
                    &&& !(self@.rows == other@.rows && self@.cols == other@.cols)
                    &&& e.left_rows == self@.rows
                    &&& e.left_cols == self@.cols
                    &&& e.right_rows == other@.rows
                    &&& e.right_cols == other@.cols
                },
            },
    {
        if !self.is_add_compatible(&other) {
            return Err(
                ShapeMismatch {
                    left_rows: self.rows,
                    left_cols: self.cols,
                    right_rows: other.rows,
                    right_cols: other.cols,
                },
            );
        }
        let ghost sc = sum_cells(self@.cells, other@.cells);
        let n = self.data.len();
        let mut v: Vec<i64> = Vec::new();
        let mut k: usize = 0;
        while k < n
            invariant
                n == self.data@.len(),
                n == other.data@.len(),
                self@.cells.len() == n,
                sc == sum_cells(self@.cells, other@.cells),
                model::clip_total(sc) < i64::MAX,
                forall|m: int|
                    0 <= m < self@.cells.len() ==> self@.cells[m] + other@.cells[m] >= i64::MIN,
                k <= n,
                v@.len() == k,
                forall|m: int| 0 <= m < k ==> v@[m] as int == sc[m],
            decreases n - k,
        {
            let a = self.data[k];
            let b = other.data[k];
            proof {
                assert(a as int == self@.cells[k as int]);
                assert(b as int == other@.cells[k as int]);
                assert(sc[k as int] == a as int + b as int);
                model::lemma_cell_le_clip_total(sc, k as int);
            }
            v.push(a + b);
            k += 1;
        }
        let s = Sandpile { cols: self.cols, rows: self.rows, data: v };
        proof {
            assert(s@.cells =~= sc);
            assert(s@ == GridV { rows: self@.rows, cols: self@.cols, cells: sc });
        }
        Ok(s.stabilize())
    }
}

impl Default for Sandpile {
    /// The default grid: 3 by 3, all heights zero, already stable.
    fn default() -> (d: Sandpile)
        ensures
            d.wf(),
            d@.rows == 3,
            d@.cols == 3,
            forall|k: int| 0 <= k < d@.cells.len() ==> d@.cells[k] == 0,
            model::stable(d@),
    {
        Sandpile { cols: 3, rows: 3, data: zero_heights(9) }
    }
}

impl PartialEq for Sandpile {
    /// Structural equality: same shape and the same height in every cell.
    fn eq(&self, other: &Sandpile) -> (r: bool)
    {
        if self.rows != other.rows || self.cols != other.cols || self.data.len()
            != other.data.len() {
            proof {
                if self@ == other@ {
                    assert(self@.rows == other@.rows);
                    assert(self@.cols == other@.cols);
                    assert(self@.cells.len() == other@.cells.len());
                }
            }
            return false;
        }
        let n = self.data.len();
        let mut k: usize = 0;
        while k < n
            invariant
                n == self.data@.len(),
                n == other.data@.len(),
                k <= n,
                forall|m: int| 0 <= m < k ==> self.data@[m] == other.data@[m],
            decreases n - k,
        {
            if self.data[k] != other.data[k] {
                assert(self@.cells[k as int] != other@.cells[k as int]);
                return false;
            }
            k += 1;
        }
        proof {
            assert(self@.cells =~= other@.cells);
            assert(self@ =~= other@);
        }
        true
    }
}

impl vstd::std_specs::cmp::PartialEqSpecImpl for Sandpile {
    open spec fn obeys_eq_spec() -> bool {
        true
    }

    open spec fn eq_spec(&self, other: &Sandpile) -> bool {
        self@ == other@
    }
}

} // verus!
