//! The general laws of the sandpile automaton, stated and proved over the
//! mathematical model. The executable operations' contracts are phrased with
//! `model::stabilizes_to` and `model::run`, so these laws apply directly to
//! their results.

use vstd::prelude::*;

use crate::model;
use crate::model::GridV;

verus! {

/// The abelian property: whatever legal firing order drives a grid to a
/// stable configuration, the configuration reached is the same. Together
/// with the stabilization engine's contract this pins its result down
/// uniquely.
pub proof fn lemma_stabilization_unique(g: GridV, r1: GridV, r2: GridV)
    requires
        model::wf(g),
        model::stabilizes_to(g, r1),
        model::stabilizes_to(g, r2),
    ensures
        r1 == r2,
{
    let s1 = choose|s1: Seq<(int, int)>|
        model::valid_topples(g, s1) && model::run(g, s1) == r1 && model::stable(r1);
    let s2 = choose|s2: Seq<(int, int)>|
        model::valid_topples(g, s2) && model::run(g, s2) == r2 && model::stable(r2);
    model::lemma_run_unique(g, s1, s2);
}

/// Stabilizing is idempotent: a grid that one stabilization produced can
/// only stabilize to itself, since no cell of a stable grid may legally
/// fire.
pub proof fn lemma_stabilize_idempotent(g: GridV, r1: GridV, r2: GridV)
    requires
        model::wf(g),
        model::stabilizes_to(g, r1),
        model::stabilizes_to(r1, r2),
    ensures
        r2 == r1,
{
    let s1 = choose|s1: Seq<(int, int)>|
        model::valid_topples(g, s1) && model::run(g, s1) == r1 && model::stable(r1);
    model::lemma_valid_in_bounds(g, s1);
    model::lemma_run_wf(g, s1);
    let s2 = choose|s2: Seq<(int, int)>|
        model::valid_topples(r1, s2) && model::run(r1, s2) == r2 && model::stable(r2);
    model::lemma_stable_run_is_identity(r1, s2);
}

/// A stable grid stabilizes only to itself.
pub proof fn lemma_stabilize_of_stable(g: GridV, r: GridV)
    requires
        model::wf(g),
        model::stable(g),
        model::stabilizes_to(g, r),
    ensures
        r == g,
{
    let s = choose|s: Seq<(int, int)>|
        model::valid_topples(g, s) && model::run(g, s) == r && model::stable(r);
    model::lemma_stable_run_is_identity(g, s);
}

/// Order independence of a topple pass: firing the same multiset of cells,
/// in any order, yields the same grid — so two passes over permuted job
/// lists leave nothing for later passes to tell apart, and the final stable
/// grid is the same.
pub proof fn lemma_pass_order_independent(g: GridV, s1: Seq<(int, int)>, s2: Seq<(int, int)>)
    requires
        model::wf(g),
        model::jobs_in_bounds(g, s1),
        s1.to_multiset() == s2.to_multiset(),
    ensures
        model::run(g, s1) == model::run(g, s2),
{
    model::lemma_run_permutation(g, s1, s2);
}

/// Mass accounting: firing the listed cells removes from the total height
/// exactly the units spilled past the boundary — 0 per interior firing,
/// 1 per edge firing, 2 per corner firing. In particular interior firings
/// conserve total height.
pub proof fn lemma_mass_conservation(g: GridV, s: Seq<(int, int)>)
    requires
        model::wf(g),
        model::jobs_in_bounds(g, s),
    ensures
        model::total(model::run(g, s).cells) == model::total(g.cells) - model::spill_total(g, s),
{
    model::lemma_run_total(g, s);
}

/// The per-firing losses by position, on grids with at least two rows and
/// two columns: an interior firing spills nothing, an edge firing one unit,
/// a corner firing two.
pub proof fn lemma_spill_by_position(g: GridV, i: int, j: int)
    requires
        model::wf(g),
        model::in_bounds(g, i, j),
        g.rows >= 2,
        g.cols >= 2,
    ensures
        (0 < i < g.rows - 1 && 0 < j < g.cols - 1) ==> model::spill(g, i, j) == 0,
        ((i == 0 || i == g.rows - 1) && (j == 0 || j == g.cols - 1)) ==> model::spill(g, i, j)
            == 2,
        ((0 < i < g.rows - 1) != (0 < j < g.cols - 1)) ==> model::spill(g, i, j) == 1,
{
}

/// A grid reached by stabilization carries the total height of the starting
/// grid minus the spill of some legal firing sequence.
pub proof fn lemma_stabilization_mass(g: GridV, r: GridV)
    requires
        model::wf(g),
        model::stabilizes_to(g, r),
    ensures
        exists|s: Seq<(int, int)>|
            model::valid_topples(g, s) && model::total(r.cells) == model::total(g.cells)
                - model::spill_total(g, s),
{
    let s = choose|s: Seq<(int, int)>|
        model::valid_topples(g, s) && model::run(g, s) == r && model::stable(r);
    model::lemma_valid_in_bounds(g, s);
    model::lemma_run_total(g, s);
}

} // verus!
