//! Termination of toppling on the finite topology: a strictly
//! superharmonic weight assigns every grid a non-negative potential
//! that each toppling lowers, so every finite grid stabilizes.
use vstd::prelude::*;
use crate::model::{
    Cells, GridType, bump, can_fire, credit, dec4, fire, finite_targets, grids_stabilize,
    in_bounds, lemma_fire, lemma_targets, nonneg, reaches, rect, sink_ok, stabilizable,
    stabilizes_to, stable, targets,
};

verus! {

/// One-dimensional weight along an axis of length `n`: a concave
/// parabola lifted high enough that no boundary cell outweighs twice
/// its neighbour.
pub open spec fn hwt(n: int, i: int) -> int {
    2 * n + i * (2 * n - i)
}

/// The weight of cell `(i,j)` on an `r` by `c` finite grid.
pub open spec fn wcell(r: int, c: int, i: int, j: int) -> int {
    hwt(r, i) * hwt(c, j)
}

spec fn wphi_row(s: Seq<int>, r: int, c: int, i: int, j: int) -> int
    decreases s.len(),
{
    if s.len() == 0 {
        0
    } else {
        wcell(r, c, i, j) * s[0] + wphi_row(s.drop_first(), r, c, i, j + 1)
    }
}

spec fn wphi_rows(g: Cells, r: int, c: int, i: int) -> int
    decreases g.len(),
{
    if g.len() == 0 {
        0
    } else {
        wphi_row(g[0], r, c, i, 0) + wphi_rows(g.drop_first(), r, c, i + 1)
    }
}

/// The weighted chip total of the grid.
spec fn wphi(g: Cells, r: int, c: int) -> int {
    wphi_rows(g, r, c, 0)
}

/// Total weight of a list of cells.
spec fn wsum(ts: Seq<(int, int)>, r: int, c: int) -> int
    decreases ts.len(),
{
    if ts.len() == 0 {
        0
    } else {
        wcell(r, c, ts[0].0, ts[0].1) + wsum(ts.drop_first(), r, c)
    }
}

proof fn lemma_hwt_pos(n: int, i: int)
    requires
        n >= 1,
        0 <= i < n,
    ensures
        hwt(n, i) >= 2,
{
    assert(i * (2 * n - i) >= 0) by (nonlinear_arith)
        requires
            0 <= i,
            i < 2 * n,
    ;
}

proof fn lemma_wcell_pos(r: int, c: int, i: int, j: int)
    requires
        r >= 1,
        c >= 1,
        0 <= i < r,
        0 <= j < c,
    ensures
        wcell(r, c, i, j) >= 4,
{
    lemma_hwt_pos(r, i);
    lemma_hwt_pos(c, j);
    assert(hwt(r, i) * hwt(c, j) >= 4) by (nonlinear_arith)
        requires
            hwt(r, i) >= 2,
            hwt(c, j) >= 2,
    ;
}

proof fn lemma_wphi_row_update(s: Seq<int>, r: int, c: int, i: int, j: int, k: int, v: int)
    requires
        0 <= k < s.len(),
    ensures
        wphi_row(s.update(k, v), r, c, i, j) == wphi_row(s, r, c, i, j) + wcell(r, c, i, j + k) * (
        v - s[k]),
    decreases s.len(),
{
    if k == 0 {
        assert(s.update(0, v).drop_first() =~= s.drop_first());
        assert(wcell(r, c, i, j) * v == wcell(r, c, i, j) * s[0] + wcell(r, c, i, j) * (v - s[0]))
            by (nonlinear_arith);
    } else {
        assert(s.update(k, v).drop_first() =~= s.drop_first().update(k - 1, v));
        lemma_wphi_row_update(s.drop_first(), r, c, i, j + 1, k - 1, v);
    }
}

proof fn lemma_wphi_rows_update(g: Cells, r: int, c: int, i: int, m: int, row: Seq<int>)
    requires
        0 <= m < g.len(),
    ensures
        wphi_rows(g.update(m, row), r, c, i) == wphi_rows(g, r, c, i) - wphi_row(
            g[m],
            r,
            c,
            i + m,
            0,
        ) + wphi_row(row, r, c, i + m, 0),
    decreases g.len(),
{
    if m == 0 {
        assert(g.update(0, row).drop_first() =~= g.drop_first());
    } else {
        assert(g.update(m, row).drop_first() =~= g.drop_first().update(m - 1, row));
        lemma_wphi_rows_update(g.drop_first(), r, c, i + 1, m - 1, row);
    }
}

proof fn lemma_wphi_bump(g: Cells, r: int, c: int, p: (int, int))
    requires
        rect(g),
        g.len() == r,
        g[0].len() == c,
        in_bounds(g, p.0, p.1),
    ensures
        wphi(bump(g, p), r, c) == wphi(g, r, c) + wcell(r, c, p.0, p.1),
{
    assert(g[p.0].len() == g[0].len());
    lemma_wphi_row_update(g[p.0], r, c, p.0, 0, p.1, g[p.0][p.1] + 1);
    lemma_wphi_rows_update(g, r, c, 0, p.0, g[p.0].update(p.1, g[p.0][p.1] + 1));
    assert(wcell(r, c, p.0, p.1) * (g[p.0][p.1] + 1 - g[p.0][p.1]) == wcell(r, c, p.0, p.1))
        by (nonlinear_arith);
}

proof fn lemma_wphi_dec4(g: Cells, r: int, c: int, i: int, j: int)
    requires
        rect(g),
        g.len() == r,
        g[0].len() == c,
        in_bounds(g, i, j),
    ensures
        wphi(dec4(g, i, j), r, c) == wphi(g, r, c) - 4 * wcell(r, c, i, j),
{
    assert(g[i].len() == g[0].len());
    lemma_wphi_row_update(g[i], r, c, i, 0, j, g[i][j] - 4);
    lemma_wphi_rows_update(g, r, c, 0, i, g[i].update(j, g[i][j] - 4));
    assert(wcell(r, c, i, j) * (g[i][j] - 4 - g[i][j]) == -4 * wcell(r, c, i, j))
        by (nonlinear_arith);
}

proof fn lemma_wphi_credit(g: Cells, r: int, c: int, ts: Seq<(int, int)>)
    requires
        rect(g),
        g.len() == r,
        g[0].len() == c,
        forall|k: int| 0 <= k < ts.len() ==> in_bounds(g, (#[trigger] ts[k]).0, ts[k].1),
    ensures
        wphi(credit(g, ts), r, c) == wphi(g, r, c) + wsum(ts, r, c),
    decreases ts.len(),
{
    if ts.len() > 0 {
        lemma_wphi_bump(g, r, c, ts[0]);
        crate::model::lemma_bump(g, ts[0]);
        lemma_wphi_credit(bump(g, ts[0]), r, c, ts.drop_first());
    }
}

proof fn lemma_wphi_row_nonneg(s: Seq<int>, r: int, c: int, i: int, j: int)
    requires
        r >= 1,
        c >= 1,
        0 <= i < r,
        0 <= j,
        j + s.len() <= c,
        forall|b: int| 0 <= b < s.len() ==> #[trigger] s[b] >= 0,
    ensures
        wphi_row(s, r, c, i, j) >= 0,
    decreases s.len(),
{
    if s.len() > 0 {
        lemma_wcell_pos(r, c, i, j);
        assert(wcell(r, c, i, j) * s[0] >= 0) by (nonlinear_arith)
            requires
                wcell(r, c, i, j) >= 0,
                s[0] >= 0,
        ;
        lemma_wphi_row_nonneg(s.drop_first(), r, c, i, j + 1);
    }
}

proof fn lemma_wphi_rows_nonneg(g: Cells, r: int, c: int, i: int)
    requires
        r >= 1,
        c >= 1,
        0 <= i,
        i + g.len() <= r,
        forall|m: int| 0 <= m < g.len() ==> (#[trigger] g[m]).len() == c,
        forall|m: int, b: int| 0 <= m < g.len() && 0 <= b < g[m].len() ==> #[trigger] g[m][b] >= 0,
    ensures
        wphi_rows(g, r, c, i) >= 0,
    decreases g.len(),
{
    if g.len() > 0 {
        lemma_wphi_row_nonneg(g[0], r, c, i, 0);
        assert forall|m: int, b: int|
            0 <= m < g.drop_first().len() && 0 <= b < g.drop_first()[m].len()
            implies #[trigger] g.drop_first()[m][b] >= 0 by {
            assert(g.drop_first()[m] == g[m + 1]);
        }
        lemma_wphi_rows_nonneg(g.drop_first(), r, c, i + 1);
    }
}

/// The weighted total of a non-negative grid is non-negative.
proof fn lemma_wphi_nonneg(g: Cells, r: int, c: int)
    requires
        rect(g),
        nonneg(g),
        g.len() == r,
        g[0].len() == c,
    ensures
        wphi(g, r, c) >= 0,
{
    assert forall|m: int, b: int| 0 <= m < g.len() && 0 <= b < g[m].len()
        implies #[trigger] g[m][b] >= 0 by {
        assert(g[m].len() == g[0].len());
        assert(in_bounds(g, m, b));
    }
    lemma_wphi_rows_nonneg(g, r, c, 0);
}

/// Strict superharmonicity: the targets of any toppling together weigh
/// at least two less than four times the toppling cell.
proof fn lemma_finite_targets_wsum(r: int, c: int, i: int, j: int)
    requires
        r >= 1,
        c >= 1,
        0 <= i < r,
        0 <= j < c,
    ensures
        wsum(finite_targets(r, c, i, j), r, c) <= 4 * wcell(r, c, i, j) - 2,
{
    let ft = finite_targets(r, c, i, j);
    let a = if i > 0 { seq![(i - 1, j)] } else { Seq::<(int, int)>::empty() };
    let b = if j > 0 { seq![(i, j - 1)] } else { Seq::<(int, int)>::empty() };
    let d = if i < r - 1 { seq![(i + 1, j)] } else { Seq::<(int, int)>::empty() };
    let e = if j < c - 1 { seq![(i, j + 1)] } else { Seq::<(int, int)>::empty() };
    lemma_wsum_concat(a + b + d, e, r, c);
    lemma_wsum_concat(a + b, d, r, c);
    lemma_wsum_concat(a, b, r, c);
    lemma_wsum_single((i - 1, j), r, c);
    lemma_wsum_single((i, j - 1), r, c);
    lemma_wsum_single((i + 1, j), r, c);
    lemma_wsum_single((i, j + 1), r, c);
    let aa = hwt(r, i);
    let bb = hwt(c, j);
    let vv = (if i > 0 { hwt(r, i - 1) } else { 0 }) + (if i < r - 1 { hwt(r, i + 1) } else { 0 });
    let vh = (if j > 0 { hwt(c, j - 1) } else { 0 }) + (if j < c - 1 { hwt(c, j + 1) } else { 0 });
    let pieces = (if i > 0 { hwt(r, i - 1) * bb } else { 0 }) + (if j > 0 { aa * hwt(c, j - 1) } else { 0 })
        + (if i < r - 1 { hwt(r, i + 1) * bb } else { 0 }) + (if j < c - 1 { aa * hwt(c, j + 1) } else { 0 });
    assert(wsum(ft, r, c) == pieces);
    assert(pieces == vv * bb + aa * vh) by (nonlinear_arith)
        requires
            pieces == (if i > 0 { hwt(r, i - 1) * bb } else { 0 }) + (if j > 0 { aa * hwt(c, j - 1) } else { 0 })
                + (if i < r - 1 { hwt(r, i + 1) * bb } else { 0 }) + (if j < c - 1 { aa * hwt(c, j + 1) } else { 0 }),
            vv == (if i > 0 { hwt(r, i - 1) } else { 0 }) + (if i < r - 1 { hwt(r, i + 1) } else { 0 }),
            vh == (if j > 0 { hwt(c, j - 1) } else { 0 }) + (if j < c - 1 { hwt(c, j + 1) } else { 0 }),
    ;
    lemma_hwt_axis(r, i);
    lemma_hwt_axis(c, j);
    lemma_hwt_pos(r, i);
    lemma_hwt_pos(c, j);
    assert(vv * bb + aa * vh <= 4 * (aa * bb) - 2) by (nonlinear_arith)
        requires
            vv <= 2 * aa - 1,
            vh <= 2 * bb - 1,
            aa >= 2,
            bb >= 2,
            vv >= 0,
            vh >= 0,
    ;
    assert(4 * (aa * bb) == 4 * wcell(r, c, i, j)) by (nonlinear_arith)
        requires
            aa == hwt(r, i),
            bb == hwt(c, j),
            wcell(r, c, i, j) == hwt(r, i) * hwt(c, j),
    ;
}

/// Along one axis, the weights of the existing neighbours sum to less
/// than twice the cell's own weight.
proof fn lemma_hwt_axis(n: int, i: int)
    requires
        n >= 1,
        0 <= i < n,
    ensures
        (if i > 0 {
            hwt(n, i - 1)
        } else {
            0
        }) + (if i < n - 1 {
            hwt(n, i + 1)
        } else {
            0
        }) <= 2 * hwt(n, i) - 1,
        (if i > 0 {
            hwt(n, i - 1)
        } else {
            0
        }) + (if i < n - 1 {
            hwt(n, i + 1)
        } else {
            0
        }) >= 0,
{
    if i > 0 {
        lemma_hwt_pos(n, i - 1);
    }
    if i < n - 1 {
        lemma_hwt_pos(n, i + 1);
    }
    if i > 0 && i < n - 1 {
        assert(hwt(n, i - 1) + hwt(n, i + 1) == 2 * hwt(n, i) - 2) by (nonlinear_arith);
    } else if i == 0 && i < n - 1 {
        assert(hwt(n, 1) == 2 * hwt(n, 0) - 1) by (nonlinear_arith);
    } else if i > 0 && i == n - 1 {
        assert(hwt(n, n - 2) <= 2 * hwt(n, n - 1) - 1) by (nonlinear_arith)
            requires
                n >= 2,
        ;
    } else {
        lemma_hwt_pos(n, i);
    }
}

proof fn lemma_wsum_single(q: (int, int), r: int, c: int)
    ensures
        wsum(seq![q], r, c) == wcell(r, c, q.0, q.1),
        wsum(Seq::<(int, int)>::empty(), r, c) == 0,
{
    assert(wsum(Seq::<(int, int)>::empty(), r, c) == 0) by {
        reveal_with_fuel(wsum, 1);
    }
    assert(seq![q].drop_first() =~= Seq::<(int, int)>::empty());
    assert(wsum(seq![q], r, c) == wcell(r, c, q.0, q.1) + wsum(seq![q].drop_first(), r, c)) by {
        reveal_with_fuel(wsum, 2);
    }
}

proof fn lemma_wsum_concat(a: Seq<(int, int)>, b: Seq<(int, int)>, r: int, c: int)
    ensures
        wsum(a + b, r, c) == wsum(a, r, c) + wsum(b, r, c),
    decreases a.len(),
{
    if a.len() == 0 {
        assert(a + b =~= b);
    } else {
        assert((a + b).drop_first() =~= a.drop_first() + b);
        lemma_wsum_concat(a.drop_first(), b, r, c);
    }
}

/// Any toppling on a finite grid lowers the weighted total.
proof fn lemma_wphi_fire(g: Cells, r: int, c: int, i: int, j: int)
    requires
        rect(g),
        g.len() == r,
        g[0].len() == c,
        can_fire(GridType::Finite, g, i, j),
    ensures
        wphi(fire(GridType::Finite, g, i, j), r, c) <= wphi(g, r, c) - 2,
{
    let t = GridType::Finite;
    lemma_targets(t, r, c, i, j);
    lemma_wphi_dec4(g, r, c, i, j);
    crate::model::lemma_grid_sum_dec4(g, i, j);
    lemma_wphi_credit(dec4(g, i, j), r, c, targets(t, r, c, i, j));
    lemma_finite_targets_wsum(r, c, i, j);
}

/// Every non-negative finite grid reaches a stable grid: induction on
/// the weighted total, which every toppling strictly lowers.
proof fn lemma_finite_stabilizes(g: Cells, r: int, c: int)
    requires
        rect(g),
        nonneg(g),
        g.len() == r,
        g[0].len() == c,
    ensures
        stabilizable(GridType::Finite, g),
    decreases wphi(g, r, c),
{
    let t = GridType::Finite;
    lemma_wphi_nonneg(g, r, c);
    if stable(g) {
        assert(reaches(t, g, g, 0));
        assert(stabilizes_to(t, g, g));
    } else {
        let (i, j) = choose|i: int, j: int| in_bounds(g, i, j) && #[trigger] g[i][j] >= 4;
        assert(can_fire(t, g, i, j));
        lemma_fire(t, g, i, j);
        lemma_wphi_fire(g, r, c, i, j);
        lemma_wphi_nonneg(fire(t, g, i, j), r, c);
        lemma_finite_stabilizes(fire(t, g, i, j), r, c);
        let h = choose|h: Cells| stabilizes_to(t, fire(t, g, i, j), h);
        assert(stabilizes_to(t, fire(t, g, i, j), h));
        let n = choose|n: nat| reaches(t, fire(t, g, i, j), h, n);
        assert(can_fire(t, g, i, j) && reaches(t, fire(t, g, i, j), h, ((n + 1) - 1) as nat));
        assert(reaches(t, g, h, n + 1));
        assert(stabilizes_to(t, g, h));
    }
}

/// On the finite topology the termination assumption is a theorem:
/// every grid of any shape stabilizes.
pub proof fn lemma_finite_grids_stabilize(r: int, c: int)
    ensures
        grids_stabilize(GridType::Finite, r, c),
{
    assert forall|g: Cells|
        rect(g) && nonneg(g) && sink_ok(GridType::Finite, g) && g.len() == r && g[0].len()
            == c implies stabilizable(GridType::Finite, g) by {
        lemma_finite_stabilizes(g, r, c);
    }
}

} // verus!
