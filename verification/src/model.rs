//! Mathematical model of the abelian sandpile: grids of chip counts,
//! single toppling steps, reachability by toppling, and the confluence
//! theorem that makes "the stabilization of a grid" well defined.
use vstd::prelude::*;

verus! {

/// Which neighbourhood rule a sandpile lives under: a finite rectangle
/// whose border leaks into an implicit sink, or a torus whose cell
/// `(0,0)` is a designated sink.
#[derive(Clone, Copy, PartialEq, Eq, Structural, Debug)]
pub enum GridType {
    Finite,
    Toroidal,
}

/// A grid is modelled as a sequence of rows of mathematical integers.
pub type Cells = Seq<Seq<int>>;

/// Non-empty and rectangular: all rows have the length of the first.
pub open spec fn rect(g: Cells) -> bool {
    g.len() > 0 && g[0].len() > 0
        && forall|i: int| 0 <= i < g.len() ==> #[trigger] g[i].len() == g[0].len()
}

pub open spec fn in_bounds(g: Cells, i: int, j: int) -> bool {
    0 <= i < g.len() && 0 <= j < g[0].len()
}

pub open spec fn nonneg(g: Cells) -> bool {
    forall|i: int, j: int| in_bounds(g, i, j) ==> #[trigger] g[i][j] >= 0
}

/// Stable: every cell holds fewer than four chips.
pub open spec fn stable(g: Cells) -> bool {
    forall|i: int, j: int| in_bounds(g, i, j) ==> #[trigger] g[i][j] < 4
}

/// On a torus the sink cell `(0,0)` holds no chips.
pub open spec fn sink_ok(t: GridType, g: Cells) -> bool {
    t == GridType::Toroidal ==> g[0][0] == 0
}

pub open spec fn same_dims(a: Cells, b: Cells) -> bool {
    a.len() == b.len() && a[0].len() == b[0].len()
}

/// How often the pair `p` occurs in `ts`.
pub open spec fn occ(ts: Seq<(int, int)>, p: (int, int)) -> int
    decreases ts.len(),
{
    if ts.len() == 0 {
        0
    } else {
        (if ts[0] == p { 1int } else { 0int }) + occ(ts.drop_first(), p)
    }
}

/// The cells credited with one chip when `(i,j)` topples once on an
/// `r` by `c` finite grid; chips over a missing edge are discarded.
pub open spec fn finite_targets(r: int, c: int, i: int, j: int) -> Seq<(int, int)> {
    (if i > 0 { seq![(i - 1, j)] } else { Seq::empty() })
        + (if j > 0 { seq![(i, j - 1)] } else { Seq::empty() })
        + (if i < r - 1 { seq![(i + 1, j)] } else { Seq::empty() })
        + (if j < c - 1 { seq![(i, j + 1)] } else { Seq::empty() })
}

/// The cells credited when `(i,j)` topples once on an `r` by `c` torus:
/// indices wrap, and a chip aimed at the sink `(0,0)` is discarded.
pub open spec fn torus_targets(r: int, c: int, i: int, j: int) -> Seq<(int, int)> {
    let iu = if i > 0 { i - 1 } else { r - 1 };
    let jl = if j > 0 { j - 1 } else { c - 1 };
    let id = if i < r - 1 { i + 1 } else { 0 };
    let jr = if j < c - 1 { j + 1 } else { 0 };
    (if !(iu == 0 && j == 0) { seq![(iu, j)] } else { Seq::empty() })
        + (if !(i == 0 && jl == 0) { seq![(i, jl)] } else { Seq::empty() })
        + (if !(id == 0 && j == 0) { seq![(id, j)] } else { Seq::empty() })
        + (if !(i == 0 && jr == 0) { seq![(i, jr)] } else { Seq::empty() })
}

pub open spec fn targets(t: GridType, r: int, c: int, i: int, j: int) -> Seq<(int, int)> {
    match t {
        GridType::Finite => finite_targets(r, c, i, j),
        GridType::Toroidal => torus_targets(r, c, i, j),
    }
}

/// One chip added at cell `p`.
pub open spec fn bump(g: Cells, p: (int, int)) -> Cells {
    g.update(p.0, g[p.0].update(p.1, g[p.0][p.1] + 1))
}

/// Four chips removed at `(i,j)`.
pub open spec fn dec4(g: Cells, i: int, j: int) -> Cells {
    g.update(i, g[i].update(j, g[i][j] - 4))
}

/// One chip added at every cell of `ts`, in order.
pub open spec fn credit(g: Cells, ts: Seq<(int, int)>) -> Cells
    decreases ts.len(),
{
    if ts.len() == 0 {
        g
    } else {
        credit(bump(g, ts[0]), ts.drop_first())
    }
}

/// Cell `(i,j)` may topple: it is on the grid, holds at least four
/// chips, and is not the toroidal sink.
pub open spec fn can_fire(t: GridType, g: Cells, i: int, j: int) -> bool {
    in_bounds(g, i, j) && g[i][j] >= 4 && !(t == GridType::Toroidal && i == 0 && j == 0)
}

/// The grid after cell `(i,j)` topples once.
pub open spec fn fire(t: GridType, g: Cells, i: int, j: int) -> Cells {
    credit(dec4(g, i, j), targets(t, g.len() as int, g[0].len() as int, i, j))
}

/// `h` arises from `g` by exactly `n` single topplings.
pub open spec fn reaches(t: GridType, g: Cells, h: Cells, n: nat) -> bool
    decreases n,
{
    if n == 0 {
        g == h
    } else {
        exists|i: int, j: int|
            can_fire(t, g, i, j) && reaches(t, fire(t, g, i, j), h, (n - 1) as nat)
    }
}

/// `h` is a stable grid reachable from `g` by toppling.
pub open spec fn stabilizes_to(t: GridType, g: Cells, h: Cells) -> bool {
    stable(h) && exists|n: nat| reaches(t, g, h, n)
}

pub open spec fn stabilizable(t: GridType, g: Cells) -> bool {
    exists|h: Cells| stabilizes_to(t, g, h)
}

/// The stable grid that toppling drives `g` to; well defined whenever
/// `g` is rectangular and stabilizable, by `lemma_confluence`.
pub open spec fn stab(t: GridType, g: Cells) -> Cells {
    choose|h: Cells| stabilizes_to(t, g, h)
}

/// Every chip grid of the given dimensions can be stabilized. For the
/// finite topology this is proved (`lemma_finite_grids_stabilize`);
/// for the torus it is the classical termination theorem, which the
/// engine takes as a precondition.
pub open spec fn grids_stabilize(t: GridType, r: int, c: int) -> bool {
    forall|g: Cells|
        rect(g) && nonneg(g) && sink_ok(t, g) && g.len() == r && g[0].len() == c
            ==> #[trigger] stabilizable(t, g)
}

pub open spec fn row_sum(s: Seq<int>) -> int
    decreases s.len(),
{
    if s.len() == 0 {
        0
    } else {
        s[0] + row_sum(s.drop_first())
    }
}

/// Total number of chips on the grid.
pub open spec fn grid_sum(g: Cells) -> int
    decreases g.len(),
{
    if g.len() == 0 {
        0
    } else {
        row_sum(g[0]) + grid_sum(g.drop_first())
    }
}

/// Sink normalization: on a torus the cell `(0,0)` is cleared before
/// toppling; a finite grid is left alone.
pub open spec fn normalize(t: GridType, g: Cells) -> Cells {
    if t == GridType::Toroidal {
        g.update(0, g[0].update(0, 0))
    } else {
        g
    }
}

/// Elementwise sum of two grids of the same shape.
pub open spec fn cell_sum(a: Cells, b: Cells) -> Cells {
    Seq::new(a.len(), |i: int| Seq::new(a[i].len(), |j: int| a[i][j] + b[i][j]))
}

pub open spec fn const_grid(r: int, c: int, v: int) -> Cells {
    Seq::new(r as nat, |i: int| Seq::new(c as nat, |j: int| v))
}

/// The stabilized all-six grid that the neutral element and the
/// inverse are derived from.
pub open spec fn base_six(t: GridType, r: int, c: int) -> Cells {
    stab(t, normalize(t, const_grid(r, c, 6)))
}

/// The neutral element of the sandpile group for this topology and
/// shape: stabilize the all-six grid, subtract it from six cell by
/// cell, normalize the sink again and stabilize once more.
pub open spec fn neutral_cells(t: GridType, r: int, c: int) -> Cells {
    let m = base_six(t, r, c);
    stab(t, normalize(t, Seq::new(m.len(), |i: int| Seq::new(m[i].len(), |j: int| 6 - m[i][j]))))
}

/// The inverse of `x`: with `m` the stabilized all-six grid, stabilize
/// the grid `2*(6 - m) - x` after sink normalization.
pub open spec fn inverse_cells(t: GridType, x: Cells) -> Cells {
    let m = base_six(t, x.len() as int, x[0].len() as int);
    stab(
        t,
        normalize(
            t,
            Seq::new(x.len(), |i: int| Seq::new(x[i].len(), |j: int| 2 * (6 - m[i][j]) - x[i][j])),
        ),
    )
}

/// `x` added to itself: `iter_sum(t, x, k)` is the stabilized sum of
/// `k` copies of `x`.
pub open spec fn iter_sum(t: GridType, x: Cells, k: nat) -> Cells
    decreases k,
{
    if k <= 1 {
        x
    } else {
        stab(t, cell_sum(iter_sum(t, x, (k - 1) as nat), x))
    }
}

pub proof fn lemma_occ_nonneg(ts: Seq<(int, int)>, p: (int, int))
    ensures
        occ(ts, p) >= 0,
    decreases ts.len(),
{
    if ts.len() > 0 {
        lemma_occ_nonneg(ts.drop_first(), p);
    }
}

proof fn lemma_occ_single(q: (int, int), p: (int, int))
    ensures
        occ(seq![q], p) == if q == p { 1int } else { 0int },
        occ(Seq::<(int, int)>::empty(), p) == 0,
{
    assert(occ(Seq::<(int, int)>::empty(), p) == 0) by {
        reveal_with_fuel(occ, 1);
    }
    assert(seq![q].drop_first() =~= Seq::<(int, int)>::empty());
    assert(occ(seq![q], p) == (if q == p { 1int } else { 0int }) + occ(
        seq![q].drop_first(),
        p,
    )) by {
        reveal_with_fuel(occ, 2);
    }
}

proof fn lemma_occ_concat(a: Seq<(int, int)>, b: Seq<(int, int)>, p: (int, int))
    ensures
        occ(a + b, p) == occ(a, p) + occ(b, p),
    decreases a.len(),
{
    if a.len() == 0 {
        assert(a + b =~= b);
    } else {
        assert((a + b).drop_first() =~= a.drop_first() + b);
        lemma_occ_concat(a.drop_first(), b, p);
    }
}

proof fn lemma_row_sum_update(s: Seq<int>, j: int, v: int)
    requires
        0 <= j < s.len(),
    ensures
        row_sum(s.update(j, v)) == row_sum(s) - s[j] + v,
    decreases s.len(),
{
    if j == 0 {
        assert(s.update(0, v).drop_first() =~= s.drop_first());
    } else {
        assert(s.update(j, v).drop_first() =~= s.drop_first().update(j - 1, v));
        lemma_row_sum_update(s.drop_first(), j - 1, v);
    }
}

proof fn lemma_grid_sum_update(g: Cells, i: int, r: Seq<int>)
    requires
        0 <= i < g.len(),
    ensures
        grid_sum(g.update(i, r)) == grid_sum(g) - row_sum(g[i]) + row_sum(r),
    decreases g.len(),
{
    if i == 0 {
        assert(g.update(0, r).drop_first() =~= g.drop_first());
    } else {
        assert(g.update(i, r).drop_first() =~= g.drop_first().update(i - 1, r));
        lemma_grid_sum_update(g.drop_first(), i - 1, r);
    }
}

/// What one `bump` does: shape kept, one cell one chip richer, total
/// one chip larger.
pub proof fn lemma_bump(g: Cells, p: (int, int))
    requires
        rect(g),
        in_bounds(g, p.0, p.1),
    ensures
        rect(bump(g, p)),
        bump(g, p).len() == g.len(),
        bump(g, p)[0].len() == g[0].len(),
        forall|a: int, b: int|
            in_bounds(g, a, b) ==> #[trigger] bump(g, p)[a][b] == g[a][b] + (
            if (a, b) == p {
                1int
            } else {
                0int
            }),
        grid_sum(bump(g, p)) == grid_sum(g) + 1,
{
    lemma_row_sum_update(g[p.0], p.1, g[p.0][p.1] + 1);
    lemma_grid_sum_update(g, p.0, g[p.0].update(p.1, g[p.0][p.1] + 1));
}

/// What removing four chips at one cell does to shape and total.
pub proof fn lemma_grid_sum_dec4(g: Cells, i: int, j: int)
    requires
        rect(g),
        0 <= i < g.len(),
        0 <= j < g[0].len(),
    ensures
        rect(dec4(g, i, j)),
        dec4(g, i, j).len() == g.len(),
        dec4(g, i, j)[0].len() == g[0].len(),
        grid_sum(dec4(g, i, j)) == grid_sum(g) - 4,
{
    lemma_row_sum_update(g[i], j, g[i][j] - 4);
    lemma_grid_sum_update(g, i, g[i].update(j, g[i][j] - 4));
    assert forall|a: int| 0 <= a < dec4(g, i, j).len()
        implies #[trigger] dec4(g, i, j)[a].len() == dec4(g, i, j)[0].len() by {}
}

/// Clearing the toroidal sink only removes chips from the grid.
pub proof fn lemma_grid_sum_normalize(g: Cells)
    requires
        rect(g),
        nonneg(g),
    ensures
        grid_sum(normalize(GridType::Toroidal, g)) == grid_sum(g) - g[0][0],
        grid_sum(normalize(GridType::Toroidal, g)) <= grid_sum(g),
{
    lemma_row_sum_update(g[0], 0, 0);
    lemma_grid_sum_update(g, 0, g[0].update(0, 0));
}

/// What `credit` does for a list of on-grid targets.
pub proof fn lemma_credit(g: Cells, ts: Seq<(int, int)>)
    requires
        rect(g),
        forall|k: int| 0 <= k < ts.len() ==> in_bounds(g, (#[trigger] ts[k]).0, ts[k].1),
    ensures
        rect(credit(g, ts)),
        credit(g, ts).len() == g.len(),
        credit(g, ts)[0].len() == g[0].len(),
        forall|a: int, b: int|
            in_bounds(g, a, b) ==> #[trigger] credit(g, ts)[a][b] == g[a][b] + occ(ts, (a, b)),
        grid_sum(credit(g, ts)) == grid_sum(g) + ts.len(),
    decreases ts.len(),
{
    if ts.len() > 0 {
        lemma_bump(g, ts[0]);
        lemma_credit(bump(g, ts[0]), ts.drop_first());
        assert forall|a: int, b: int| in_bounds(g, a, b) implies #[trigger] credit(g, ts)[a][b]
            == g[a][b] + occ(ts, (a, b)) by {
            lemma_occ_nonneg(ts.drop_first(), (a, b));
        }
    }
}

/// Crediting one more target is one more `bump`.
pub proof fn lemma_credit_snoc(g: Cells, ts: Seq<(int, int)>, x: (int, int))
    ensures
        credit(g, ts.push(x)) == bump(credit(g, ts), x),
    decreases ts.len(),
{
    if ts.len() == 0 {
        assert(ts.push(x).drop_first() =~= Seq::<(int, int)>::empty());
        assert(credit(bump(g, x), ts.push(x).drop_first()) == bump(g, x));
        assert(credit(g, ts) == g);
    } else {
        assert(ts.push(x).drop_first() =~= ts.drop_first().push(x));
        lemma_credit_snoc(bump(g, ts[0]), ts.drop_first(), x);
    }
}

/// Every target of a toppling lies on the grid, there are at most four
/// of them, and on a torus none of them is the sink.
pub proof fn lemma_targets(t: GridType, r: int, c: int, i: int, j: int)
    requires
        0 <= i < r,
        0 <= j < c,
    ensures
        forall|k: int|
            0 <= k < targets(t, r, c, i, j).len() ==> {
                let p = #[trigger] targets(t, r, c, i, j)[k];
                0 <= p.0 < r && 0 <= p.1 < c
            },
        targets(t, r, c, i, j).len() <= 4,
        t == GridType::Toroidal ==> occ(targets(t, r, c, i, j), (0, 0)) == 0,
{
    let ts = targets(t, r, c, i, j);
    match t {
        GridType::Finite => {
            let a = if i > 0 { seq![(i - 1, j)] } else { Seq::<(int, int)>::empty() };
            let b = if j > 0 { seq![(i, j - 1)] } else { Seq::<(int, int)>::empty() };
            let d = if i < r - 1 { seq![(i + 1, j)] } else { Seq::<(int, int)>::empty() };
            let e = if j < c - 1 { seq![(i, j + 1)] } else { Seq::<(int, int)>::empty() };
            assert(ts == a + b + d + e);
        },
        GridType::Toroidal => {
            let iu = if i > 0 { i - 1 } else { r - 1 };
            let jl = if j > 0 { j - 1 } else { c - 1 };
            let id = if i < r - 1 { i + 1 } else { 0 };
            let jr = if j < c - 1 { j + 1 } else { 0 };
            let a = if !(iu == 0 && j == 0) { seq![(iu, j)] } else { Seq::<(int, int)>::empty() };
            let b = if !(i == 0 && jl == 0) { seq![(i, jl)] } else { Seq::<(int, int)>::empty() };
            let d = if !(id == 0 && j == 0) { seq![(id, j)] } else { Seq::<(int, int)>::empty() };
            let e = if !(i == 0 && jr == 0) { seq![(i, jr)] } else { Seq::<(int, int)>::empty() };
            assert(ts == a + b + d + e);
            lemma_occ_concat(a + b + d, e, (0, 0));
            lemma_occ_concat(a + b, d, (0, 0));
            lemma_occ_concat(a, b, (0, 0));
            lemma_occ_single((iu, j), (0, 0));
            lemma_occ_single((i, jl), (0, 0));
            lemma_occ_single((id, j), (0, 0));
            lemma_occ_single((i, jr), (0, 0));
        },
    }
}

/// The facts the rest of the development needs about a single toppling:
/// shape, the pointwise value change, positivity, the sink staying
/// empty, and the chip total not growing.
pub proof fn lemma_fire(t: GridType, g: Cells, i: int, j: int)
    requires
        rect(g),
        can_fire(t, g, i, j),
    ensures
        rect(fire(t, g, i, j)),
        fire(t, g, i, j).len() == g.len(),
        fire(t, g, i, j)[0].len() == g[0].len(),
        forall|a: int, b: int|
            in_bounds(g, a, b) ==> #[trigger] fire(t, g, i, j)[a][b] == g[a][b] + (
            if (a, b) == (i, j) {
                -4int
            } else {
                0int
            }) + occ(targets(t, g.len() as int, g[0].len() as int, i, j), (a, b)),
        nonneg(g) ==> nonneg(fire(t, g, i, j)),
        t == GridType::Toroidal && g[0][0] == 0 ==> fire(t, g, i, j)[0][0] == 0,
        grid_sum(fire(t, g, i, j)) <= grid_sum(g),
{
    let r = g.len() as int;
    let c = g[0].len() as int;
    let ts = targets(t, r, c, i, j);
    lemma_targets(t, r, c, i, j);
    lemma_row_sum_update(g[i], j, g[i][j] - 4);
    lemma_grid_sum_update(g, i, g[i].update(j, g[i][j] - 4));
    lemma_credit(dec4(g, i, j), ts);
    assert forall|a: int, b: int| in_bounds(g, a, b) implies #[trigger] fire(t, g, i, j)[a][b]
        == g[a][b] + (if (a, b) == (i, j) { -4int } else { 0int }) + occ(ts, (a, b)) by {
    }
    if nonneg(g) {
        assert forall|a: int, b: int| in_bounds(fire(t, g, i, j), a, b)
            implies #[trigger] fire(t, g, i, j)[a][b] >= 0 by {
            lemma_occ_nonneg(ts, (a, b));
        }
    }
    if t == GridType::Toroidal && g[0][0] == 0 {
        assert(!(i == 0 && j == 0));
    }
}

/// Two grids of the same shape that agree cell by cell are equal.
pub proof fn lemma_grid_ext(a: Cells, b: Cells)
    requires
        a.len() == b.len(),
        forall|i: int| 0 <= i < a.len() ==> #[trigger] a[i].len() == b[i].len(),
        forall|i: int, j: int|
            0 <= i < a.len() && 0 <= j < a[i].len() ==> #[trigger] a[i][j] == b[i][j],
    ensures
        a == b,
{
    assert forall|i: int| 0 <= i < a.len() implies a[i] =~= b[i] by {}
    assert(a =~~= b);
}

/// Two topplings at distinct cells commute, and neither disables the
/// other.
pub proof fn lemma_fire_commute(t: GridType, g: Cells, i1: int, j1: int, i2: int, j2: int)
    requires
        rect(g),
        can_fire(t, g, i1, j1),
        can_fire(t, g, i2, j2),
        (i1, j1) != (i2, j2),
    ensures
        can_fire(t, fire(t, g, i1, j1), i2, j2),
        fire(t, fire(t, g, i1, j1), i2, j2) == fire(t, fire(t, g, i2, j2), i1, j1),
{
    let r = g.len() as int;
    let c = g[0].len() as int;
    lemma_fire(t, g, i1, j1);
    lemma_fire(t, g, i2, j2);
    let g1 = fire(t, g, i1, j1);
    let g2 = fire(t, g, i2, j2);
    lemma_occ_nonneg(targets(t, r, c, i1, j1), (i2, j2));
    lemma_occ_nonneg(targets(t, r, c, i2, j2), (i1, j1));
    assert(can_fire(t, g1, i2, j2));
    assert(can_fire(t, g2, i1, j1));
    lemma_fire(t, g1, i2, j2);
    lemma_fire(t, g2, i1, j1);
    let a = fire(t, g1, i2, j2);
    let b = fire(t, g2, i1, j1);
    assert forall|x: int, y: int| 0 <= x < a.len() && 0 <= y < a[x].len()
        implies #[trigger] a[x][y] == b[x][y] by {
        assert(in_bounds(g, x, y));
    }
    lemma_grid_ext(a, b);
}

/// A toppling appended to a toppling sequence.
pub proof fn lemma_reaches_snoc(t: GridType, g: Cells, h: Cells, n: nat, i: int, j: int)
    requires
        reaches(t, g, h, n),
        can_fire(t, h, i, j),
    ensures
        reaches(t, g, fire(t, h, i, j), n + 1),
    decreases n,
{
    if n == 0 {
        assert(reaches(t, fire(t, g, i, j), fire(t, h, i, j), 0));
        assert(reaches(t, g, fire(t, h, i, j), 1));
    } else {
        let (a, b) = choose|a: int, b: int|
            can_fire(t, g, a, b) && reaches(t, fire(t, g, a, b), h, (n - 1) as nat);
        lemma_reaches_snoc(t, fire(t, g, a, b), h, (n - 1) as nat, i, j);
        assert(can_fire(t, g, a, b) && reaches(
            t,
            fire(t, g, a, b),
            fire(t, h, i, j),
            ((n + 1) - 1) as nat,
        ));
        assert(reaches(t, g, fire(t, h, i, j), n + 1));
    }
}

/// A stable grid topples nowhere: it reaches only itself, in zero
/// steps.
pub proof fn lemma_stable_reaches(t: GridType, g: Cells, h: Cells, n: nat)
    requires
        stable(g),
        reaches(t, g, h, n),
    ensures
        n == 0,
        h == g,
{
    if n > 0 {
        let (a, b) = choose|a: int, b: int|
            can_fire(t, g, a, b) && reaches(t, fire(t, g, a, b), h, (n - 1) as nat);
        assert(in_bounds(g, a, b));
        assert(false);
    }
}

/// If `g` reaches the stable grid `h` in `n` steps, then after any one
/// toppling it still reaches `h`, in one step fewer.
pub proof fn lemma_step_toward_stable(t: GridType, g: Cells, h: Cells, n: nat, i: int, j: int)
    requires
        rect(g),
        reaches(t, g, h, n),
        stable(h),
        can_fire(t, g, i, j),
    ensures
        n >= 1,
        reaches(t, fire(t, g, i, j), h, (n - 1) as nat),
    decreases n,
{
    if n == 0 {
        assert(in_bounds(g, i, j));
        assert(false);
    } else {
        let (a, b) = choose|a: int, b: int|
            can_fire(t, g, a, b) && reaches(t, fire(t, g, a, b), h, (n - 1) as nat);
        if a == i && b == j {
        } else {
            lemma_fire_commute(t, g, i, j, a, b);
            lemma_fire_commute(t, g, a, b, i, j);
            lemma_fire(t, g, a, b);
            lemma_step_toward_stable(t, fire(t, g, a, b), h, (n - 1) as nat, i, j);
            assert(reaches(t, fire(t, fire(t, g, i, j), a, b), h, (n - 2) as nat));
            assert(can_fire(t, fire(t, g, i, j), a, b) && reaches(
                t,
                fire(t, fire(t, g, i, j), a, b),
                h,
                (((n - 1) as nat) - 1) as nat,
            ));
            assert(reaches(t, fire(t, g, i, j), h, (n - 1) as nat));
        }
    }
}

/// Confluence of the abelian sandpile: however the active cells are
/// processed, a grid reaches exactly one stable grid, and the number
/// of topplings spent on the way is the same.
pub proof fn lemma_confluence(t: GridType, g: Cells, h1: Cells, n1: nat, h2: Cells, n2: nat)
    requires
        rect(g),
        reaches(t, g, h1, n1),
        stable(h1),
        reaches(t, g, h2, n2),
        stable(h2),
    ensures
        h1 == h2,
        n1 == n2,
    decreases n1,
{
    if n1 == 0 {
        lemma_stable_reaches(t, g, h2, n2);
    } else {
        let (a, b) = choose|a: int, b: int|
            can_fire(t, g, a, b) && reaches(t, fire(t, g, a, b), h1, (n1 - 1) as nat);
        lemma_step_toward_stable(t, g, h2, n2, a, b);
        lemma_fire(t, g, a, b);
        lemma_confluence(t, fire(t, g, a, b), h1, (n1 - 1) as nat, h2, (n2 - 1) as nat);
    }
}

/// Whatever stable grid a run of the engine lands on is `stab` of its
/// start.
pub proof fn lemma_stab_is(t: GridType, g: Cells, h: Cells)
    requires
        rect(g),
        stabilizes_to(t, g, h),
    ensures
        stab(t, g) == h,
        stabilizes_to(t, g, stab(t, g)),
{
    let h2 = choose|h2: Cells| stabilizes_to(t, g, h2);
    assert(stabilizes_to(t, g, h2));
    let n = choose|n: nat| reaches(t, g, h, n);
    let n2 = choose|n: nat| reaches(t, g, h2, n);
    lemma_confluence(t, g, h, n, h2, n2);
}

/// Stabilizing an already-stable grid is a no-op: zero topplings,
/// nothing moved.
pub proof fn lemma_stable_fixed(t: GridType, g: Cells)
    requires
        rect(g),
        stable(g),
    ensures
        stabilizes_to(t, g, g),
        stab(t, g) == g,
        forall|h: Cells, n: nat| reaches(t, g, h, n) ==> h == g && n == 0,
{
    assert(reaches(t, g, g, 0));
    lemma_stab_is(t, g, g);
    assert forall|h: Cells, n: nat| reaches(t, g, h, n) implies h == g && n == 0 by {
        lemma_stable_reaches(t, g, h, n);
    }
}

/// On a torus, no sequence of topplings ever puts a chip on the sink:
/// if the sink starts empty it stays empty.
pub proof fn lemma_sink_preserved(g: Cells, h: Cells, n: nat)
    requires
        rect(g),
        g[0][0] == 0,
        reaches(GridType::Toroidal, g, h, n),
    ensures
        h[0][0] == 0,
    decreases n,
{
    if n > 0 {
        let (a, b) = choose|a: int, b: int|
            can_fire(GridType::Toroidal, g, a, b) && reaches(
                GridType::Toroidal,
                fire(GridType::Toroidal, g, a, b),
                h,
                (n - 1) as nat,
            );
        lemma_fire(GridType::Toroidal, g, a, b);
        lemma_sink_preserved(fire(GridType::Toroidal, g, a, b), h, (n - 1) as nat);
    }
}

proof fn lemma_row_sum_bounds(s: Seq<int>, k: int)
    requires
        forall|j: int| 0 <= j < s.len() ==> 0 <= #[trigger] s[j] <= k,
    ensures
        0 <= row_sum(s) <= k * s.len(),
        forall|j: int| 0 <= j < s.len() ==> #[trigger] s[j] <= row_sum(s),
    decreases s.len(),
{
    if s.len() > 0 {
        lemma_row_sum_bounds(s.drop_first(), k);
        assert(k * s.len() == k * (s.len() - 1) + k) by (nonlinear_arith);
        assert forall|j: int| 0 <= j < s.len() implies #[trigger] s[j] <= row_sum(s) by {
            if j > 0 {
                assert(s.drop_first()[j - 1] == s[j]);
            }
        }
    }
}

/// In a grid of chips each at most `k`, every cell is bounded by the
/// total and the total by `k` times the area.
pub proof fn lemma_grid_sum_bounds(g: Cells, k: int)
    requires
        rect(g),
        forall|i: int, j: int| in_bounds(g, i, j) ==> 0 <= #[trigger] g[i][j] <= k,
    ensures
        0 <= grid_sum(g) <= k * g.len() * g[0].len(),
        forall|i: int, j: int| in_bounds(g, i, j) ==> #[trigger] g[i][j] <= grid_sum(g),
    decreases g.len(),
{
    let c = g[0].len() as int;
    lemma_row_sum_bounds(g[0], k);
    if g.len() == 1 {
        assert(grid_sum(g.drop_first()) == 0) by {
            reveal_with_fuel(grid_sum, 1);
        }
        assert(k * 1 * c == k * c) by (nonlinear_arith);
        assert forall|i: int, j: int| in_bounds(g, i, j) implies #[trigger] g[i][j]
            <= grid_sum(g) by {
            assert(g[i] == g[0]);
            assert(g[i][j] <= row_sum(g[0]));
        }
    } else {
        let d = g.drop_first();
        assert forall|i: int, j: int| in_bounds(d, i, j) implies 0 <= #[trigger] d[i][j] <= k by {
            assert(d[i] == g[i + 1]);
            assert(in_bounds(g, i + 1, j));
        }
        assert(d[0].len() == c);
        lemma_grid_sum_bounds(d, k);
        assert(k * g.len() * c == k * (g.len() - 1) * c + k * c) by (nonlinear_arith);
        assert forall|i: int, j: int| in_bounds(g, i, j) implies #[trigger] g[i][j]
            <= grid_sum(g) by {
            if i > 0 {
                assert(d[i - 1] == g[i]);
                assert(in_bounds(d, i - 1, j));
                assert(d[i - 1][j] <= grid_sum(d));
            } else {
                assert(g[i] == g[0]);
                assert(g[i][j] <= row_sum(g[0]));
            }
        }
    }
}

} // verus!
