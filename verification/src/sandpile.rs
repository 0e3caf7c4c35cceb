//! The sandpile engine proper: the configuration type, its validated
//! construction, and stabilization by repeated single topplings.
use vstd::prelude::*;
use crate::model::{
    Cells, GridType, bump, can_fire, cell_sum, credit, dec4, fire, grid_sum, grids_stabilize,
    in_bounds, lemma_credit, lemma_credit_snoc, same_dims, lemma_fire, lemma_grid_ext,
    lemma_grid_sum_bounds, base_six, const_grid, inverse_cells, iter_sum, neutral_cells,
    lemma_reaches_snoc, lemma_stab_is, lemma_stable_fixed, lemma_stable_reaches,
    lemma_step_toward_stable, lemma_targets, nonneg, normalize, reaches, rect, sink_ok, stab,
    stabilizable, stabilizes_to, stable, targets,
};
use vstd::pervasive::unreached;
use vstd::string::StringExecFns;

verus! {

/// Number of chips on one cell.
pub type Cell = u32;

/// Raw chip counts, row-major.
pub type Grid = Vec<Vec<Cell>>;

pub open spec fn view_row(r: Vec<u32>) -> Seq<int> {
    r@.map_values(|v: u32| v as int)
}

/// The mathematical grid a `Grid` stands for.
pub open spec fn view_grid(g: Grid) -> Cells {
    g@.map_values(|r: Vec<u32>| view_row(r))
}

/// A sandpile configuration: a topology, a grid of chip counts that is
/// stable between public operations, and the number of topplings the
/// most recent stabilization performed.
#[derive(Debug, Clone)]
pub struct GridSandpile {
    grid_type: GridType,
    grid: Grid,
    last_topple: u64,
}

proof fn lemma_view_nonneg(g: Grid)
    requires
        rect(view_grid(g)),
    ensures
        nonneg(view_grid(g)),
        forall|i: int, j: int|
            in_bounds(view_grid(g), i, j) ==> #[trigger] view_grid(g)[i][j] <= u32::MAX,
{
    let v = view_grid(g);
    assert forall|i: int, j: int| in_bounds(v, i, j) implies #[trigger] v[i][j] >= 0 && v[i][j]
        <= u32::MAX by {
        assert(v[i].len() == v[0].len());
        assert(v[i][j] == g@[i]@[j] as int);
    }
}

impl GridSandpile {
    pub closed spec fn topo(self) -> GridType {
        self.grid_type
    }

    /// The chip counts as a mathematical grid.
    pub closed spec fn cells(self) -> Cells {
        view_grid(self.grid)
    }

    /// The toppling count of the most recent stabilization.
    pub closed spec fn topples(self) -> u64 {
        self.last_topple
    }

    /// The invariant every configuration handed out by this library
    /// satisfies: a rectangular, non-negative, stable grid whose sink
    /// is empty on a torus; small enough that no arithmetic in the
    /// engine can overflow; and of a shape on which every chip grid
    /// stabilizes (a theorem for the finite topology, an assumption
    /// carried from construction for the torus).
    pub open spec fn wf(self) -> bool {
        rect(self.cells()) && nonneg(self.cells()) && stable(self.cells()) && sink_ok(
            self.topo(),
            self.cells(),
        ) && grids_stabilize(self.topo(), self.cells().len() as int, self.cells()[0].len() as int)
            && 12 * self.cells().len() * self.cells()[0].len() <= u32::MAX
    }
}

/// First cell holding at least four chips, scanning row-major; `None`
/// means the grid is stable.
fn find_active(t: GridType, g: &Grid) -> (r: Option<(usize, usize)>)
    requires
        rect(view_grid(*g)),
        sink_ok(t, view_grid(*g)),
    ensures
        match r {
            Some(p) => can_fire(t, view_grid(*g), p.0 as int, p.1 as int),
            None => stable(view_grid(*g)),
        },
{
    let ghost v = view_grid(*g);
    let mut i: usize = 0;
    while i < g.len()
        invariant
            rect(v),
            sink_ok(t, v),
            v == view_grid(*g),
            i <= g@.len(),
            v.len() == g@.len(),
            forall|a: int, b: int|
                0 <= a < i && 0 <= b < v[0].len() ==> #[trigger] v[a][b] < 4,
        decreases g@.len() - i,
    {
        let row_len = g[i].len();
        proof {
            assert(v[i as int].len() == v[0].len());
        }
        let mut j: usize = 0;
        while j < row_len
            invariant
                rect(v),
                sink_ok(t, v),
                v == view_grid(*g),
                0 <= i < v.len(),
                v.len() == g@.len(),
                row_len == v[i as int].len(),
                row_len == v[0].len(),
                j <= row_len,
                forall|b: int| 0 <= b < j ==> #[trigger] v[i as int][b] < 4,
            decreases row_len - j,
        {
            if g[i][j] >= 4 {
                proof {
                    assert(v[i as int][j as int] >= 4);
                    if t == GridType::Toroidal && i == 0 && j == 0 {
                        assert(v[0][0] == 0);
                        assert(false);
                    }
                }
                return Some((i, j));
            }
            j += 1;
        }
        i += 1;
    }
    proof {
        assert forall|a: int, b: int| in_bounds(v, a, b) implies #[trigger] v[a][b] < 4 by {}
    }
    None
}

/// Performs one toppling of cell `(i,j)`: four chips off it, one chip
/// onto each of its targets.
#[verifier::rlimit(100)]
#[verifier::spinoff_prover]
fn fire_cell(t: GridType, g: &mut Grid, i: usize, j: usize)
    requires
        rect(view_grid(*old(g))),
        can_fire(t, view_grid(*old(g)), i as int, j as int),
        grid_sum(view_grid(*old(g))) <= u32::MAX,
    ensures
        view_grid(*final(g)) == fire(t, view_grid(*old(g)), i as int, j as int),
{
    let ghost v0 = view_grid(*old(g));
    let r = g.len();
    let c = g[0].len();
    let ghost tgt = targets(t, r as int, c as int, i as int, j as int);
    proof {
        lemma_targets(t, r as int, c as int, i as int, j as int);
        crate::model::lemma_grid_sum_dec4(v0, i as int, j as int);
        assert(v0[i as int].len() == v0[0].len());
        assert(g@[i as int]@.len() == v0[i as int].len());
        assert(g@[i as int]@[j as int] as int == v0[i as int][j as int]);
    }
    let v = g[i][j];
    g[i][j] = v - 4;
    let ghost base = dec4(v0, i as int, j as int);
    proof {
        lemma_grid_ext(view_grid(*g), base);
        assert(rect(base));
    }
    let mut ts: Vec<(usize, usize)> = Vec::new();
    match t {
        GridType::Finite => {
            if i > 0 {
                ts.push((i - 1, j));
            }
            if j > 0 {
                ts.push((i, j - 1));
            }
            if i + 1 < r {
                ts.push((i + 1, j));
            }
            if j + 1 < c {
                ts.push((i, j + 1));
            }
        },
        GridType::Toroidal => {
            let iu = if i > 0 { i - 1 } else { r - 1 };
            let jl = if j > 0 { j - 1 } else { c - 1 };
            let id = if i + 1 < r { i + 1 } else { 0 };
            let jr = if j + 1 < c { j + 1 } else { 0 };
            if !(iu == 0 && j == 0) {
                ts.push((iu, j));
            }
            if !(i == 0 && jl == 0) {
                ts.push((i, jl));
            }
            if !(id == 0 && j == 0) {
                ts.push((id, j));
            }
            if !(i == 0 && jr == 0) {
                ts.push((i, jr));
            }
        },
    }
    proof {
        assert(ts@.map_values(|p: (usize, usize)| (p.0 as int, p.1 as int)) =~= tgt);
    }
    let n = ts.len();
    let mut k: usize = 0;
    while k < n
        invariant
            rect(v0),
            rect(base),
            base == dec4(v0, i as int, j as int),
            grid_sum(base) == grid_sum(v0) - 4,
            grid_sum(v0) <= u32::MAX,
            base.len() == v0.len(),
            base[0].len() == v0[0].len(),
            tgt == targets(t, v0.len() as int, v0[0].len() as int, i as int, j as int),
            ts@.map_values(|p: (usize, usize)| (p.0 as int, p.1 as int)) == tgt,
            n == ts@.len(),
            tgt.len() <= 4,
            forall|m: int|
                0 <= m < tgt.len() ==> {
                    let p = #[trigger] tgt[m];
                    0 <= p.0 < base.len() && 0 <= p.1 < base[0].len()
                },
            k <= n,
            view_grid(*g) == credit(base, tgt.take(k as int)),
        decreases n - k,
    {
        let ghost cur = view_grid(*g);
        proof {
            lemma_credit(base, tgt.take(k as int));
            lemma_view_nonneg(*g);
            lemma_grid_sum_bounds(cur, u32::MAX as int);
            assert(grid_sum(cur) == grid_sum(base) + k);
            assert(tgt[k as int] == (ts@[k as int].0 as int, ts@[k as int].1 as int));
        }
        let p = ts[k];
        let a = p.0;
        let b = p.1;
        proof {
            assert((a as int, b as int) == tgt[k as int]);
            assert(cur.len() == base.len() && cur[0].len() == base[0].len());
            assert((a as int) < cur.len() && (b as int) < cur[0].len());
            assert(cur[a as int].len() == cur[0].len());
            assert(g@[a as int]@.len() == cur[a as int].len());
            assert(g@[a as int]@[b as int] as int == cur[a as int][b as int]);
            assert(cur[a as int][b as int] <= grid_sum(cur));
            assert(grid_sum(cur) <= u32::MAX - 4 + k);
        }
        let w = g[a][b];
        g[a][b] = w + 1;
        proof {
            lemma_credit_snoc(base, tgt.take(k as int), tgt[k as int]);
            assert(tgt.take(k as int).push(tgt[k as int]) =~= tgt.take(k as int + 1));
            lemma_grid_ext(view_grid(*g), bump(cur, tgt[k as int]));
        }
        k += 1;
    }
    proof {
        assert(tgt.take(n as int) =~= tgt);
    }
}

impl GridSandpile {
    /// Drives the grid to its unique stable form by repeated single
    /// topplings and records how many were performed (saturating at
    /// `u64::MAX`).
    fn topple(&mut self) -> (count: u64)
        requires
            rect(old(self).cells()),
            sink_ok(old(self).topo(), old(self).cells()),
            stabilizable(old(self).topo(), old(self).cells()),
            grid_sum(old(self).cells()) <= u32::MAX,
        ensures
            final(self).topo() == old(self).topo(),
            final(self).cells() == stab(old(self).topo(), old(self).cells()),
            stabilizes_to(old(self).topo(), old(self).cells(), final(self).cells()),
            stable(final(self).cells()),
            sink_ok(final(self).topo(), final(self).cells()),
            rect(final(self).cells()),
            final(self).cells().len() == old(self).cells().len(),
            final(self).cells()[0].len() == old(self).cells()[0].len(),
            grid_sum(final(self).cells()) <= grid_sum(old(self).cells()),
            final(self).topples() == count,
            exists|n: nat|
                reaches(old(self).topo(), old(self).cells(), final(self).cells(), n) && (n
                    < u64::MAX as nat ==> count as nat == n) && (n >= u64::MAX as nat ==> count
                    == u64::MAX),
            stable(old(self).cells()) ==> final(self).cells() == old(self).cells() && count == 0,
            forall|h: Cells, n: nat|
                reaches(old(self).topo(), old(self).cells(), h, n) && stable(h)
                    ==> h == final(self).cells() && (n < u64::MAX as nat ==> count as nat == n),
    {
        let ghost t = self.grid_type;
        let ghost g0 = self.cells();
        let ghost h = choose|h: Cells| stabilizes_to(t, g0, h);
        proof {
            assert(stabilizes_to(t, g0, h));
        }
        let ghost n0 = choose|n: nat| reaches(t, g0, h, n);
        proof {
            assert(reaches(t, g0, h, n0));
        }
        let mut count: u64 = 0;
        let ghost mut steps: nat = 0;
        let ghost mut rem: nat = n0;
        loop
            invariant
                self.grid_type == t,
                rect(g0),
                rect(view_grid(self.grid)),
                sink_ok(t, view_grid(self.grid)),
                view_grid(self.grid).len() == g0.len(),
                view_grid(self.grid)[0].len() == g0[0].len(),
                grid_sum(view_grid(self.grid)) <= grid_sum(g0),
                grid_sum(g0) <= u32::MAX,
                reaches(t, g0, view_grid(self.grid), steps),
                stable(h),
                reaches(t, view_grid(self.grid), h, rem),
                steps + rem == n0,
                count as nat == (if steps < u64::MAX as nat {
                    steps
                } else {
                    u64::MAX as nat
                }),
            ensures
                stable(view_grid(self.grid)),
            decreases rem,
        {
            let fa = find_active(self.grid_type, &self.grid);
            match fa {
                None => {
                    break ;
                },
                Some(p) => {
                    let i = p.0;
                    let j = p.1;
                    proof {
                        lemma_step_toward_stable(
                            t,
                            view_grid(self.grid),
                            h,
                            rem,
                            i as int,
                            j as int,
                        );
                        lemma_reaches_snoc(t, g0, view_grid(self.grid), steps, i as int, j as int);
                        lemma_fire(t, view_grid(self.grid), i as int, j as int);
                    }
                    fire_cell(self.grid_type, &mut self.grid, i, j);
                    count = if count < u64::MAX {
                        count + 1
                    } else {
                        count
                    };
                    proof {
                        steps = steps + 1;
                        rem = (rem - 1) as nat;
                    }
                },
            }
        }
        proof {
            lemma_stable_reaches(t, view_grid(self.grid), h, rem);
            assert(view_grid(self.grid) == h && rem == 0);
            assert(reaches(t, g0, view_grid(self.grid), n0));
            assert(stabilizes_to(t, g0, view_grid(self.grid)));
            lemma_stab_is(t, g0, view_grid(self.grid));
            lemma_view_nonneg(self.grid);
            if stable(g0) {
                lemma_stable_fixed(t, g0);
            }
            assert forall|h2: Cells, n2: nat|
                reaches(t, g0, h2, n2) && stable(h2) implies h2 == view_grid(self.grid) && (n2
                < u64::MAX as nat ==> count as nat == n2) by {
                crate::model::lemma_confluence(t, g0, view_grid(self.grid), n0, h2, n2);
            }
        }
        self.last_topple = count;
        count
    }
}

/// Everything that can go wrong when building or combining sandpiles.
#[derive(Debug)]
pub enum SandpileError {
    EmptyGrid,
    EmptyFirstRow(Grid),
    UnequalRowLengths(Grid, usize, usize, usize),
    UnequalTypes(GridType, GridType),
    UnequalDimensions(usize, usize, usize, usize),
    UnknownSymbol(char),
}

pub open spec fn digit_char(d: int) -> char {
    if d == 0 {
        '0'
    } else if d == 1 {
        '1'
    } else if d == 2 {
        '2'
    } else if d == 3 {
        '3'
    } else if d == 4 {
        '4'
    } else if d == 5 {
        '5'
    } else if d == 6 {
        '6'
    } else if d == 7 {
        '7'
    } else if d == 8 {
        '8'
    } else {
        '9'
    }
}

/// The decimal digits of a non-negative number, most significant
/// first.
pub open spec fn dec_digits(n: int) -> Seq<char>
    decreases n,
{
    if n <= 9 {
        seq![digit_char(n)]
    } else {
        dec_digits(n / 10).push(digit_char(n % 10))
    }
}

fn digit_glyph(d: usize) -> (c: char)
    requires
        d <= 9,
    ensures
        c == digit_char(d as int),
{
    if d == 0 {
        '0'
    } else if d == 1 {
        '1'
    } else if d == 2 {
        '2'
    } else if d == 3 {
        '3'
    } else if d == 4 {
        '4'
    } else if d == 5 {
        '5'
    } else if d == 6 {
        '6'
    } else if d == 7 {
        '7'
    } else if d == 8 {
        '8'
    } else {
        '9'
    }
}

/// Appends the decimal digits of `n`, most significant first.
fn decimal_chars(n: usize, out: &mut Vec<char>)
    ensures
        final(out)@ == old(out)@ + dec_digits(n as int),
    decreases n,
{
    if n <= 9 {
        out.push(digit_glyph(n));
        proof {
            assert(final(out)@ =~= old(out)@ + dec_digits(n as int));
        }
    } else {
        decimal_chars(n / 10, out);
        out.push(digit_glyph(n % 10));
        proof {
            assert(final(out)@ =~= old(out)@ + dec_digits(n as int));
        }
    }
}

/// The decimal notation of a number.
fn decimal_string(n: usize) -> (r: String)
    ensures
        r@ == dec_digits(n as int),
{
    let mut v: Vec<char> = Vec::new();
    decimal_chars(n, &mut v);
    proof {
        assert(v@ =~= dec_digits(n as int));
    }
    crate::text::string_from_chars(v)
}

/// Relies on String::push: appends one character.
#[verifier::external_body]
pub(crate) fn push_char(s: &mut String, c: char)
    ensures
        final(s)@ == old(s)@.push(c),
{
    s.push(c)
}

pub open spec fn topo_text(t: GridType) -> Seq<char> {
    match t {
        GridType::Finite => "Finite"@,
        GridType::Toroidal => "Toroidal"@,
    }
}

/// The description each error prints, word for word.
pub open spec fn error_text(e: SandpileError) -> Seq<char> {
    match e {
        SandpileError::EmptyGrid => "Attempt to build a sandpile upon zero-size grid."@,
        SandpileError::EmptyFirstRow(_) => "Sandpile grid has empty initial row."@,
        SandpileError::UnequalRowLengths(_, expected, n, got) =>
            "Sandpile grid does not represent rectangular matrix: initial row has length "@
            + dec_digits(expected as int) + ", row "@ + dec_digits(n as int) + " has length "@
            + dec_digits(got as int) + "."@,
        SandpileError::UnequalTypes(expected, got) =>
            "Adding sandpiles on grids of different types: "@ + topo_text(expected) + " and "@
            + topo_text(got) + "."@,
        SandpileError::UnequalDimensions(sx, sy, ox, oy) =>
            "Incorrect dimensions of sandpile grids: expected "@ + dec_digits(sx as int) + "x"@
            + dec_digits(sy as int) + ", got "@ + dec_digits(ox as int) + "x"@ + dec_digits(
            oy as int,
        ) + "."@,
        SandpileError::UnknownSymbol(ch) =>
            "Unknown symbol in the text representation of a sandpile: "@ + seq![ch],
    }
}

impl SandpileError {
    /// The error's human-readable description.
    pub fn message(&self) -> (r: String)
        ensures
            r@ == error_text(*self),
    {
        match self {
            SandpileError::EmptyGrid => "Attempt to build a sandpile upon zero-size grid.".to_owned(),
            SandpileError::EmptyFirstRow(_) => "Sandpile grid has empty initial row.".to_owned(),
            SandpileError::UnequalRowLengths(_, expected, n, got) => {
                let mut m =
                    "Sandpile grid does not represent rectangular matrix: initial row has length ".to_owned();
                m.append(decimal_string(*expected).as_str());
                m.append(", row ");
                m.append(decimal_string(*n).as_str());
                m.append(" has length ");
                m.append(decimal_string(*got).as_str());
                m.append(".");
                m
            },
            SandpileError::UnequalTypes(expected, got) => {
                let mut m = "Adding sandpiles on grids of different types: ".to_owned();
                m.append(if *expected == GridType::Finite {
                    "Finite"
                } else {
                    "Toroidal"
                });
                m.append(" and ");
                m.append(if *got == GridType::Finite {
                    "Finite"
                } else {
                    "Toroidal"
                });
                m.append(".");
                m
            },
            SandpileError::UnequalDimensions(sx, sy, ox, oy) => {
                let mut m = "Incorrect dimensions of sandpile grids: expected ".to_owned();
                m.append(decimal_string(*sx).as_str());
                m.append("x");
                m.append(decimal_string(*sy).as_str());
                m.append(", got ");
                m.append(decimal_string(*ox).as_str());
                m.append("x");
                m.append(decimal_string(*oy).as_str());
                m.append(".");
                m
            },
            SandpileError::UnknownSymbol(ch) => {
                let mut m = "Unknown symbol in the text representation of a sandpile: ".to_owned();
                push_char(&mut m, *ch);
                proof {
                    assert(m@ =~= error_text(*self));
                }
                m
            },
        }
    }

    /// Recovers the offending grid from the errors that carry one.
    pub fn into_grid(self) -> (r: Option<Grid>)
        ensures
            match self {
                SandpileError::EmptyFirstRow(g) => r == Some(g),
                SandpileError::UnequalRowLengths(g, l, i, l2) => r == Some(g),
                _ => r == None::<Grid>,
            },
    {
        match self {
            SandpileError::EmptyFirstRow(grid) => Some(grid),
            SandpileError::UnequalRowLengths(grid, _, _, _) => Some(grid),
            _ => None,
        }
    }
}

/// A grid of small entries has a small chip total: with every cell in
/// `0..=k` and `k` at most twelve, the engine's size bound keeps the
/// total within `u32` range.
pub(crate) proof fn lemma_sum_small(g: Cells, y: int, x: int, k: int)
    requires
        rect(g),
        g.len() == y,
        g[0].len() == x,
        forall|a: int, b: int| in_bounds(g, a, b) ==> 0 <= #[trigger] g[a][b] <= k,
        0 <= k <= 12,
        12 * y * x <= u32::MAX,
    ensures
        grid_sum(g) <= u32::MAX,
{
    lemma_grid_sum_bounds(g, k);
    assert(k * y * x <= 12 * y * x) by (nonlinear_arith)
        requires
            0 <= k <= 12,
            y >= 0,
            x >= 0,
    ;
}

/// A `rows` by `cols` grid holding `v` everywhere.
fn build_const(rows: usize, cols: usize, v: u32) -> (g: Grid)
    requires
        rows >= 1,
        cols >= 1,
    ensures
        view_grid(g) == const_grid(rows as int, cols as int, v as int),
        g@.len() == rows,
        g@[0]@.len() == cols,
        rect(view_grid(g)),
{
    let ghost target = const_grid(rows as int, cols as int, v as int);
    let mut g: Grid = Vec::new();
    let mut i: usize = 0;
    while i < rows
        invariant
            i <= rows,
            g@.len() == i,
            target == const_grid(rows as int, cols as int, v as int),
            forall|a: int| 0 <= a < i ==> #[trigger] view_grid(g)[a] == target[a],
            forall|a: int| 0 <= a < i ==> #[trigger] g@[a]@.len() == cols,
        decreases rows - i,
    {
        let mut row: Vec<u32> = Vec::new();
        let mut j: usize = 0;
        while j < cols
            invariant
                j <= cols,
                row@.len() == j,
                forall|b: int| 0 <= b < j ==> #[trigger] row@[b] == v,
            decreases cols - j,
        {
            row.push(v);
            j += 1;
        }
        let ghost gb = view_grid(g);
        g.push(row);
        proof {
            assert(view_grid(g)[i as int] =~= target[i as int]);
            assert forall|a: int| 0 <= a < i + 1 implies #[trigger] view_grid(g)[a]
                == target[a] by {
                if a < i {
                    assert(view_grid(g)[a] == gb[a]);
                }
            }
        }
        i += 1;
    }
    proof {
        assert(view_grid(g) =~= target);
        assert forall|a: int| 0 <= a < target.len() implies #[trigger] target[a].len()
            == target[0].len() by {}
        assert(rect(view_grid(g)));
    }
    g
}

fn copy_row(a: &Vec<u32>) -> (r: Vec<u32>)
    ensures
        r@ == a@,
{
    let mut r: Vec<u32> = Vec::new();
    let mut j: usize = 0;
    while j < a.len()
        invariant
            j <= a@.len(),
            r@ == a@.take(j as int),
        decreases a@.len() - j,
    {
        r.push(a[j]);
        proof {
            assert(r@ =~= a@.take(j as int + 1));
        }
        j += 1;
    }
    proof {
        assert(a@.take(a@.len() as int) =~= a@);
    }
    r
}

fn copy_grid(a: &Grid) -> (r: Grid)
    ensures
        view_grid(r) == view_grid(*a),
        r@.len() == a@.len(),
{
    let mut r: Grid = Vec::new();
    let mut i: usize = 0;
    while i < a.len()
        invariant
            i <= a@.len(),
            r@.len() == i,
            forall|m: int| 0 <= m < i ==> #[trigger] r@[m]@ == a@[m]@,
        decreases a@.len() - i,
    {
        let row = copy_row(&a[i]);
        r.push(row);
        i += 1;
    }
    proof {
        assert forall|m: int| 0 <= m < a@.len() implies #[trigger] view_grid(r)[m] =~= view_grid(
            *a,
        )[m] by {
            assert(r@[m]@ == a@[m]@);
        }
        assert(view_grid(r) =~~= view_grid(*a));
    }
    r
}

fn grids_equal(a: &Grid, b: &Grid) -> (r: bool)
    ensures
        r == (view_grid(*a) == view_grid(*b)),
{
    let ghost va = view_grid(*a);
    let ghost vb = view_grid(*b);
    if a.len() != b.len() {
        proof {
            assert(va.len() != vb.len());
        }
        return false;
    }
    let mut i: usize = 0;
    while i < a.len()
        invariant
            va == view_grid(*a),
            vb == view_grid(*b),
            va.len() == a@.len(),
            vb.len() == b@.len(),
            a@.len() == b@.len(),
            i <= a@.len(),
            forall|m: int| 0 <= m < i ==> #[trigger] va[m] == vb[m],
        decreases a@.len() - i,
    {
        if a[i].len() != b[i].len() {
            proof {
                assert(va[i as int].len() != vb[i as int].len());
            }
            return false;
        }
        let n = a[i].len();
        let mut j: usize = 0;
        while j < n
            invariant
                va == view_grid(*a),
                vb == view_grid(*b),
                0 <= i < a@.len(),
                a@.len() == b@.len(),
                va.len() == a@.len(),
                vb.len() == b@.len(),
                n == a@[i as int]@.len(),
                n == b@[i as int]@.len(),
                j <= n,
                forall|m: int| 0 <= m < j ==> #[trigger] va[i as int][m] == vb[i as int][m],
            decreases n - j,
        {
            if a[i][j] != b[i][j] {
                proof {
                    assert(va[i as int][j as int] != vb[i as int][j as int]);
                }
                return false;
            }
            j += 1;
        }
        proof {
            assert(va[i as int] =~= vb[i as int]);
        }
        i += 1;
    }
    proof {
        assert(va =~= vb);
    }
    true
}

impl PartialEq for GridSandpile {
    /// Two configurations are equal when their topologies and chip
    /// counts agree; the toppling statistic is not compared.
    fn eq(&self, other: &GridSandpile) -> bool {
        if self.grid_type == other.grid_type {
            grids_equal(&self.grid, &other.grid)
        } else {
            false
        }
    }
}

impl Eq for GridSandpile {}

impl vstd::std_specs::cmp::PartialEqSpecImpl for GridSandpile {
    open spec fn obeys_eq_spec() -> bool {
        true
    }

    open spec fn eq_spec(&self, other: &GridSandpile) -> bool {
        self.topo() == other.topo() && self.cells() == other.cells()
    }
}

impl GridSandpile {
    /// Builds a configuration from raw counts: the grid must be
    /// non-empty and rectangular; on a torus the sink is cleared; the
    /// result is the stabilization of what was handed in.
    pub fn from_grid(grid_type: GridType, grid: Grid) -> (r: Result<
        GridSandpile,
        SandpileError,
    >)
        requires
            grid_type == GridType::Toroidal ==> grids_stabilize(
                grid_type,
                grid@.len() as int,
                if grid@.len() > 0 {
                    grid@[0]@.len() as int
                } else {
                    0
                },
            ),
            grid_sum(view_grid(grid)) <= u32::MAX,
            grid@.len() > 0 ==> 12 * grid@.len() * grid@[0]@.len() <= u32::MAX,
        ensures
            (r matches Ok(_)) <==> rect(view_grid(grid)),
            match r {
                Ok(s) => s.wf() && s.topo() == grid_type && s.cells().len() == grid@.len()
                    && s.cells()[0].len() == grid@[0]@.len() && s.cells() == stab(
                    grid_type,
                    normalize(grid_type, view_grid(grid)),
                ) && stabilizes_to(grid_type, normalize(grid_type, view_grid(grid)), s.cells())
                    && (exists|n: nat|
                    reaches(grid_type, normalize(grid_type, view_grid(grid)), s.cells(), n) && (n
                        < u64::MAX as nat ==> s.topples() as nat == n) && (n >= u64::MAX as nat
                        ==> s.topples() == u64::MAX)) && (stable(view_grid(grid)) && sink_ok(
                    grid_type,
                    view_grid(grid),
                ) ==> s.cells() == view_grid(grid) && s.topples() == 0),
                Err(e) => match e {
                    SandpileError::EmptyGrid => grid@.len() == 0,
                    SandpileError::EmptyFirstRow(g) => g == grid && grid@.len() > 0
                        && grid@[0]@.len() == 0,
                    SandpileError::UnequalRowLengths(g, l, idx, l2) => g == grid && grid@.len() > 0
                        && l == grid@[0]@.len() && l > 0 && 0 < idx < grid@.len() && l2
                        == grid@[idx as int]@.len() && l2 != l && (forall|m: int|
                        1 <= m < idx ==> #[trigger] grid@[m]@.len() == l),
                    _ => false,
                },
            },
    {
        let ghost gv = view_grid(grid);
        if grid.len() == 0 {
            return Err(SandpileError::EmptyGrid);
        }
        let l = grid[0].len();
        if l == 0 {
            return Err(SandpileError::EmptyFirstRow(grid));
        }
        let mut i: usize = 1;
        while i < grid.len()
            invariant
                gv == view_grid(grid),
                1 <= i <= grid@.len(),
                grid@.len() > 0,
                l == grid@[0]@.len(),
                l > 0,
                forall|m: int| 1 <= m < i ==> #[trigger] grid@[m]@.len() == l,
            decreases grid@.len() - i,
        {
            let l2 = grid[i].len();
            if l2 != l {
                proof {
                    assert(view_grid(grid)[i as int].len() != view_grid(grid)[0].len());
                    assert(!rect(view_grid(grid)));
                }
                return Err(SandpileError::UnequalRowLengths(grid, l, i, l2));
            }
            i += 1;
        }
        proof {
            assert forall|m: int| 0 <= m < gv.len() implies #[trigger] gv[m].len()
                == gv[0].len() by {
                assert(gv[m].len() == grid@[m]@.len());
            }
            assert(rect(gv));
        }
        let mut sandpile = GridSandpile { grid_type, grid, last_topple: 0u64 };
        if sandpile.grid_type == GridType::Toroidal {
            let ghost pre = view_grid(sandpile.grid);
            let v0 = sandpile.grid[0][0];
            sandpile.grid[0][0] = 0;
            proof {
                crate::model::lemma_grid_ext(view_grid(sandpile.grid), normalize(grid_type, gv));
            }
        } else {
            proof {
                assert(normalize(grid_type, gv) == gv);
            }
        }
        proof {
            let nv = normalize(grid_type, gv);
            assert(view_grid(sandpile.grid) == nv);
            assert(rect(nv) && nv.len() == gv.len() && nv[0].len() == gv[0].len()) by {
                if grid_type == GridType::Toroidal {
                    assert forall|m: int| 0 <= m < nv.len() implies #[trigger] nv[m].len()
                        == nv[0].len() by {
                        assert(gv[m].len() == gv[0].len());
                    }
                }
            }
            lemma_view_nonneg(sandpile.grid);
            assert(sink_ok(grid_type, nv));
            if grid_type == GridType::Finite {
                crate::termination::lemma_finite_grids_stabilize(
                    gv.len() as int,
                    gv[0].len() as int,
                );
            }
            assert(stabilizable(grid_type, nv));
            if grid_type == GridType::Toroidal {
                crate::model::lemma_grid_sum_normalize(gv);
            }
            assert(grid_sum(nv) <= u32::MAX);
        }
        sandpile.topple();
        proof {
            let nv = normalize(grid_type, gv);
            assert(sandpile.wf()) by {
                lemma_view_nonneg(sandpile.grid);
                assert(sandpile.cells().len() == gv.len() && sandpile.cells()[0].len()
                    == gv[0].len());
            }
            if stable(gv) && sink_ok(grid_type, gv) {
                crate::model::lemma_grid_ext(nv, gv);
            }
        }
        Ok(sandpile)
    }

    /// Elementwise addition followed by stabilization; the operands
    /// must share topology and dimensions, else nothing is changed and
    /// the mismatch is reported.
    pub fn add(&mut self, p: &GridSandpile) -> (r: Result<(), SandpileError>)
        requires
            old(self).wf(),
            p.wf(),
        ensures
            (r matches Ok(_)) <==> (old(self).topo() == p.topo() && same_dims(
                old(self).cells(),
                p.cells(),
            )),
            match r {
                Ok(_) => final(self).topo() == old(self).topo() && final(self).wf()
                    && final(self).cells().len() == old(self).cells().len()
                    && final(self).cells()[0].len() == old(self).cells()[0].len()
                    && final(self).cells() == stab(
                    old(self).topo(),
                    cell_sum(old(self).cells(), p.cells()),
                )
                    && stabilizes_to(
                    old(self).topo(),
                    cell_sum(old(self).cells(), p.cells()),
                    final(self).cells(),
                ) && (exists|n: nat|
                    reaches(
                        old(self).topo(),
                        cell_sum(old(self).cells(), p.cells()),
                        final(self).cells(),
                        n,
                    ) && (n < u64::MAX as nat ==> final(self).topples() as nat == n) && (n
                        >= u64::MAX as nat ==> final(self).topples() == u64::MAX)),
                Err(e) => *final(self) == *old(self) && match e {
                    SandpileError::UnequalTypes(a, b) => a == old(self).topo() && b == p.topo()
                        && a != b,
                    SandpileError::UnequalDimensions(sy, sx, py, px) => old(self).topo()
                        == p.topo() && !same_dims(old(self).cells(), p.cells()) && sy == old(
                        self,
                    ).cells().len() && sx == old(self).cells()[0].len() && py == p.cells().len()
                        && px == p.cells()[0].len(),
                    _ => false,
                },
            },
    {
        let ghost t = self.grid_type;
        let ghost av = self.cells();
        let ghost pv = p.cells();
        if self.grid_type != p.grid_type {
            return Err(SandpileError::UnequalTypes(self.grid_type, p.grid_type));
        }
        if p.grid.len() != self.grid.len() || p.grid[0].len() != self.grid[0].len() {
            return Err(
                SandpileError::UnequalDimensions(
                    self.grid.len(),
                    self.grid[0].len(),
                    p.grid.len(),
                    p.grid[0].len(),
                ),
            );
        }
        let rows = self.grid.len();
        let cols = self.grid[0].len();
        let ghost sum = cell_sum(av, pv);
        let mut i: usize = 0;
        while i < rows
            invariant
                self.grid_type == t,
                self.last_topple == old(self).last_topple,
                old(self).wf(),
                p.wf(),
                av == old(self).cells(),
                pv == p.cells(),
                sum == cell_sum(av, pv),
                rows == av.len(),
                cols == av[0].len(),
                pv.len() == rows,
                pv[0].len() == cols,
                view_grid(self.grid).len() == rows,
                i <= rows,
                forall|a: int|
                    0 <= a < rows ==> #[trigger] view_grid(self.grid)[a] == (if a < i {
                        sum[a]
                    } else {
                        av[a]
                    }),
            decreases rows - i,
        {
            proof {
                assert(view_grid(self.grid)[i as int] == av[i as int]);
                assert(av[i as int].len() == av[0].len());
                assert(view_grid(self.grid)[i as int] =~= Seq::new(
                    cols as nat,
                    |b: int|
                        if b < 0 {
                            av[i as int][b] + pv[i as int][b]
                        } else {
                            av[i as int][b]
                        },
                ));
            }
            let mut j: usize = 0;
            while j < cols
                invariant
                    self.grid_type == t,
                    self.last_topple == old(self).last_topple,
                    old(self).wf(),
                    p.wf(),
                    av == old(self).cells(),
                    pv == p.cells(),
                    sum == cell_sum(av, pv),
                    rows == av.len(),
                    cols == av[0].len(),
                    pv.len() == rows,
                    pv[0].len() == cols,
                    view_grid(self.grid).len() == rows,
                    0 <= i < rows,
                    j <= cols,
                    forall|a: int|
                        0 <= a < rows && a != i ==> #[trigger] view_grid(self.grid)[a] == (if a
                            < i {
                            sum[a]
                        } else {
                            av[a]
                        }),
                    view_grid(self.grid)[i as int] == Seq::new(
                        cols as nat,
                        |b: int|
                            if b < j {
                                av[i as int][b] + pv[i as int][b]
                            } else {
                                av[i as int][b]
                            },
                    ),
                decreases cols - j,
            {
                proof {
                    assert(av[i as int].len() == av[0].len());
                    assert(pv[i as int].len() == pv[0].len());
                    assert(av[i as int][j as int] < 4 && av[i as int][j as int] >= 0);
                    assert(pv[i as int][j as int] < 4 && pv[i as int][j as int] >= 0);
                    assert(p.grid@[i as int]@[j as int] as int == pv[i as int][j as int]);
                    assert(view_grid(self.grid)[i as int].len() == cols);
                    assert(self.grid@[i as int]@.len() == cols);
                    assert(self.grid@[i as int]@[j as int] as int == view_grid(
                        self.grid,
                    )[i as int][j as int]);
                    assert(view_grid(self.grid)[i as int][j as int] == av[i as int][j as int]);
                }
                let s = self.grid[i][j] + p.grid[i][j];
                let ghost before = view_grid(self.grid);
                let ghost prerow = self.grid@[i as int]@;
                self.grid[i][j] = s;
                proof {
                    assert forall|a: int| 0 <= a < rows && a != i implies #[trigger] view_grid(
                        self.grid,
                    )[a] == (if a < i {
                        sum[a]
                    } else {
                        av[a]
                    }) by {
                        assert(view_grid(self.grid)[a] == before[a]);
                    }
                    let target = Seq::new(
                        cols as nat,
                        |b: int|
                            if b < j + 1 {
                                av[i as int][b] + pv[i as int][b]
                            } else {
                                av[i as int][b]
                            },
                    );
                    assert(self.grid@[i as int]@ == prerow.update(j as int, s));
                    assert forall|b: int| 0 <= b < cols implies view_grid(
                        self.grid,
                    )[i as int][b] == target[b] by {
                        assert(view_grid(self.grid)[i as int][b] == self.grid@[i as int]@[b] as int);
                        if b != j as int {
                            assert(self.grid@[i as int]@[b] == prerow[b]);
                            assert(before[i as int][b] == prerow[b] as int);
                        }
                    }
                    assert(view_grid(self.grid)[i as int] =~= target);
                }
                j += 1;
            }
            proof {
                assert(sum[i as int].len() == av[i as int].len());
                assert(av[i as int].len() == av[0].len());
                assert(view_grid(self.grid)[i as int] =~= sum[i as int]);
            }
            i += 1;
        }
        proof {
            assert(sum.len() == rows && forall|a: int|
                0 <= a < rows ==> (#[trigger] sum[a]).len() == av[a].len());
            assert(view_grid(self.grid) =~= sum);
            assert forall|a: int| 0 <= a < sum.len() implies #[trigger] sum[a].len()
                == sum[0].len() by {
                assert(av[a].len() == av[0].len());
            }
            assert(rect(sum));
            lemma_view_nonneg(self.grid);
            assert(sink_ok(t, sum)) by {
                if t == GridType::Toroidal {
                    assert(sum[0][0] == av[0][0] + pv[0][0]);
                }
            }
            assert(stabilizable(t, sum));
            assert forall|a: int, b: int| in_bounds(sum, a, b) implies 0 <= #[trigger] sum[a][b]
                <= 6 by {
                assert(sum[a][b] == av[a][b] + pv[a][b]);
            }
            lemma_grid_sum_bounds(sum, 6);
            assert(6 * rows * cols <= u32::MAX) by {
                assert(12 * rows * cols <= u32::MAX);
                assert(6 * rows * cols <= 12 * rows * cols) by (nonlinear_arith)
                    requires
                        rows >= 0,
                        cols >= 0,
                ;
            }
            assert(6 * sum.len() * sum[0].len() == 6 * rows * cols);
        }
        self.topple();
        proof {
            assert(final(self).wf()) by {
                lemma_view_nonneg(self.grid);
            }
        }
        Ok(())
    }

    /// The grid of chip counts, surrendered.
    pub fn into_grid(self) -> (g: Grid)
        ensures
            view_grid(g) == self.cells(),
    {
        self.grid
    }

    /// How many topplings the most recent stabilization performed.
    pub fn last_topple(&self) -> (n: u64)
        ensures
            n == self.topples(),
    {
        self.last_topple
    }

    pub fn grid_type(&self) -> (t: GridType)
        ensures
            t == self.topo(),
    {
        self.grid_type
    }

    /// The neutral element of the sandpile group for `dims.0` columns
    /// by `dims.1` rows: derived from the stabilized all-six grid as
    /// the construction prescribes, so that adding it to any group
    /// element returns that element.
    pub fn neutral(grid_type: GridType, dims: (usize, usize)) -> (s: GridSandpile)
        requires
            dims.0 >= 1,
            dims.1 >= 1,
            12 * dims.1 * dims.0 <= u32::MAX,
            grid_type == GridType::Toroidal ==> grids_stabilize(
                grid_type,
                dims.1 as int,
                dims.0 as int,
            ),
        ensures
            s.wf(),
            s.topo() == grid_type,
            s.cells().len() == dims.1,
            s.cells()[0].len() == dims.0,
            s.cells() == neutral_cells(grid_type, dims.1 as int, dims.0 as int),
    {
        let x = dims.0;
        let y = dims.1;
        let g6 = build_const(y, x, 6);
        proof {
            lemma_sum_small(view_grid(g6), y as int, x as int, 6);
        }
        let s1 = match GridSandpile::from_grid(grid_type, g6) {
            Ok(s) => s,
            Err(_) => {
                proof {
                    assert(false);
                }
                unreached()
            },
        };
        let ghost m = s1.cells();
        proof {
            assert(m == base_six(grid_type, y as int, x as int));
        }
        let ghost six_m = Seq::new(
            m.len(),
            |a: int| Seq::new(m[a].len(), |b: int| 6 - m[a][b]),
        );
        let mut g2: Grid = Vec::new();
        let mut i: usize = 0;
        while i < y
            invariant
                s1.wf(),
                m == s1.cells(),
                m.len() == y,
                m[0].len() == x,
                six_m == Seq::new(m.len(), |a: int| Seq::new(m[a].len(), |b: int| 6 - m[a][b])),
                i <= y,
                g2@.len() == i,
                forall|a: int| 0 <= a < i ==> #[trigger] view_grid(g2)[a] == six_m[a],
            decreases y - i,
        {
            let mut row: Vec<u32> = Vec::new();
            let mut j: usize = 0;
            proof {
                assert(m[i as int].len() == m[0].len());
            }
            while j < x
                invariant
                    s1.wf(),
                    m == s1.cells(),
                    m.len() == y,
                    m[0].len() == x,
                    0 <= i < y,
                    m[i as int].len() == x,
                    j <= x,
                    row@.len() == j,
                    forall|b: int| 0 <= b < j ==> #[trigger] row@[b] as int == 6 - m[i as int][b],
                decreases x - j,
            {
                proof {
                    assert(m[i as int][j as int] < 4 && m[i as int][j as int] >= 0);
                    assert(s1.grid@[i as int]@[j as int] as int == m[i as int][j as int]);
                }
                let v = s1.grid[i][j];
                row.push(6 - v);
                j += 1;
            }
            let ghost gb = view_grid(g2);
            g2.push(row);
            proof {
                assert(view_grid(g2)[i as int] =~= six_m[i as int]);
                assert forall|a: int| 0 <= a < i + 1 implies #[trigger] view_grid(g2)[a]
                    == six_m[a] by {
                    if a < i {
                        assert(view_grid(g2)[a] == gb[a]);
                    }
                }
            }
            i += 1;
        }
        proof {
            assert(view_grid(g2) =~= six_m);
            assert forall|a: int| 0 <= a < six_m.len() implies #[trigger] six_m[a].len()
                == six_m[0].len() by {
                assert(m[a].len() == m[0].len());
            }
            assert(rect(six_m));
            assert forall|a: int, b: int| in_bounds(six_m, a, b) implies 0 <= #[trigger] six_m[a][b]
                <= 6 by {
                assert(m[a].len() == m[0].len());
                assert(m[a][b] >= 0 && m[a][b] < 4);
            }
            lemma_sum_small(six_m, y as int, x as int, 6);
            assert(g2@[0]@.len() == x);
        }
        let s2 = match GridSandpile::from_grid(grid_type, g2) {
            Ok(s) => s,
            Err(_) => {
                proof {
                    assert(false);
                }
                unreached()
            },
        };
        proof {
            assert(s2.cells() == neutral_cells(grid_type, y as int, x as int));
        }
        s2
    }

    /// The group inverse of this configuration: built from the same
    /// stabilized all-six grid `m` as the neutral element, as the
    /// stabilization of `2*(6 - m) - x` after sink normalization.
    pub fn inverse(&self) -> (s: GridSandpile)
        requires
            self.wf(),
        ensures
            s.wf(),
            s.topo() == self.topo(),
            s.cells().len() == self.cells().len(),
            s.cells()[0].len() == self.cells()[0].len(),
            s.cells() == inverse_cells(self.topo(), self.cells()),
    {
        let ghost xv = self.cells();
        let y = self.grid.len();
        let x = self.grid[0].len();
        let g6 = build_const(y, x, 6);
        proof {
            lemma_sum_small(view_grid(g6), y as int, x as int, 6);
        }
        let s1 = match GridSandpile::from_grid(self.grid_type, g6) {
            Ok(s) => s,
            Err(_) => {
                proof {
                    assert(false);
                }
                unreached()
            },
        };
        let ghost m = s1.cells();
        proof {
            assert(m == base_six(self.topo(), y as int, x as int));
        }
        let ghost tv = Seq::new(
            xv.len(),
            |a: int| Seq::new(xv[a].len(), |b: int| 2 * (6 - m[a][b]) - xv[a][b]),
        );
        let mut g2: Grid = Vec::new();
        let mut i: usize = 0;
        while i < y
            invariant
                self.wf(),
                s1.wf(),
                xv == self.cells(),
                m == s1.cells(),
                m.len() == y,
                m[0].len() == x,
                xv.len() == y,
                xv[0].len() == x,
                tv == Seq::new(
                    xv.len(),
                    |a: int| Seq::new(xv[a].len(), |b: int| 2 * (6 - m[a][b]) - xv[a][b]),
                ),
                i <= y,
                g2@.len() == i,
                forall|a: int| 0 <= a < i ==> #[trigger] view_grid(g2)[a] == tv[a],
            decreases y - i,
        {
            let mut row: Vec<u32> = Vec::new();
            let mut j: usize = 0;
            proof {
                assert(m[i as int].len() == m[0].len());
                assert(xv[i as int].len() == xv[0].len());
            }
            while j < x
                invariant
                    self.wf(),
                    s1.wf(),
                    xv == self.cells(),
                    m == s1.cells(),
                    m.len() == y,
                    m[0].len() == x,
                    xv.len() == y,
                    xv[0].len() == x,
                    0 <= i < y,
                    m[i as int].len() == x,
                    xv[i as int].len() == x,
                    j <= x,
                    row@.len() == j,
                    forall|b: int|
                        0 <= b < j ==> #[trigger] row@[b] as int == 2 * (6 - m[i as int][b])
                            - xv[i as int][b],
                decreases x - j,
            {
                proof {
                    assert(m[i as int][j as int] < 4 && m[i as int][j as int] >= 0);
                    assert(xv[i as int][j as int] < 4 && xv[i as int][j as int] >= 0);
                    assert(s1.grid@[i as int]@[j as int] as int == m[i as int][j as int]);
                    assert(self.grid@[i as int]@[j as int] as int == xv[i as int][j as int]);
                }
                let mv = s1.grid[i][j];
                let ov = self.grid[i][j];
                row.push(2 * (6 - mv) - ov);
                j += 1;
            }
            let ghost gb = view_grid(g2);
            g2.push(row);
            proof {
                assert(view_grid(g2)[i as int] =~= tv[i as int]);
                assert forall|a: int| 0 <= a < i + 1 implies #[trigger] view_grid(g2)[a]
                    == tv[a] by {
                    if a < i {
                        assert(view_grid(g2)[a] == gb[a]);
                    }
                }
            }
            i += 1;
        }
        proof {
            assert(view_grid(g2) =~= tv);
            assert forall|a: int| 0 <= a < tv.len() implies #[trigger] tv[a].len()
                == tv[0].len() by {
                assert(xv[a].len() == xv[0].len());
            }
            assert(rect(tv));
            assert forall|a: int, b: int| in_bounds(tv, a, b) implies 0 <= #[trigger] tv[a][b]
                <= 12 by {
                assert(m[a].len() == m[0].len());
                assert(xv[a].len() == xv[0].len());
                assert(m[a][b] >= 0 && m[a][b] < 4);
                assert(xv[a][b] >= 0 && xv[a][b] < 4);
            }
            lemma_sum_small(tv, y as int, x as int, 12);
            assert(g2@[0]@.len() == x);
        }
        let s2 = match GridSandpile::from_grid(self.grid_type, g2) {
            Ok(s) => s,
            Err(_) => {
                proof {
                    assert(false);
                }
                unreached()
            },
        };
        proof {
            assert(s2.cells() == inverse_cells(self.topo(), xv));
        }
        s2
    }

    /// The order of this configuration under repeated addition: the
    /// count returned is the least `n >= 1` with `(n+1)` summed copies
    /// of the configuration stabilizing back to it.
    pub fn order(&self) -> (count: u64)
        requires
            self.wf(),
            exists|n: nat|
                1 <= n < u64::MAX as nat && #[trigger] iter_sum(self.topo(), self.cells(), n + 1)
                    == self.cells(),
        ensures
            count >= 1,
            iter_sum(self.topo(), self.cells(), count as nat + 1) == self.cells(),
            forall|k: nat|
                2 <= k <= count ==> iter_sum(self.topo(), self.cells(), k) != self.cells(),
    {
        let ghost t = self.topo();
        let ghost x = self.cells();
        let ghost n = choose|n: nat|
            1 <= n < u64::MAX as nat && #[trigger] iter_sum(t, x, n + 1) == x;
        let mut a = self.duplicate();
        let r1 = a.add(self);
        proof {
            assert(r1 matches Ok(_));
            assert(iter_sum(t, x, 2) == stab(t, cell_sum(iter_sum(t, x, 1), x)) && iter_sum(
                t,
                x,
                1,
            ) == x) by {
                reveal_with_fuel(iter_sum, 3);
            }
        }
        let mut count: u64 = 1;
        while !a.eq(self)
            invariant
                self.wf(),
                a.wf(),
                t == self.topo(),
                x == self.cells(),
                a.topo() == t,
                same_dims(a.cells(), x),
                1 <= count <= n,
                1 <= n < u64::MAX as nat,
                iter_sum(t, x, n + 1) == x,
                a.cells() == iter_sum(t, x, count as nat + 1),
                forall|k: nat| 2 <= k <= count ==> iter_sum(t, x, k) != x,
            decreases n - count,
        {
            proof {
                assert(a.cells() != x);
                assert(count < n) by {
                    if count == n {
                        assert(a.cells() == iter_sum(t, x, n + 1));
                    }
                }
            }
            let r2 = a.add(self);
            proof {
                assert(r2 matches Ok(_));
                assert(iter_sum(t, x, count as nat + 2) == stab(
                    t,
                    cell_sum(iter_sum(t, x, count as nat + 1), x),
                )) by {
                    reveal_with_fuel(iter_sum, 2);
                }
            }
            count = count + 1;
        }
        count
    }

    /// Number of rows of the grid.
    pub(crate) fn grid_rows(&self) -> (n: usize)
        ensures
            n == self.cells().len(),
    {
        self.grid.len()
    }

    /// Length of row `i`.
    pub(crate) fn grid_cols(&self, i: usize) -> (n: usize)
        requires
            i < self.cells().len(),
        ensures
            n == self.cells()[i as int].len(),
    {
        self.grid[i].len()
    }

    /// The chip count at `(i,j)`.
    pub(crate) fn grid_cell(&self, i: usize, j: usize) -> (v: u32)
        requires
            i < self.cells().len(),
            j < self.cells()[i as int].len(),
        ensures
            v as int == self.cells()[i as int][j as int],
    {
        self.grid[i][j]
    }

    /// A fresh configuration with the same topology, counts and
    /// statistic.
    fn duplicate(&self) -> (r: GridSandpile)
        ensures
            r.topo() == self.topo(),
            r.cells() == self.cells(),
            r.topples() == self.topples(),
    {
        GridSandpile {
            grid_type: self.grid_type,
            grid: copy_grid(&self.grid),
            last_topple: self.last_topple,
        }
    }
}

} // verus!
