//! The text adapter: a five-glyph alphabet maps characters to chip
//! counts, lines map to rows. Parsing follows the usual line
//! conventions: `\n` ends a row, and a carriage return directly before
//! it is dropped.
use vstd::prelude::*;
use crate::model::{
    GridType, grid_sum, grids_stabilize, in_bounds, normalize, rect, sink_ok, stab,
    stabilizes_to, stable,
};
use crate::sandpile::{Grid, GridSandpile, SandpileError, view_grid, view_row};
use vstd::pervasive::unreached;
use vstd::std_specs::iter::IteratorSpec;

verus! {

/// The chip count a glyph stands for, or a negative value for a
/// character outside the alphabet.
pub open spec fn glyph_val(c: char) -> int {
    if c == ' ' {
        0
    } else if c == '.' {
        1
    } else if c == ':' {
        2
    } else if c == '&' {
        3
    } else if c == '#' {
        4
    } else {
        -1
    }
}

/// The glyph for a chip count; anything of four or more is shown as
/// the full cell.
pub open spec fn glyph_of(v: int) -> char {
    if v == 0 {
        ' '
    } else if v == 1 {
        '.'
    } else if v == 2 {
        ':'
    } else if v == 3 {
        '&'
    } else {
        '#'
    }
}

/// One pass over the characters: `cur` is the row being read, `acc`
/// the rows already read, and `pending_cr` records a carriage return
/// whose fate depends on the next character. The result is the grid of
/// counts, or the first character that fits no glyph.
pub open spec fn parse_glyphs(
    s: Seq<char>,
    cur: Seq<int>,
    acc: Seq<Seq<int>>,
    pending_cr: bool,
) -> Result<Seq<Seq<int>>, char>
    decreases s.len(),
{
    if s.len() == 0 {
        if pending_cr {
            Err('\r')
        } else if cur.len() == 0 {
            Ok(acc)
        } else {
            Ok(acc.push(cur))
        }
    } else {
        let c = s[0];
        if c == '\n' {
            parse_glyphs(s.drop_first(), Seq::empty(), acc.push(cur), false)
        } else if pending_cr {
            Err('\r')
        } else if c == '\r' {
            parse_glyphs(s.drop_first(), cur, acc, true)
        } else if glyph_val(c) >= 0 {
            parse_glyphs(s.drop_first(), cur.push(glyph_val(c)), acc, false)
        } else {
            Err(c)
        }
    }
}

/// The grid of counts that the text stands for, or its first
/// unreadable character.
pub open spec fn parsed_grid(s: Seq<char>) -> Result<Seq<Seq<int>>, char> {
    parse_glyphs(s, Seq::empty(), Seq::empty(), false)
}

/// The text a grid renders to: one glyph per cell, one line per row,
/// each line closed by a newline.
pub open spec fn render(g: Seq<Seq<int>>) -> Seq<char>
    decreases g.len(),
{
    if g.len() == 0 {
        Seq::empty()
    } else {
        g[0].map_values(|v: int| glyph_of(v)) + seq!['\n'] + render(g.drop_first())
    }
}

/// The characters of the string, in order.
fn chars_of_str(s: &String) -> (r: Vec<char>)
    ensures
        r@ == s@,
{
    broadcast use vstd::string::next_postcondition;

    let mut it = s.as_str().chars();
    let mut r: Vec<char> = Vec::new();
    proof {
        assert(it.remaining() == s@);
    }
    loop
        invariant
            it.obeys_prophetic_iter_laws(),
            r@ + it.remaining() == s@,
            r@.len() <= s@.len(),
        ensures
            r@ == s@,
        decreases s@.len() - r@.len(),
    {
        match it.next() {
            Some(c) => {
                r.push(c);
                proof {
                    assert(r@ + it.remaining() =~= s@);
                }
            },
            None => {
                proof {
                    assert(r@ + it.remaining() =~= r@);
                }
                break ;
            },
        }
    }
    r
}

/// The string holding exactly the given characters.
pub(crate) fn string_from_chars(v: Vec<char>) -> (r: String)
    ensures
        r@ == v@,
{
    let mut r = String::new();
    let mut i: usize = 0;
    while i < v.len()
        invariant
            i <= v@.len(),
            r@ == v@.take(i as int),
        decreases v@.len() - i,
    {
        crate::sandpile::push_char(&mut r, v[i]);
        proof {
            assert(r@ =~= v@.take(i as int + 1));
        }
        i += 1;
    }
    proof {
        assert(v@.take(v@.len() as int) =~= v@);
    }
    r
}

impl GridSandpile {
    /// Parses a glyph block into a configuration: the parsed grid must
    /// be non-empty, rectangular and exactly of the promised width and
    /// height; the result is its stabilization.
    pub fn from_string(grid_type: GridType, dims: (usize, usize), s: String) -> (r: Result<
        GridSandpile,
        SandpileError,
    >)
        requires
            12 * dims.1 * dims.0 <= u32::MAX,
            grid_type == GridType::Toroidal ==> grids_stabilize(
                grid_type,
                dims.1 as int,
                dims.0 as int,
            ),
        ensures
            match r {
                Ok(sp) => {
                    &&& parsed_grid(s@) matches Ok(g)
                    &&& dims.0 >= 1
                    &&& dims.1 >= 1
                    &&& rect(g)
                    &&& g.len() == dims.1
                    &&& g[0].len() == dims.0
                    &&& sp.wf()
                    &&& sp.topo() == grid_type
                    &&& sp.cells() == stab(grid_type, normalize(grid_type, g))
                    &&& stabilizes_to(grid_type, normalize(grid_type, g), sp.cells())
                    &&& (stable(g) && sink_ok(grid_type, g) ==> sp.cells() == g && sp.topples()
                        == 0)
                },
                Err(e) => match e {
                    SandpileError::UnknownSymbol(c) => parsed_grid(s@) == Err::<
                        Seq<Seq<int>>,
                        char,
                    >(c),
                    SandpileError::EmptyGrid => parsed_grid(s@) matches Ok(g) && (dims.0 == 0
                        || dims.1 == 0 || g.len() == 0),
                    SandpileError::EmptyFirstRow(gr) => parsed_grid(s@) matches Ok(g) && dims.0
                        >= 1 && dims.1 >= 1 && g.len() > 0 && g[0].len() == 0 && view_grid(gr)
                        == g,
                    SandpileError::UnequalRowLengths(gr, l, idx, l2) => parsed_grid(s@) matches Ok(
                        g,
                    ) && dims.0 >= 1 && dims.1 >= 1 && g.len() > 0 && g[0].len() == l && l > 0 && 0
                        < idx < g.len() && g[idx as int].len() == l2 && l2 != l && view_grid(gr)
                        == g,
                    SandpileError::UnequalDimensions(ex, ey, gy, gx) => parsed_grid(s@) matches Ok(
                        g,
                    ) && dims.0 >= 1 && dims.1 >= 1 && rect(g) && !(g.len() == dims.1 && g[0].len()
                        == dims.0) && ex == dims.0 && ey == dims.1 && gy == g.len() && gx
                        == g[0].len(),
                    _ => false,
                },
            },
    {
        let x = dims.0;
        let y = dims.1;
        let chars = chars_of_str(&s);
        let ghost total = parsed_grid(s@);
        let mut g: Grid = Vec::new();
        let mut row: Vec<u32> = Vec::new();
        let mut pending_cr: bool = false;
        let mut pos: usize = 0;
        proof {
            assert(s@.skip(0) =~= s@);
            assert(view_row(row) =~= Seq::<int>::empty());
            assert(view_grid(g) =~= Seq::<Seq<int>>::empty());
        }
        while pos < chars.len()
            invariant
                chars@ == s@,
                pos <= s@.len(),
                total == parsed_grid(s@),
                parse_glyphs(s@.skip(pos as int), view_row(row), view_grid(g), pending_cr)
                    == total,
                forall|m: int, b: int|
                    0 <= m < g@.len() && 0 <= b < g@[m]@.len() ==> #[trigger] g@[m]@[b] <= 4,
                forall|b: int| 0 <= b < row@.len() ==> #[trigger] row@[b] <= 4,
            decreases s@.len() - pos,
        {
            let c = chars[pos];
            proof {
                assert(s@.skip(pos as int)[0] == s@[pos as int]);
                assert(s@.skip(pos as int).drop_first() =~= s@.skip(pos as int + 1));
            }
            if c == '\n' {
                let ghost vg = view_grid(g);
                let ghost vr = view_row(row);
                g.push(row);
                proof {
                    assert(view_grid(g)[g@.len() - 1] =~= vr);
                    assert(view_grid(g) =~= vg.push(vr));
                }
                row = Vec::new();
                pending_cr = false;
                proof {
                    assert(view_row(row) =~= Seq::<int>::empty());
                }
            } else if pending_cr {
                return Err(SandpileError::UnknownSymbol('\r'));
            } else if c == '\r' {
                pending_cr = true;
            } else {
                let v: u32 = if c == ' ' {
                    0
                } else if c == '.' {
                    1
                } else if c == ':' {
                    2
                } else if c == '&' {
                    3
                } else if c == '#' {
                    4
                } else {
                    return Err(SandpileError::UnknownSymbol(c));
                };
                let ghost vr = view_row(row);
                proof {
                    assert(v as int == glyph_val(c));
                }
                row.push(v);
                proof {
                    assert(view_row(row) =~= vr.push(glyph_val(c)));
                }
            }
            pos += 1;
        }
        proof {
            assert(s@.skip(s@.len() as int) =~= Seq::<char>::empty());
        }
        if pending_cr {
            return Err(SandpileError::UnknownSymbol('\r'));
        }
        if row.len() > 0 {
            let ghost vg = view_grid(g);
            let ghost vr = view_row(row);
            g.push(row);
            proof {
                assert(view_grid(g)[g@.len() - 1] =~= vr);
                assert(view_grid(g) =~= vg.push(vr));
            }
        }
        let ghost pg = view_grid(g);
        proof {
            assert(total == Ok::<Seq<Seq<int>>, char>(pg));
        }
        if y == 0 || x == 0 || g.len() == 0 {
            return Err(SandpileError::EmptyGrid);
        }
        let l = g[0].len();
        if l == 0 {
            return Err(SandpileError::EmptyFirstRow(g));
        }
        let mut i: usize = 1;
        while i < g.len()
            invariant
                pg == view_grid(g),
                total == parsed_grid(s@),
                total == Ok::<Seq<Seq<int>>, char>(pg),
                x == dims.0,
                y == dims.1,
                x >= 1,
                y >= 1,
                1 <= i <= g@.len(),
                g@.len() > 0,
                l == g@[0]@.len(),
                l > 0,
                forall|m: int| 1 <= m < i ==> #[trigger] g@[m]@.len() == l,
                forall|m: int, b: int|
                    0 <= m < g@.len() && 0 <= b < g@[m]@.len() ==> #[trigger] g@[m]@[b] <= 4,
            decreases g@.len() - i,
        {
            let l2 = g[i].len();
            if l2 != l {
                proof {
                    assert(pg[i as int].len() == g@[i as int]@.len());
                    assert(pg[0].len() == g@[0]@.len());
                }
                return Err(SandpileError::UnequalRowLengths(g, l, i, l2));
            }
            i += 1;
        }
        proof {
            assert forall|m: int| 0 <= m < pg.len() implies #[trigger] pg[m].len()
                == pg[0].len() by {
                assert(pg[m].len() == g@[m]@.len());
            }
            assert(rect(pg));
        }
        if g.len() != y || g[0].len() != x {
            return Err(SandpileError::UnequalDimensions(x, y, g.len(), g[0].len()));
        }
        proof {
            assert forall|a: int, b: int| in_bounds(pg, a, b) implies 0 <= #[trigger] pg[a][b]
                <= 4 by {
                assert(pg[a].len() == g@[a]@.len());
                assert(pg[a][b] == g@[a]@[b] as int);
            }
            crate::sandpile::lemma_sum_small(pg, y as int, x as int, 4);
        }
        match GridSandpile::from_grid(grid_type, g) {
            Ok(sp) => Ok(sp),
            Err(_) => {
                proof {
                    assert(false);
                }
                unreached()
            },
        }
    }

    /// The glyph block this configuration renders to, one line per
    /// row.
    pub fn to_text(&self) -> (r: String)
        requires
            self.wf(),
        ensures
            r@ == render(self.cells()),
    {
        let ghost cs = self.cells();
        let mut out: Vec<char> = Vec::new();
        let rows = self.grid_rows();
        let mut i: usize = 0;
        proof {
            assert(cs.skip(0) =~= cs);
            assert(out@ + render(cs) =~= render(cs));
        }
        while i < rows
            invariant
                self.wf(),
                cs == self.cells(),
                rows == cs.len(),
                i <= rows,
                out@ + render(cs.skip(i as int)) == render(cs),
            decreases rows - i,
        {
            proof {
                assert(cs.skip(i as int)[0] == cs[i as int]);
                assert(cs.skip(i as int).drop_first() =~= cs.skip(i as int + 1));
                assert(cs[i as int].len() == cs[0].len());
            }
            let cols = self.grid_cols(i);
            let ghost line = cs[i as int].map_values(|v: int| glyph_of(v));
            let ghost start = out@;
            let mut j: usize = 0;
            while j < cols
                invariant
                    self.wf(),
                    cs == self.cells(),
                    0 <= i < cs.len(),
                    cols == cs[i as int].len(),
                    line == cs[i as int].map_values(|v: int| glyph_of(v)),
                    j <= cols,
                    out@ == start + line.take(j as int),
                decreases cols - j,
            {
                let v = self.grid_cell(i, j);
                let c: char = if v == 0 {
                    ' '
                } else if v == 1 {
                    '.'
                } else if v == 2 {
                    ':'
                } else if v == 3 {
                    '&'
                } else {
                    '#'
                };
                proof {
                    assert(c == glyph_of(cs[i as int][j as int]));
                }
                out.push(c);
                proof {
                    assert(line.take(j as int).push(line[j as int]) =~= line.take(j as int + 1));
                }
                j += 1;
            }
            out.push('\n');
            proof {
                assert(line.take(cols as int) =~= line);
                assert(out@ =~= start + (line + seq!['\n']));
                assert(start + (line + seq!['\n']) + render(cs.skip(i as int + 1)) =~= start
                    + render(cs.skip(i as int)));
            }
            i += 1;
        }
        proof {
            assert(cs.skip(rows as int) =~= Seq::<Seq<int>>::empty());
            assert(out@ + render(cs.skip(rows as int)) =~= out@);
        }
        string_from_chars(out)
    }
}

} // verus!
