//! The raster adapter: chip counts 0 to 3 map to four fixed RGBA
//! colours, one pixel per cell, and the pixel rows are PNG-encoded.
use vstd::prelude::*;
use crate::model::{Cells, nonneg, rect, stable};
use crate::sandpile::{Grid, view_grid};

verus! {

/// Channel `k` (red, green, blue, alpha in turn) of the colour drawn
/// for a cell of `v` chips.
pub open spec fn channel(v: int, k: int) -> u8 {
    if v == 0 {
        if k == 3 {
            255
        } else {
            0
        }
    } else if v == 1 {
        if k == 0 {
            64
        } else if k == 1 {
            128
        } else if k == 2 {
            0
        } else {
            255
        }
    } else if v == 2 {
        if k == 0 {
            118
        } else if k == 1 {
            8
        } else if k == 2 {
            170
        } else {
            255
        }
    } else {
        if k == 0 {
            255
        } else if k == 1 {
            214
        } else if k == 2 {
            0
        } else {
            255
        }
    }
}

/// Four RGBA bytes for every cell of a row, in order.
pub open spec fn row_pixels(r: Seq<int>) -> Seq<u8>
    decreases r.len(),
{
    if r.len() == 0 {
        Seq::empty()
    } else {
        seq![channel(r[0], 0), channel(r[0], 1), channel(r[0], 2), channel(r[0], 3)] + row_pixels(
            r.drop_first(),
        )
    }
}

/// The row-major RGBA pixel bytes of a whole grid.
pub open spec fn grid_pixels(g: Cells) -> Seq<u8>
    decreases g.len(),
{
    if g.len() == 0 {
        Seq::empty()
    } else {
        row_pixels(g[0]) + grid_pixels(g.drop_first())
    }
}

/// The PNG encoding of an 8-bit RGBA image: a fixed function of the
/// dimensions and the pixel bytes alone.
pub uninterp spec fn png_encoding(width: int, height: int, pixels: Seq<u8>) -> Seq<u8>;

/// Relies on repng::encode: writing into a byte buffer, it produces
/// the PNG encoding of the given 8-bit RGBA pixel rows, a function of
/// width, height and pixels alone. It demands whole pixel rows and a
/// positive width. It succeeds: its only error path passes on a sink
/// write error, and writing into a `Vec` cannot fail.
#[verifier::external_body]
fn encode_png(width: u32, height: u32, pixels: &Vec<u8>) -> (r: Option<Vec<u8>>)
    requires
        width >= 1,
        pixels@.len() == 4 * width * height,
    ensures
        r is Some,
        r matches Some(b) ==> b@ == png_encoding(width as int, height as int, pixels@),
{
    let mut out: Vec<u8> = Vec::new();
    match repng::encode(&mut out, width, height, pixels.as_slice()) {
        Ok(()) => Some(out),
        Err(_) => None,
    }
}

/// The PNG image of a stable grid: one pixel per cell, colours by
/// chip count.
pub fn png_data(grid: &Grid) -> (r: Option<Vec<u8>>)
    requires
        rect(view_grid(*grid)),
        nonneg(view_grid(*grid)),
        stable(view_grid(*grid)),
        view_grid(*grid).len() <= u32::MAX,
        view_grid(*grid)[0].len() <= u32::MAX,
    ensures
        r is Some,
        r matches Some(b) ==> b@ == png_encoding(
            view_grid(*grid)[0].len() as int,
            view_grid(*grid).len() as int,
            grid_pixels(view_grid(*grid)),
        ),
{
    let ghost v = view_grid(*grid);
    let rows = grid.len();
    let cols = grid[0].len();
    let mut px: Vec<u8> = Vec::new();
    let mut i: usize = 0;
    proof {
        assert(v.skip(0) =~= v);
        assert(px@ + grid_pixels(v) =~= grid_pixels(v));
    }
    while i < rows
        invariant
            v == view_grid(*grid),
            rect(v),
            nonneg(v),
            stable(v),
            rows == v.len(),
            cols == v[0].len(),
            i <= rows,
            px@ + grid_pixels(v.skip(i as int)) == grid_pixels(v),
            px@.len() == 4 * i * cols,
        decreases rows - i,
    {
        proof {
            assert(v.skip(i as int)[0] == v[i as int]);
            assert(v.skip(i as int).drop_first() =~= v.skip(i as int + 1));
            assert(v[i as int].len() == v[0].len());
            assert(grid@[i as int]@.len() == v[i as int].len());
        }
        let ghost rowv = v[i as int];
        let ghost start = px@;
        let mut j: usize = 0;
        proof {
            assert(rowv.skip(0) =~= rowv);
            assert(px@ + row_pixels(rowv) =~= start + row_pixels(rowv));
        }
        while j < cols
            invariant
                v == view_grid(*grid),
                rect(v),
                nonneg(v),
                stable(v),
                rows == v.len(),
                cols == v[0].len(),
                0 <= i < rows,
                rowv == v[i as int],
                rowv.len() == cols,
                grid@[i as int]@.len() == cols,
                j <= cols,
                px@ + row_pixels(rowv.skip(j as int)) == start + row_pixels(rowv),
                px@.len() == start.len() + 4 * j,
            decreases cols - j,
        {
            proof {
                assert(rowv.skip(j as int)[0] == rowv[j as int]);
                assert(rowv.skip(j as int).drop_first() =~= rowv.skip(j as int + 1));
                assert(grid@[i as int]@[j as int] as int == rowv[j as int]);
                assert(rowv[j as int] >= 0 && rowv[j as int] < 4);
            }
            let cell = grid[i][j];
            let ghost before = px@;
            let red: u8;
            let green: u8;
            let blue: u8;
            if cell == 0 {
                red = 0;
                green = 0;
                blue = 0;
            } else if cell == 1 {
                red = 64;
                green = 128;
                blue = 0;
            } else if cell == 2 {
                red = 118;
                green = 8;
                blue = 170;
            } else {
                red = 255;
                green = 214;
                blue = 0;
            }
            px.push(red);
            px.push(green);
            px.push(blue);
            px.push(255);
            proof {
                let c0 = rowv[j as int];
                assert(red == channel(c0, 0) && green == channel(c0, 1) && blue == channel(c0, 2));
                assert(px@ =~= before + seq![
                    channel(c0, 0),
                    channel(c0, 1),
                    channel(c0, 2),
                    channel(c0, 3),
                ]);
                assert(before + (seq![
                    channel(c0, 0),
                    channel(c0, 1),
                    channel(c0, 2),
                    channel(c0, 3),
                ] + row_pixels(rowv.skip(j as int + 1))) =~= before + row_pixels(
                    rowv.skip(j as int),
                ));
                assert(px@ + row_pixels(rowv.skip(j as int + 1)) =~= before + row_pixels(
                    rowv.skip(j as int),
                ));
            }
            j += 1;
        }
        proof {
            assert(rowv.skip(cols as int) =~= Seq::<int>::empty());
            assert(px@ + row_pixels(Seq::<int>::empty()) =~= px@);
            assert(px@ + grid_pixels(v.skip(i as int + 1)) =~= start + (row_pixels(rowv)
                + grid_pixels(v.skip(i as int + 1))));
            assert(4 * (i + 1) * cols == 4 * i * cols + 4 * cols) by (nonlinear_arith);
        }
        i += 1;
    }
    proof {
        assert(v.skip(rows as int) =~= Seq::<Seq<int>>::empty());
        assert(px@ + grid_pixels(Seq::<Seq<int>>::empty()) =~= px@);
        assert(px@.len() == 4 * cols * rows) by (nonlinear_arith)
            requires
                px@.len() == 4 * rows * cols,
        ;
    }
    let width = cols as u32;
    let height = rows as u32;
    encode_png(width, height, &px)
}

} // verus!
