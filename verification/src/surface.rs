//! Pixels as they lie in the memory of a 32-bit surface: blue, green, red, alpha, row by row.

use vstd::prelude::*;

verus! {

/// One pixel, its colours already multiplied by its alpha.
#[derive(Clone, Copy, Debug, PartialEq, Eq, Structural)]
pub struct Bgra {
    pub b: u8,
    pub g: u8,
    pub r: u8,
    pub a: u8,
}

/// Nothing at all: the pixel that a fresh surface is filled with.
pub open spec fn clear() -> Bgra {
    Bgra { b: 0, g: 0, r: 0, a: 0 }
}

/// The byte of `p` that lies `k` bytes behind its first.
pub open spec fn component(p: Bgra, k: int) -> u8 {
    if k == 0 {
        p.b
    } else if k == 1 {
        p.g
    } else if k == 2 {
        p.r
    } else {
        p.a
    }
}

/// The `stride` bytes of a row: its pixels, four bytes each, then zeros.
pub open spec fn row_bytes(row: Seq<Bgra>, stride: nat) -> Seq<u8> {
    Seq::new(
        stride,
        |o: int|
            if o / 4 < row.len() {
                component(row[o / 4], o % 4)
            } else {
                0
            },
    )
}

/// The bytes of a surface: its rows, one behind the other.
pub open spec fn surface_bytes(rows: Seq<Seq<Bgra>>, stride: nat) -> Seq<u8>
    decreases rows.len(),
{
    if rows.len() == 0 {
        Seq::empty()
    } else {
        surface_bytes(rows.drop_last(), stride) + row_bytes(rows.last(), stride)
    }
}

/// A surface takes `stride` bytes for each row.
pub proof fn law_surface_size(rows: Seq<Seq<Bgra>>, stride: nat)
    ensures
        surface_bytes(rows, stride).len() == rows.len() * stride,
    decreases rows.len(),
{
    if rows.len() > 0 {
        law_surface_size(rows.drop_last(), stride);
        assert(rows.len() * stride == (rows.len() - 1) * stride + stride) by (nonlinear_arith)
            requires
                rows.len() > 0,
        ;
    }
}

/// The pixel in column `x` of row `y` lies at `y * stride + 4 * x`.
pub proof fn law_pixel_place(rows: Seq<Seq<Bgra>>, stride: nat, x: int, y: int, k: int)
    requires
        0 <= y < rows.len(),
        0 <= x < rows[y].len(),
        4 * rows[y].len() <= stride,
        0 <= k < 4,
    ensures
        0 <= y * stride + 4 * x + k < surface_bytes(rows, stride).len(),
        surface_bytes(rows, stride)[y * stride + 4 * x + k] == component(rows[y][x], k),
    decreases rows.len(),
{
    let front = rows.drop_last();
    law_surface_size(rows, stride);
    law_surface_size(front, stride);
    assert(rows.len() * stride == (rows.len() - 1) * stride + stride) by (nonlinear_arith)
        requires
            rows.len() > 0,
    ;
    assert(y * stride >= 0) by (nonlinear_arith)
        requires
            y >= 0,
            stride >= 0,
    ;
    if y < rows.len() - 1 {
        law_pixel_place(front, stride, x, y, k);
    } else {
        assert((4 * x + k) / 4 == x);
        assert((4 * x + k) % 4 == k);
    }
}

/// Adds the bytes of one row behind those of the rows before it.
pub fn push_row(out: &mut Vec<u8>, row: &Vec<Bgra>, stride: usize)
    ensures
        final(out)@ == old(out)@ + row_bytes(row@, stride as nat),
{
    let mut o: usize = 0;
    while o < stride
        invariant
            o <= stride,
            out@ =~= old(out)@ + row_bytes(row@, stride as nat).take(o as int),
        decreases stride - o,
    {
        let v: u8 = if o / 4 < row.len() {
            let p = row[o / 4];
            let k = o % 4;
            if k == 0 {
                p.b
            } else if k == 1 {
                p.g
            } else if k == 2 {
                p.r
            } else {
                p.a
            }
        } else {
            0
        };
        out.push(v);
        o = o + 1;
    }
}

/// At the place of a pixel stand its blue, green, red and alpha, in this order, and behind the
/// last pixel of a row zeros.
pub proof fn law_pixel_bytes(rows: Seq<Seq<Bgra>>, stride: nat, x: int, y: int, o: int)
    requires
        0 <= y < rows.len(),
        4 * rows[y].len() <= stride,
    ensures
        0 <= x < rows[y].len() ==> {
            let s = surface_bytes(rows, stride);
            let at = y * stride + 4 * x;
            &&& s[at] == rows[y][x].b
            &&& s[at + 1] == rows[y][x].g
            &&& s[at + 2] == rows[y][x].r
            &&& s[at + 3] == rows[y][x].a
        },
        4 * rows[y].len() <= o < stride ==> surface_bytes(rows, stride)[y * stride + o] == 0,
    decreases rows.len(),
{
    if 0 <= x < rows[y].len() {
        law_pixel_place(rows, stride, x, y, 0);
        law_pixel_place(rows, stride, x, y, 1);
        law_pixel_place(rows, stride, x, y, 2);
        law_pixel_place(rows, stride, x, y, 3);
    }
    let front = rows.drop_last();
    law_surface_size(front, stride);
    assert(y * stride >= 0) by (nonlinear_arith)
        requires
            y >= 0,
            stride >= 0,
    ;
    if 4 * rows[y].len() <= o < stride {
        if y < rows.len() - 1 {
            law_pixel_bytes(front, stride, x, y, o);
            assert(y * stride + stride <= (rows.len() - 1) * stride) by (nonlinear_arith)
                requires
                    y + 1 <= rows.len() - 1,
                    stride >= 0,
            ;
        } else {
            assert(o / 4 >= rows[y].len());
        }
    }
}

} // verus!
