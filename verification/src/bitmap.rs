//! Pictures in the common raster formats, once they have been read.

use vstd::prelude::*;

use crate::surface::{
    clear, component, law_pixel_bytes, law_pixel_place, law_surface_size, push_row, surface_bytes,
    Bgra,
};

verus! {

/// A picture of `width` times `height` pixels, each of them red, green, blue and alpha.
#[derive(Debug)]
pub struct Bitmap {
    pub width: u32,
    pub height: u32,
    pub data: Vec<u8>,
}

/// One channel multiplied by alpha.
pub open spec fn weighted(v: u8, a: u8) -> u8 {
    (v as int * a as int / 255) as u8
}

/// A pixel whose colours are multiplied by its alpha.
pub open spec fn premultiplied(r: u8, g: u8, b: u8, a: u8) -> Bgra {
    Bgra { b: weighted(b, a), g: weighted(g, a), r: weighted(r, a), a }
}

/// Whether there are four bytes for each pixel.
pub open spec fn covers(width: u32, height: u32, data: Seq<u8>) -> bool {
    4 * (width as int * height as int) <= data.len()
}

/// The pixel in column `x` of row `y`.
pub open spec fn bitmap_pixel(width: u32, data: Seq<u8>, x: int, y: int) -> Bgra {
    let at = 4 * (y * width + x);
    premultiplied(data[at], data[at + 1], data[at + 2], data[at + 3])
}

/// The pixels, row by row.
pub open spec fn bitmap_rows(width: u32, height: u32, data: Seq<u8>) -> Seq<Seq<Bgra>> {
    Seq::new(
        height as nat,
        |y: int| Seq::new(width as nat, |x: int| bitmap_pixel(width, data, x, y)),
    )
}

fn weigh(v: u8, a: u8) -> (r: u8)
    ensures
        r == weighted(v, a),
        r <= a,
{
    assert(v as int * a as int <= 255 * a) by (nonlinear_arith)
        requires
            v <= 255,
            a >= 0,
    ;
    assert(v as int * a as int >= 0) by (nonlinear_arith)
        requires
            v >= 0,
            a >= 0,
    ;
    assert(255 * a <= 65025);
    (v as u32 * a as u32 / 255) as u8
}

impl Bitmap {
    /// Whether there are four bytes for each pixel.
    pub open spec fn wf(self) -> bool {
        covers(self.width, self.height, self.data@)
    }

    /// The picture of `width` times `height` pixels that `data` holds; `None` where there are not
    /// four bytes for each of them.
    pub fn new(width: u32, height: u32, data: Vec<u8>) -> (r: Option<Self>)
        ensures
            match r {
                Some(m) => m == (Bitmap { width, height, data }) && m.wf(),
                None => !covers(width, height, data@),
            },
    {
        assert(width as int * height as int <= 0xffff_ffff * 0xffff_ffff) by (nonlinear_arith)
            requires
                width <= 0xffff_ffff,
                height <= 0xffff_ffff,
        ;
        let bytes: u128 = 4 * (width as u128 * height as u128);
        if bytes <= data.len() as u128 {
            Some(Bitmap { width, height, data })
        } else {
            None
        }
    }

    /// The bytes of a surface with `stride` bytes to a row that shows the picture.
    pub fn pixels(&self, stride: usize) -> (r: Vec<u8>)
        requires
            self.wf(),
            4 * self.width <= stride,
        ensures
            r@ == surface_bytes(
                bitmap_rows(self.width, self.height, self.data@),
                stride as nat,
            ),
    {
        let n = self.data.len();
        let mut out: Vec<u8> = Vec::new();
        let mut at: usize = 0;
        let mut y: u32 = 0;
        let ghost w = self.width as int;
        let ghost h = self.height as int;
        let ghost rows = bitmap_rows(self.width, self.height, self.data@);
        assert(4 * (0 * w) == 0) by (nonlinear_arith);
        assert(rows.take(0).len() == 0);
        while y < self.height
            invariant
                y <= self.height,
                w == self.width,
                h == self.height,
                rows == bitmap_rows(self.width, self.height, self.data@),
                4 * (w * h) <= n == self.data@.len(),
                at == 4 * (y * w),
                out@ == surface_bytes(rows.take(y as int), stride as nat),
            decreases self.height - y,
        {
            let mut row: Vec<Bgra> = Vec::new();
            let mut x: u32 = 0;
            assert(y * w + w <= w * h) by (nonlinear_arith)
                requires
                    y + 1 <= h,
                    w >= 0,
            ;
            while x < self.width
                invariant
                    x <= self.width,
                    y < self.height,
                    w == self.width,
                    4 * (w * h) <= n == self.data@.len(),
                    y * w + w <= w * h,
                    at == 4 * (y * w + x),
                    row@.len() == x,
                    forall|c: int|
                        0 <= c < x ==> #[trigger] row@[c] == bitmap_pixel(
                            self.width,
                            self.data@,
                            c,
                            y as int,
                        ),
                decreases self.width - x,
            {
                let a = self.data[at + 3];
                row.push(
                    Bgra {
                        b: weigh(self.data[at + 2], a),
                        g: weigh(self.data[at + 1], a),
                        r: weigh(self.data[at], a),
                        a,
                    },
                );
                assert(at + 4 == 4 * (y * w + (x + 1)));
                at = at + 4;
                x = x + 1;
            }
            assert(row@ =~= rows[y as int]);
            push_row(&mut out, &row, stride);
            assert(rows.take(y + 1).drop_last() =~= rows.take(y as int));
            assert((y + 1) * w == y * w + w) by (nonlinear_arith);
            y = y + 1;
        }
        assert(rows.take(y as int) =~= rows);
        out
    }
}

/// No channel is ever brighter than alpha allows; an opaque pixel keeps its colours, and a
/// transparent one loses them.
pub proof fn law_premultiplied(r: u8, g: u8, b: u8, a: u8)
    ensures
        premultiplied(r, g, b, a).r <= a,
        premultiplied(r, g, b, a).g <= a,
        premultiplied(r, g, b, a).b <= a,
        premultiplied(r, g, b, 255) == (Bgra { b, g, r, a: 255 }),
        premultiplied(r, g, b, 0) == clear(),
{
    lemma_weighted(r, a);
    lemma_weighted(g, a);
    lemma_weighted(b, a);
}

/// The surface takes `stride` bytes for each row, and the pixel in column `x` of row `y` lies in it
/// at `y * stride + 4 * x`, its colours multiplied by its alpha.
pub proof fn law_bitmap_pixel_place(m: Bitmap, stride: nat, x: int, y: int, k: int)
    requires
        m.wf(),
        4 * m.width <= stride,
        0 <= x < m.width,
        0 <= y < m.height,
        0 <= k < 4,
    ensures
        ({
            let s = surface_bytes(bitmap_rows(m.width, m.height, m.data@), stride);
            &&& s.len() == m.height * stride
            &&& 0 <= y * stride + 4 * x + k < s.len()
            &&& s[y * stride + 4 * x + k] == component(bitmap_pixel(m.width, m.data@, x, y), k)
        }),
{
    let rows = bitmap_rows(m.width, m.height, m.data@);
    law_surface_size(rows, stride);
    law_pixel_place(rows, stride, x, y, k);
}

proof fn lemma_weighted(v: u8, a: u8)
    ensures
        weighted(v, a) as int == v as int * a as int / 255,
        weighted(v, a) <= a,
        weighted(v, 255) == v,
        weighted(v, 0) == 0,
{
    assert(v as int * a as int <= 255 * a) by (nonlinear_arith)
        requires
            v <= 255,
            a >= 0,
    ;
    assert(v as int * a as int >= 0) by (nonlinear_arith)
        requires
            v >= 0,
            a >= 0,
    ;
}

/// Of the four bytes of a pixel in the surface the first three are its blue, green and red, each
/// times its alpha and divided by 255, and the last is its alpha.
pub proof fn law_bitmap_bytes(m: Bitmap, stride: nat, x: int, y: int)
    requires
        m.wf(),
        4 * m.width <= stride,
        0 <= x < m.width,
        0 <= y < m.height,
    ensures
        ({
            let s = surface_bytes(bitmap_rows(m.width, m.height, m.data@), stride);
            let at = y * stride + 4 * x;
            let i = 4 * (y * m.width + x);
            let a = m.data@[i + 3];
            &&& s[at] as int == m.data@[i + 2] as int * a as int / 255
            &&& s[at + 1] as int == m.data@[i + 1] as int * a as int / 255
            &&& s[at + 2] as int == m.data@[i] as int * a as int / 255
            &&& s[at + 3] == a
        }),
{
    let rows = bitmap_rows(m.width, m.height, m.data@);
    law_pixel_bytes(rows, stride, x, y, 0);
    let i = 4 * (y * m.width + x);
    lemma_weighted(m.data@[i], m.data@[i + 3]);
    lemma_weighted(m.data@[i + 1], m.data@[i + 3]);
    lemma_weighted(m.data@[i + 2], m.data@[i + 3]);
}

/// Four bytes for each pixel are enough, fewer are not, and more do no harm.
pub proof fn law_bytes_that_cover(width: u32, height: u32, data: Seq<u8>, more: Seq<u8>)
    ensures
        data.len() == 4 * (width as int * height as int) ==> covers(width, height, data),
        data.len() < 4 * (width as int * height as int) ==> !covers(width, height, data),
        covers(width, height, data) ==> covers(width, height, data + more),
{
}

} // verus!
