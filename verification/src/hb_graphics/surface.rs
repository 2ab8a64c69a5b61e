//! The RGBA surface the rasterizer paints into, and which of its pixels a
//! rectangle or a glyph mask reaches. Blending itself is done by the caller.
use vstd::prelude::*;

verus! {

#[derive(Debug, Clone, Copy)]
pub struct Size {
    pub w: u32,
    pub h: u32,
}

/// Four bytes (R, G, B, A) per pixel, row by row.
#[derive(Debug, Clone)]
pub struct Surface {
    pub size: Size,
    pub pixels: Vec<u8>,
}

/// Bytes of a `w`×`h` RGBA buffer.
pub open spec fn buffer_len(w: u32, h: u32) -> int {
    w * h * 4
}

/// The value of `v as i32` for a `u32`.
pub open spec fn as_i32(v: u32) -> int {
    if v <= i32::MAX {
        v as int
    } else {
        v - 0x1_0000_0000
    }
}

/// The value of `v as u32` for an `i32` value.
pub open spec fn as_u32(v: int) -> int {
    if v >= 0 {
        v
    } else {
        v + 0x1_0000_0000
    }
}

pub open spec fn min_int(a: int, b: int) -> int {
    if a <= b {
        a
    } else {
        b
    }
}

pub open spec fn max_int(a: int, b: int) -> int {
    if a >= b {
        a
    } else {
        b
    }
}

/// Whether a rectangle blend reaches pixel (`xx`, `yy`): the rows and
/// columns from the clamped start to `(start + len).min(limit as i32) as u32`,
/// and inside the surface.
pub open spec fn rect_blends(size: Size, x: i32, y: i32, w: i32, h: i32, xx: int, yy: int) -> bool {
    &&& w > 0 && h > 0
    &&& max_int(x as int, 0) <= xx < as_u32(min_int(x + w, as_i32(size.w)))
    &&& max_int(y as int, 0) <= yy < as_u32(min_int(y + h, as_i32(size.h)))
    &&& xx < size.w && yy < size.h
}

/// One past the last row or column reached, clipped to the surface.
pub open spec fn span_end(start: i32, len: i32, limit: u32) -> int {
    min_int(as_u32(min_int(start + len, as_i32(limit))), limit as int)
}

/// The columns `r.0 .. r.2` and rows `r.1 .. r.3` a rectangle reaches.
pub open spec fn rect_span(size: Size, x: i32, y: i32, w: i32, h: i32) -> (u32, u32, u32, u32) {
    if w <= 0 || h <= 0 {
        (0, 0, 0, 0)
    } else {
        let x0 = max_int(x as int, 0);
        let y0 = max_int(y as int, 0);
        (
            x0 as u32,
            y0 as u32,
            max_int(x0, span_end(x, w, size.w)) as u32,
            max_int(y0, span_end(y, h, size.h)) as u32,
        )
    }
}

/// Rows and columns of a mask that are walked: `len as i32` of them, none
/// when that is negative.
pub open spec fn walked(len: u32) -> int {
    if len <= i32::MAX {
        len as int
    } else {
        0
    }
}

pub open spec fn row_visible(size: Size, gy: i32, j: int) -> bool {
    0 <= gy + j < as_i32(size.h)
}

pub open spec fn col_visible(size: Size, gx: i32, i: int) -> bool {
    0 <= gx + i < as_i32(size.w)
}

/// What mask pixel (`i`, `j`) placed at (`gx`, `gy`) contributes: the byte
/// offset of the surface pixel under it and its coverage, when it is on the
/// surface and its coverage is not zero.
pub open spec fn cell_cover(size: Size, gx: i32, gy: i32, mask_w: u32, mask: Seq<u8>, j: int, i: int) -> Seq<(usize, u8)> {
    let a = mask[j * mask_w + i];
    if row_visible(size, gy, j) && col_visible(size, gx, i) && a != 0 {
        seq![((((gy + j) * size.w + gx + i) * 4) as usize, a)]
    } else {
        seq![]
    }
}

/// The contributions of the first `i` pixels of mask row `j`.
pub open spec fn row_cover(size: Size, gx: i32, gy: i32, mask_w: u32, mask: Seq<u8>, j: int, i: int) -> Seq<(usize, u8)>
    decreases i,
{
    if i <= 0 {
        seq![]
    } else {
        row_cover(size, gx, gy, mask_w, mask, j, i - 1) + cell_cover(size, gx, gy, mask_w, mask, j, i - 1)
    }
}

/// The contributions of the first `j` rows of the mask, `w` pixels each.
pub open spec fn rows_cover(size: Size, gx: i32, gy: i32, mask_w: u32, mask: Seq<u8>, w: int, j: int) -> Seq<(usize, u8)>
    decreases j,
{
    if j <= 0 {
        seq![]
    } else {
        rows_cover(size, gx, gy, mask_w, mask, w, j - 1) + row_cover(size, gx, gy, mask_w, mask, j - 1, w)
    }
}

/// The contributions of a whole `mask_w`×`mask_h` mask, row by row.
pub open spec fn glyph_cover(size: Size, gx: i32, gy: i32, mask_w: u32, mask_h: u32, mask: Seq<u8>) -> Seq<(usize, u8)> {
    rows_cover(size, gx, gy, mask_w, mask, walked(mask_w), walked(mask_h))
}

/// A mask can be placed without overflow or a read past its end: the
/// positions walked fit in `i32`, and each mask pixel read (those on the
/// surface) has its index in `u32` and inside the mask.
pub open spec fn glyph_fits(size: Size, gx: i32, gy: i32, mask_w: u32, mask_h: u32, mask_len: int) -> bool {
    &&& walked(mask_h) > 0 ==> gy + walked(mask_h) - 1 <= i32::MAX
    &&& forall|j: int|
        0 <= j < walked(mask_h) && #[trigger] row_visible(size, gy, j) && walked(mask_w) > 0 ==> gx
            + walked(mask_w) - 1 <= i32::MAX
    &&& forall|j: int, i: int|
        0 <= j < walked(mask_h) && 0 <= i < walked(mask_w) && #[trigger] row_visible(size, gy, j)
            && #[trigger] col_visible(size, gx, i) ==> j * mask_w + i < mask_len && j * mask_w + i
            <= u32::MAX
}

impl Surface {
    /// The buffer holds four bytes for each pixel.
    pub open spec fn wf(&self) -> bool {
        self.pixels@.len() == buffer_len(self.size.w, self.size.h)
    }

    /// A `w`×`h` surface, every byte zero (transparent black).
    pub fn new(w: u32, h: u32) -> (r: Self)
        requires
            buffer_len(w, h) <= usize::MAX,
        ensures
            r.size == (Size { w, h }),
            r.pixels@ == Seq::new(buffer_len(w, h) as nat, |i: int| 0u8),
            r.wf(),
    {
        assert((w as usize) * (h as usize) <= usize::MAX) by (nonlinear_arith)
            requires
                w * h * 4 <= usize::MAX,
        ;
        let cap = (w as usize) * (h as usize) * 4;
        let pixels = vec![0u8; cap];
        assert(pixels@ =~= Seq::new(buffer_len(w, h) as nat, |i: int| 0u8));
        Surface { size: Size { w, h }, pixels }
    }

    /// The byte offset of pixel (`x`, `y`), if it is on the surface.
    pub fn idx(&self, x: u32, y: u32) -> (r: Option<usize>)
        requires
            buffer_len(self.size.w, self.size.h) <= usize::MAX,
        ensures
            r == (if x >= self.size.w || y >= self.size.h {
                None
            } else {
                Some(((y * self.size.w + x) * 4) as usize)
            }),
    {
        if x >= self.size.w || y >= self.size.h {
            return None;
        }
        proof {
            lemma_offset_fits(self.size, x as int, y as int);
        }
        Some(((y as usize) * (self.size.w as usize) + (x as usize)) * 4)
    }

    /// The pixels a `w`×`h` rectangle at (`x`, `y`) is blended into: columns
    /// `r.0 .. r.2` of rows `r.1 .. r.3`. Nothing for a rectangle without
    /// area. The end of a span is `(start + len).min(limit as i32) as u32`,
    /// so a span that ends left of (or above) the surface reaches to its far
    /// edge.
    pub fn fill_rect_span(&self, x: i32, y: i32, w: i32, h: i32) -> (r: (u32, u32, u32, u32))
        requires
            w > 0 && h > 0 ==> x + w <= i32::MAX && y + h <= i32::MAX,
        ensures
            r == rect_span(self.size, x, y, w, h),
            r.0 <= r.2 <= self.size.w || r.0 == r.2,
            r.1 <= r.3 <= self.size.h || r.1 == r.3,
            forall|xx: int, yy: int|
                (r.0 <= xx < r.2 && r.1 <= yy < r.3) <==> rect_blends(self.size, x, y, w, h, xx, yy),
    {
        if w <= 0 || h <= 0 {
            return (0, 0, 0, 0);
        }
        let x0: u32 = if x < 0 {
            0
        } else {
            x as u32
        };
        let y0: u32 = if y < 0 {
            0
        } else {
            y as u32
        };
        let xe = clip_end(x, w, self.size.w);
        let ye = clip_end(y, h, self.size.h);
        let x1 = if xe < x0 {
            x0
        } else {
            xe
        };
        let y1 = if ye < y0 {
            y0
        } else {
            ye
        };
        (x0, y0, x1, y1)
    }

    /// What blitting a `mask_w`×`mask_h` coverage mask at (`gx`, `gy`)
    /// blends, in order: for each mask pixel, row by row, that lands on the
    /// surface with nonzero coverage, the byte offset of the surface pixel
    /// and the coverage, which becomes the alpha of the colour blended there.
    pub fn glyph_coverage(&self, gx: i32, gy: i32, mask_w: u32, mask_h: u32, mask: &[u8]) -> (r: Vec<(usize, u8)>)
        requires
            buffer_len(self.size.w, self.size.h) <= usize::MAX,
            glyph_fits(self.size, gx, gy, mask_w, mask_h, mask@.len() as int),
        ensures
            r@ == glyph_cover(self.size, gx, gy, mask_w, mask_h, mask@),
    {
        let ghost size = self.size;
        let w: i32 = if mask_w <= 0x7fff_ffff {
            mask_w as i32
        } else {
            0
        };
        let h: i32 = if mask_h <= 0x7fff_ffff {
            mask_h as i32
        } else {
            0
        };
        let sw: i32 = if self.size.w <= 0x7fff_ffff {
            self.size.w as i32
        } else {
            (self.size.w as i64 - 0x1_0000_0000) as i32
        };
        let sh: i32 = if self.size.h <= 0x7fff_ffff {
            self.size.h as i32
        } else {
            (self.size.h as i64 - 0x1_0000_0000) as i32
        };
        let mut out: Vec<(usize, u8)> = Vec::new();
        let mut j: i32 = 0;
        while j < h
            invariant
                size == self.size,
                w == walked(mask_w),
                h == walked(mask_h),
                sw == as_i32(size.w),
                sh == as_i32(size.h),
                0 <= j <= h,
                buffer_len(size.w, size.h) <= usize::MAX,
                glyph_fits(size, gx, gy, mask_w, mask_h, mask@.len() as int),
                out@ == rows_cover(size, gx, gy, mask_w, mask@, w as int, j as int),
            decreases h - j,
        {
            let y = gy + j;
            let ghost before = out@;
            if y >= 0 && y < sh {
                assert(row_visible(size, gy, j as int));
                let mut i: i32 = 0;
                while i < w
                    invariant
                        size == self.size,
                        w == walked(mask_w),
                        h == walked(mask_h),
                        sw == as_i32(size.w),
                        sh == as_i32(size.h),
                        0 <= j < h,
                        0 <= i <= w,
                        y == gy + j,
                        row_visible(size, gy, j as int),
                        buffer_len(size.w, size.h) <= usize::MAX,
                        glyph_fits(size, gx, gy, mask_w, mask_h, mask@.len() as int),
                        out@ == before + row_cover(size, gx, gy, mask_w, mask@, j as int, i as int),
                    decreases w - i,
                {
                    let x = gx + i;
                    let ghost prev = out@;
                    if x >= 0 && x < sw {
                        assert(col_visible(size, gx, i as int));
                        assert((j as int) * (mask_w as int) <= (j as int) * (mask_w as int) + i);
                        let k = (j as u32) * mask_w + (i as u32);
                        let a = mask[k as usize];
                        if a != 0 {
                            proof {
                                lemma_offset_fits(size, x as int, y as int);
                            }
                            let off = ((y as usize) * (self.size.w as usize) + (x as usize)) * 4;
                            out.push((off, a));
                        }
                    }
                    assert(out@ =~= before + row_cover(size, gx, gy, mask_w, mask@, j as int, i + 1));
                    i = i + 1;
                }
            } else {
                assert forall|i: int| 0 <= i <= w implies row_cover(size, gx, gy, mask_w, mask@, j as int, i)
                    =~= Seq::<(usize, u8)>::empty() by {
                    lemma_hidden_row(size, gx, gy, mask_w, mask@, j as int, i);
                }
            }
            assert(out@ =~= rows_cover(size, gx, gy, mask_w, mask@, w as int, j + 1));
            j = j + 1;
        }
        out
    }
}

/// `(start + len).min(limit as i32) as u32`, clipped to `limit`.
fn clip_end(start: i32, len: i32, limit: u32) -> (r: u32)
    requires
        start + len <= i32::MAX,
    ensures
        r == span_end(start, len, limit),
{
    let lim: i64 = if limit <= 0x7fff_ffff {
        limit as i64
    } else {
        limit as i64 - 0x1_0000_0000
    };
    let end: i64 = start as i64 + len as i64;
    let m: i64 = if end < lim {
        end
    } else {
        lim
    };
    let e: i64 = if m >= 0 {
        m
    } else {
        m + 0x1_0000_0000
    };
    if e < limit as i64 {
        e as u32
    } else {
        limit
    }
}

proof fn lemma_offset_fits(size: Size, x: int, y: int)
    requires
        0 <= x < size.w,
        0 <= y < size.h,
        buffer_len(size.w, size.h) <= usize::MAX,
    ensures
        y * size.w + x < size.w * size.h,
        (y * size.w + x) * 4 + 4 <= buffer_len(size.w, size.h),
{
    assert(y * size.w + x < size.w * size.h) by (nonlinear_arith)
        requires
            0 <= x < size.w,
            0 <= y < size.h,
    ;
    assert((y * size.w + x) * 4 + 4 <= size.w * size.h * 4) by (nonlinear_arith)
        requires
            y * size.w + x < size.w * size.h,
    ;
}

proof fn lemma_hidden_row(size: Size, gx: i32, gy: i32, mask_w: u32, mask: Seq<u8>, j: int, i: int)
    requires
        !row_visible(size, gy, j),
        0 <= i,
    ensures
        row_cover(size, gx, gy, mask_w, mask, j, i) =~= Seq::<(usize, u8)>::empty(),
    decreases i,
{
    if i > 0 {
        lemma_hidden_row(size, gx, gy, mask_w, mask, j, i - 1);
    }
}

} // verus!
