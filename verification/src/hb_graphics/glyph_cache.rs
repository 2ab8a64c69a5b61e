//! Glyph masks from the 8×8 bitmap font, scaled to a square of the asked
//! height (nearest neighbour) and kept for reuse.
use vstd::prelude::*;
use font8x8::UnicodeFonts;
use crate::text::slice_bytes;

verus! {

/// The eight rows of the basic 8×8 font for a character (bit `x` of row `y`
/// is the pixel at column `x`), if the font has it.
pub uninterp spec fn basic_glyph_spec(c: char) -> Option<Seq<u8>>;

/// Calls `font8x8::BASIC_FONTS.get`; the claim is only that its answer is
/// the named font entry for `ch`.
#[verifier::external_body]
fn basic_glyph(ch: char) -> (r: Option<[u8; 8]>)
    ensures
        match r {
            Some(a) => basic_glyph_spec(ch) == Some(a@),
            None => basic_glyph_spec(ch) is None,
        },
{
    font8x8::BASIC_FONTS.get(ch)
}

/// The rows drawn for a character: its font entry, or blank.
pub open spec fn glyph_rows(c: char) -> Seq<u8> {
    match basic_glyph_spec(c) {
        Some(rows) => rows,
        None => Seq::new(8, |i: int| 0u8),
    }
}

/// Whether bit `sx` of `row` is set.
pub open spec fn bit_on(row: u8, sx: u32) -> bool {
    (row >> sx) & 1u8 == 1u8
}

/// Pixel `i` (row-major) of the `h`×`h` mask: the font pixel it falls on.
pub open spec fn mask_pixel(rows: Seq<u8>, h: u32, i: int) -> u8 {
    let ty = i / (h as int);
    let tx = i % (h as int);
    let sy = (ty * 8) / (h as int);
    let sx = (tx * 8) / (h as int);
    if bit_on(rows[sy], sx as u32) {
        255u8
    } else {
        0u8
    }
}

/// The `h`×`h` mask of the 8×8 rows: 255 where a font pixel is set, else 0.
pub open spec fn glyph_mask(rows: Seq<u8>, h: u32) -> Seq<u8> {
    Seq::new((h * h) as nat, |i: int| mask_pixel(rows, h, i))
}

/// Heights that can be rendered: positive, with the mask size in `u32`.
pub open spec fn height_ok(h: u32) -> bool {
    0 < h && h * h <= u32::MAX
}

fn render_mask(rows: &[u8; 8], h: u32) -> (r: Vec<u8>)
    requires
        height_ok(h),
    ensures
        r@ == glyph_mask(rows@, h),
{
    let mut mask: Vec<u8> = Vec::new();
    let mut ty: u32 = 0;
    assert(h < 0x10000) by (nonlinear_arith)
        requires
            0 < h,
            h * h <= u32::MAX,
    ;
    while ty < h
        invariant
            height_ok(h),
            h < 0x10000,
            ty <= h,
            mask@.len() == ty * h,
            rows@.len() == 8,
            forall|i: int| 0 <= i < mask@.len() ==> mask@[i] == mask_pixel(rows@, h, i),
        decreases h - ty,
    {
        let sy = (ty * 8) / h;
        assert(sy < 8) by (nonlinear_arith)
            requires
                ty < h,
                sy as int == (ty * 8) / (h as int),
                0 < h,
        ;
        let row_bits = rows[sy as usize];
        let mut tx: u32 = 0;
        while tx < h
            invariant
                height_ok(h),
                h < 0x10000,
                ty < h,
                tx <= h,
                sy as int == (ty * 8) / (h as int),
                row_bits == rows@[sy as int],
                mask@.len() == ty * h + tx,
                rows@.len() == 8,
                forall|i: int| 0 <= i < mask@.len() ==> mask@[i] == mask_pixel(rows@, h, i),
            decreases h - tx,
        {
            let sx = (tx * 8) / h;
            assert(sx < 8) by (nonlinear_arith)
                requires
                    tx < h,
                    sx as int == (tx * 8) / (h as int),
                    0 < h,
            ;
            let on = (row_bits >> sx) & 1;
            let v: u8 = if on == 1 {
                255
            } else {
                0
            };
            proof {
                let i = ty * h + tx;
                vstd::arithmetic::div_mod::lemma_fundamental_div_mod_converse(
                    i as int,
                    h as int,
                    ty as int,
                    tx as int,
                );
                assert(v == mask_pixel(rows@, h, i as int));
            }
            mask.push(v);
            tx = tx + 1;
        }
        assert(mask@.len() == (ty + 1) * h) by (nonlinear_arith)
            requires
                mask@.len() == ty * h + h,
        ;
        ty = ty + 1;
    }
    assert(mask@ =~= glyph_mask(rows@, h));
    mask
}

/// Rendered glyph masks by character and height.
pub struct GlyphCache {
    map: Vec<((char, u32), (u32, u32, Vec<u8>))>,
}

pub open spec fn entry_ok(e: ((char, u32), (u32, u32, Vec<u8>))) -> bool {
    &&& height_ok(e.0.1)
    &&& e.1.0 == e.0.1
    &&& e.1.1 == e.0.1
    &&& e.1.2@ == glyph_mask(glyph_rows(e.0.0), e.0.1)
}

impl GlyphCache {
    #[verifier::type_invariant]
    spec fn inv(self) -> bool {
        forall|k: int| 0 <= k < self.map@.len() ==> entry_ok(#[trigger] self.map@[k])
    }

    /// The (character, height) pairs held.
    pub closed spec fn held(self) -> Set<(char, u32)> {
        Set::new(|key: (char, u32)| exists|k: int| 0 <= k < self.map@.len() && self.map@[k].0 == key)
    }

    pub fn new() -> (r: Self)
        ensures
            r.held() == Set::<(char, u32)>::empty(),
    {
        let r = GlyphCache { map: Vec::new() };
        assert(r.held() =~= Set::<(char, u32)>::empty());
        r
    }

    /// The mask of `ch` at height `target_h`: a square of that side, row by
    /// row, 255 where the scaled font pixel is set and 0 elsewhere. The same
    /// whether or not it was held before; it is held afterwards.
    pub fn get(&mut self, ch: char, target_h: u32) -> (r: (u32, u32, Vec<u8>))
        requires
            height_ok(target_h),
        ensures
            r.0 == target_h,
            r.1 == target_h,
            r.2@ == glyph_mask(glyph_rows(ch), target_h),
            final(self).held() == old(self).held().insert((ch, target_h)),
    {
        proof {
            use_type_invariant(&*self);
        }
        let mut k: usize = 0;
        while k < self.map.len()
            invariant
                k <= self.map@.len(),
                forall|m: int| 0 <= m < self.map@.len() ==> entry_ok(#[trigger] self.map@[m]),
                forall|m: int| 0 <= m < k ==> (#[trigger] self.map@[m]).0 != (ch, target_h),
            decreases self.map.len() - k,
        {
            let key = self.map[k].0;
            if key.0 == ch && key.1 == target_h {
                let v = &self.map[k].1;
                assert(entry_ok(self.map@[k as int]));
                let mask = slice_bytes(&v.2, 0, v.2.len());
                assert(mask@ =~= v.2@);
                assert(self.held() =~= self.held().insert((ch, target_h)));
                return (v.0, v.1, mask);
            }
            k = k + 1;
        }
        let rows: [u8; 8] = match basic_glyph(ch) {
            Some(r) => r,
            None => [0u8; 8],
        };
        assert(rows@ =~= glyph_rows(ch));
        let mask = render_mask(&rows, target_h);
        let copy = slice_bytes(&mask, 0, mask.len());
        assert(copy@ =~= mask@);
        let ghost before = self.map@;
        let mut m: Vec<((char, u32), (u32, u32, Vec<u8>))> = Vec::new();
        std::mem::swap(&mut m, &mut self.map);
        m.push(((ch, target_h), (target_h, target_h, copy)));
        self.map = m;
        assert forall|key: (char, u32)|
            self.held().contains(key) == old(self).held().insert((ch, target_h)).contains(key) by {
            if old(self).held().contains(key) {
                let k = choose|k: int| 0 <= k < before.len() && before[k].0 == key;
                assert(self.map@[k] == before[k]);
            }
            if key == (ch, target_h) {
                assert(self.map@[before.len() as int].0 == key);
            }
            if self.held().contains(key) {
                let k = choose|k: int| 0 <= k < self.map@.len() && self.map@[k].0 == key;
                if k < before.len() {
                    assert(before[k] == self.map@[k]);
                }
            }
        }
        assert(self.held() =~= old(self).held().insert((ch, target_h)));
        (target_h, target_h, mask)
    }
}

} // verus!
