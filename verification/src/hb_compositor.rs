//! The GPU compositor's plain parts: its error types, the size of an
//! offscreen target, and how a read-back buffer, whose rows are padded to
//! the copy alignment, is turned into tightly packed RGBA rows.
use vstd::prelude::*;
use crate::hb_core::error::prefixed;

verus! {

#[derive(Debug, Clone, PartialEq, Eq)]
pub enum GpuError {
    Device(String),
    Surface(String),
    Readback(String),
}

impl GpuError {
    /// The error's description.
    pub fn message(&self) -> (r: String)
        ensures
            r@ == (match self {
                GpuError::Device(s) => "adapter/device: "@ + s@,
                GpuError::Surface(s) => "surface: "@ + s@,
                GpuError::Readback(s) => "readback: "@ + s@,
            }),
    {
        match self {
            GpuError::Device(s) => prefixed("adapter/device: ", s),
            GpuError::Surface(s) => prefixed("surface: ", s),
            GpuError::Readback(s) => prefixed("readback: ", s),
        }
    }
}

#[derive(Debug, Clone, PartialEq, Eq)]
pub enum CompositorError {
    Pipeline(String),
    Encode(String),
}

impl CompositorError {
    /// The error's description.
    pub fn message(&self) -> (r: String)
        ensures
            r@ == (match self {
                CompositorError::Pipeline(s) => "pipeline: "@ + s@,
                CompositorError::Encode(s) => "encode: "@ + s@,
            }),
    {
        match self {
            CompositorError::Pipeline(s) => prefixed("pipeline: ", s),
            CompositorError::Encode(s) => prefixed("encode: ", s),
        }
    }
}

#[derive(Debug, Clone, Copy, PartialEq, Eq)]
pub struct OffscreenTargetDesc {
    pub width: u32,
    pub height: u32,
}

/// Rows of a buffer copied from a texture start at multiples of this.
pub const COPY_ROW_ALIGNMENT: u32 = 256;

/// `n` rounded up to a multiple of the row alignment.
pub open spec fn align_up(n: int) -> int {
    ((n + 255) / 256) * 256
}

/// The packed and the padded byte length of a `width`-pixel RGBA row.
pub fn readback_pitch(width: u32) -> (r: (u32, u32))
    requires
        width * 4 + 255 <= u32::MAX,
    ensures
        r.0 == width * 4,
        r.1 == align_up(width * 4),
        r.0 <= r.1 < r.0 + 256,
        r.1 % 256 == 0,
{
    let bpr = width * 4;
    let padded = ((bpr + 255) / COPY_ROW_ALIGNMENT) * COPY_ROW_ALIGNMENT;
    assert(padded as int == align_up(bpr as int));
    assert(bpr <= padded < bpr + 256 && padded % 256 == 0) by (nonlinear_arith)
        requires
            padded as int == ((bpr + 255) / 256) * 256,
    ;
    (bpr, padded)
}

/// The first `rows` rows of a padded buffer with their padding dropped: the
/// first `row_len` bytes of each stretch of `pitch` bytes.
pub open spec fn packed_rows(data: Seq<u8>, row_len: int, pitch: int, rows: int) -> Seq<u8>
    decreases rows,
{
    if rows <= 0 {
        seq![]
    } else {
        packed_rows(data, row_len, pitch, rows - 1) + data.subrange(
            (rows - 1) * pitch,
            (rows - 1) * pitch + row_len,
        )
    }
}

/// The `height` rows of `width` RGBA pixels held in a read-back buffer whose
/// rows are `pitch` bytes apart, packed one after another.
pub fn unpad_rows(data: &[u8], width: u32, height: u32, pitch: u32) -> (r: Vec<u8>)
    requires
        width * 4 <= pitch,
        height > 0 ==> (height - 1) * pitch + width * 4 <= data@.len(),
        width * height * 4 <= usize::MAX,
    ensures
        r@ == packed_rows(data@, width * 4, pitch as int, height as int),
        r@.len() == width * height * 4,
{
    let row_len: usize = (width as usize) * 4;
    let data_len: usize = data.len();
    let mut out: Vec<u8> = Vec::new();
    let mut y: u32 = 0;
    while y < height
        invariant
            y <= height,
            row_len == width * 4,
            width * 4 <= pitch,
            height > 0 ==> (height - 1) * pitch + width * 4 <= data@.len(),
            data_len == data@.len(),
            out@ == packed_rows(data@, width * 4, pitch as int, y as int),
            out@.len() == width * y * 4,
        decreases height - y,
    {
        assert(y * pitch + width * 4 <= data@.len()) by (nonlinear_arith)
            requires
                y < height,
                (height - 1) * pitch + width * 4 <= data@.len(),
        ;
        let start: usize = (y as usize) * (pitch as usize);
        let mut k: usize = 0;
        let ghost before = out@;
        while k < row_len
            invariant
                k <= row_len,
                row_len == width * 4,
                start == y * pitch,
                start + row_len <= data_len,
                data_len == data@.len(),
                out@ == before + data@.subrange(start as int, start + k),
            decreases row_len - k,
        {
            out.push(data[start + k]);
            assert(out@ =~= before + data@.subrange(start as int, start + k + 1));
            k = k + 1;
        }
        assert(out@ =~= packed_rows(data@, width * 4, pitch as int, y + 1));
        assert(out@.len() == width * (y + 1) * 4) by (nonlinear_arith)
            requires
                out@.len() == width * y * 4 + width * 4,
        ;
        y = y + 1;
    }
    out
}

} // verus!
