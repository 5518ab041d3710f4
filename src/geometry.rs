//! Pixel coordinates and byte offsets in a row-major RGBA8 buffer.
use vstd::arithmetic::div_mod::{
    lemma_fundamental_div_mod,
    lemma_fundamental_div_mod_converse,
    lemma_mod_pos_bound,
};
use vstd::prelude::*;

verus! {

/// Byte offset of pixel `(x, y)` in a buffer `w` pixels wide.
pub open spec fn pixel_offset(w: int, x: int, y: int) -> int {
    (y * w + x) * 4
}

/// Column of the pixel that byte `i` belongs to, in a buffer `w` pixels wide.
pub open spec fn col_of(i: int, w: int) -> int {
    (i / 4) % w
}

/// Row of the pixel that byte `i` belongs to, in a buffer `w` pixels wide.
pub open spec fn row_of(i: int, w: int) -> int {
    (i / 4) / w
}

/// `buf` holds exactly `w * h` pixels of four bytes each.
pub open spec fn is_image(buf: Seq<u8>, w: int, h: int) -> bool {
    buf.len() == w * h * 4
}

/// Pixel `(x, y)` of a `w` by `h` image lies wholly inside its buffer.
pub proof fn lemma_pixel_in_image(w: int, h: int, x: int, y: int)
    requires
        0 <= x < w,
        0 <= y < h,
    ensures
        0 <= y * w + x < w * h,
        0 <= pixel_offset(w, x, y),
        pixel_offset(w, x, y) + 4 <= w * h * 4,
{
    assert(0 <= y * w + x && y * w + x + 1 <= w * h) by (nonlinear_arith)
        requires
            0 <= x < w,
            0 <= y < h,
    {
        assert(y * w + w == (y + 1) * w);
        assert((y + 1) * w <= h * w);
    }
}

/// Byte `i` of a `w` by `h` image belongs to a pixel inside the image.
pub proof fn lemma_byte_in_image(i: int, w: int, h: int)
    requires
        0 <= w,
        0 <= h,
        0 <= i < w * h * 4,
    ensures
        0 <= col_of(i, w) < w,
        0 <= row_of(i, w) < h,
{
    let p = i / 4;
    assert(w > 0 && p < w * h) by (nonlinear_arith)
        requires
            0 <= w,
            0 <= h,
            0 <= i < w * h * 4,
            p == i / 4,
    ;
    lemma_fundamental_div_mod(p, w);
    lemma_mod_pos_bound(p, w);
    let q = p / w;
    let r = p % w;
    assert(0 <= q < h) by (nonlinear_arith)
        requires
            0 <= p < w * h,
            p == w * q + r,
            0 <= r < w,
    ;
}

/// Byte `i` belongs to pixel `(x, y)` exactly when it lies in that pixel's
/// four bytes, and then `i % 4` is its channel.
pub proof fn lemma_byte_of_pixel(i: int, w: int, x: int, y: int)
    requires
        0 <= i,
        0 <= x < w,
        0 <= y,
    ensures
        (row_of(i, w) == y && col_of(i, w) == x) <==> (pixel_offset(w, x, y) <= i
            < pixel_offset(w, x, y) + 4),
        pixel_offset(w, x, y) <= i < pixel_offset(w, x, y) + 4 ==> i % 4 == i - pixel_offset(
            w,
            x,
            y,
        ),
{
    let p = i / 4;
    lemma_fundamental_div_mod(i, 4);
    lemma_mod_pos_bound(i, 4);
    lemma_fundamental_div_mod(p, w);
    if row_of(i, w) == y && col_of(i, w) == x {
        assert(w * y == y * w) by (nonlinear_arith);
    }
    if pixel_offset(w, x, y) <= i < pixel_offset(w, x, y) + 4 {
        lemma_fundamental_div_mod_converse(i, 4, y * w + x, i - pixel_offset(w, x, y));
        lemma_fundamental_div_mod_converse(p, w, y, x);
    }
}

} // verus!
