//! Compositing a whole overlay image onto a base image at an offset.
use crate::blend::{blend_pixel, over_byte};
use crate::geometry::{
    col_of,
    is_image,
    lemma_byte_in_image,
    lemma_byte_of_pixel,
    lemma_pixel_in_image,
    pixel_offset,
    row_of,
};
use vstd::arithmetic::div_mod::lemma_fundamental_div_mod_converse;
use vstd::prelude::*;

verus! {

/// The overlay, `ov_w` by `ov_h` pixels with its top-left pixel at
/// `(pos_x, pos_y)` of the base, covers base pixel `(x, y)`.
pub open spec fn covers(ov_w: int, ov_h: int, pos_x: int, pos_y: int, x: int, y: int) -> bool {
    pos_x <= x < pos_x + ov_w && pos_y <= y < pos_y + ov_h
}

/// Byte `i` of the base after compositing: a byte of a covered pixel is
/// blended with the same channel of the overlay pixel over it, any other
/// byte is kept.
pub open spec fn composite_byte(
    base: Seq<u8>,
    base_w: int,
    overlay: Seq<u8>,
    ov_w: int,
    ov_h: int,
    pos_x: int,
    pos_y: int,
    i: int,
) -> u8 {
    let x = col_of(i, base_w);
    let y = row_of(i, base_w);
    if covers(ov_w, ov_h, pos_x, pos_y, x, y) {
        let o = pixel_offset(ov_w, x - pos_x, y - pos_y);
        let c = i % 4;
        over_byte(overlay[o + c], base[i], overlay[o + 3], c)
    } else {
        base[i]
    }
}

/// The base buffer after the overlay has been laid over it at
/// `(pos_x, pos_y)`. The offset may be negative.
pub open spec fn composited(
    base: Seq<u8>,
    base_w: int,
    overlay: Seq<u8>,
    ov_w: int,
    ov_h: int,
    pos_x: int,
    pos_y: int,
) -> Seq<u8> {
    Seq::new(
        base.len(),
        |i: int| composite_byte(base, base_w, overlay, ov_w, ov_h, pos_x, pos_y, i),
    )
}

/// An overlay that lies wholly outside the base (past its right or bottom
/// edge, or before its left or top edge), or that has no pixels, leaves the
/// base as it was.
pub proof fn lemma_miss_is_identity(
    base: Seq<u8>,
    base_w: int,
    base_h: int,
    overlay: Seq<u8>,
    ov_w: int,
    ov_h: int,
    pos_x: int,
    pos_y: int,
)
    requires
        0 <= base_w,
        0 <= base_h,
        is_image(base, base_w, base_h),
        pos_x >= base_w || pos_y >= base_h || pos_x + ov_w <= 0 || pos_y + ov_h <= 0 || ov_w <= 0
            || ov_h <= 0,
    ensures
        composited(base, base_w, overlay, ov_w, ov_h, pos_x, pos_y) == base,
{
    let r = composited(base, base_w, overlay, ov_w, ov_h, pos_x, pos_y);
    assert forall|i: int| 0 <= i < base.len() implies r[i] == base[i] by {
        lemma_byte_in_image(i, base_w, base_h);
    }
    assert(r =~= base);
}

/// A base pixel that the overlay does not cover keeps all four of its bytes.
pub proof fn lemma_uncovered_pixel_unchanged(
    base: Seq<u8>,
    base_w: int,
    base_h: int,
    overlay: Seq<u8>,
    ov_w: int,
    ov_h: int,
    pos_x: int,
    pos_y: int,
    x: int,
    y: int,
)
    requires
        is_image(base, base_w, base_h),
        0 <= x < base_w,
        0 <= y < base_h,
        !covers(ov_w, ov_h, pos_x, pos_y, x, y),
    ensures
        composited(base, base_w, overlay, ov_w, ov_h, pos_x, pos_y).subrange(
            pixel_offset(base_w, x, y),
            pixel_offset(base_w, x, y) + 4,
        ) == base.subrange(pixel_offset(base_w, x, y), pixel_offset(base_w, x, y) + 4),
{
    let r = composited(base, base_w, overlay, ov_w, ov_h, pos_x, pos_y);
    let b = pixel_offset(base_w, x, y);
    lemma_pixel_in_image(base_w, base_h, x, y);
    assert forall|c: int| 0 <= c < 4 implies #[trigger] r.subrange(b, b + 4)[c] == base.subrange(
        b,
        b + 4,
    )[c] by {
        lemma_byte_of_pixel(b + c, base_w, x, y);
        assert(r[b + c] == base[b + c]);
    }
    assert(r.subrange(b, b + 4) =~= base.subrange(b, b + 4));
}

/// Where the overlay pixel over a base pixel is fully opaque, the result
/// pixel has the overlay's colour and full opacity.
pub proof fn lemma_opaque_pixel_overwrites(
    base: Seq<u8>,
    base_w: int,
    base_h: int,
    overlay: Seq<u8>,
    ov_w: int,
    ov_h: int,
    pos_x: int,
    pos_y: int,
    x: int,
    y: int,
)
    requires
        is_image(base, base_w, base_h),
        is_image(overlay, ov_w, ov_h),
        0 <= x < base_w,
        0 <= y < base_h,
        covers(ov_w, ov_h, pos_x, pos_y, x, y),
        overlay[pixel_offset(ov_w, x - pos_x, y - pos_y) + 3] == 255,
    ensures
        ({
            let r = composited(base, base_w, overlay, ov_w, ov_h, pos_x, pos_y);
            let b = pixel_offset(base_w, x, y);
            let o = pixel_offset(ov_w, x - pos_x, y - pos_y);
            &&& r[b] == overlay[o]
            &&& r[b + 1] == overlay[o + 1]
            &&& r[b + 2] == overlay[o + 2]
            &&& r[b + 3] == 255
        }),
{
    let r = composited(base, base_w, overlay, ov_w, ov_h, pos_x, pos_y);
    let b = pixel_offset(base_w, x, y);
    let o = pixel_offset(ov_w, x - pos_x, y - pos_y);
    lemma_pixel_in_image(base_w, base_h, x, y);
    lemma_pixel_in_image(ov_w, ov_h, x - pos_x, y - pos_y);
    assert forall|c: int| 0 <= c < 4 implies #[trigger] r[b + c] == (if c < 3 {
        overlay[o + c]
    } else {
        255u8
    }) by {
        lemma_byte_of_pixel(b + c, base_w, x, y);
        if c < 3 {
            let v = overlay[o + c] as int;
            lemma_fundamental_div_mod_converse(v * 255 + 127, 255, v, 127);
        }
    }
    assert(r[b + 0] == overlay[o + 0]);
    assert(r[b + 1] == overlay[o + 1]);
    assert(r[b + 2] == overlay[o + 2]);
    assert(r[b + 3] == 255);
}

/// An overlay whose every pixel is fully transparent leaves the base as it
/// was, byte for byte.
pub proof fn lemma_transparent_overlay_is_identity(
    base: Seq<u8>,
    base_w: int,
    base_h: int,
    overlay: Seq<u8>,
    ov_w: int,
    ov_h: int,
    pos_x: int,
    pos_y: int,
)
    requires
        0 <= base_w,
        0 <= base_h,
        is_image(base, base_w, base_h),
        is_image(overlay, ov_w, ov_h),
        forall|ox: int, oy: int|
            0 <= ox < ov_w && 0 <= oy < ov_h ==> overlay[#[trigger] pixel_offset(ov_w, ox, oy) + 3]
                == 0,
    ensures
        composited(base, base_w, overlay, ov_w, ov_h, pos_x, pos_y) == base,
{
    let r = composited(base, base_w, overlay, ov_w, ov_h, pos_x, pos_y);
    assert forall|i: int| 0 <= i < base.len() implies r[i] == base[i] by {
        lemma_byte_in_image(i, base_w, base_h);
        let ox = col_of(i, base_w) - pos_x;
        let oy = row_of(i, base_w) - pos_y;
        if covers(ov_w, ov_h, pos_x, pos_y, col_of(i, base_w), row_of(i, base_w)) {
            assert(overlay[pixel_offset(ov_w, ox, oy) + 3] == 0);
        }
    }
    assert(r =~= base);
}

/// Every overlay byte that the blend of a covered base pixel reads lies
/// inside the overlay buffer, wherever the overlay is placed.
pub proof fn lemma_covered_pixel_reads_in_overlay(
    ov_w: int,
    ov_h: int,
    pos_x: int,
    pos_y: int,
    x: int,
    y: int,
)
    requires
        covers(ov_w, ov_h, pos_x, pos_y, x, y),
    ensures
        0 <= pixel_offset(ov_w, x - pos_x, y - pos_y),
        pixel_offset(ov_w, x - pos_x, y - pos_y) + 4 <= ov_w * ov_h * 4,
{
    lemma_pixel_in_image(ov_w, ov_h, x - pos_x, y - pos_y);
}

/// Composites `overlay` (`ov_w` by `ov_h` pixels) onto `base` (`base_w` by
/// `base_h` pixels) with the overlay's top-left pixel at `(pos_x, pos_y)`,
/// and returns the updated base. Both buffers are row-major RGBA8 with
/// straight alpha; only the part of the overlay that falls inside the base
/// is used.
pub fn composite_rgba(
    base: Vec<u8>,
    base_w: u32,
    base_h: u32,
    overlay: Vec<u8>,
    ov_w: u32,
    ov_h: u32,
    pos_x: u32,
    pos_y: u32,
) -> (r: Vec<u8>)
    requires
        is_image(base@, base_w as int, base_h as int),
        is_image(overlay@, ov_w as int, ov_h as int),
    ensures
        r@ == composited(
            base@,
            base_w as int,
            overlay@,
            ov_w as int,
            ov_h as int,
            pos_x as int,
            pos_y as int,
        ),
{
    let mut base = base;
    // A vector's length is a usize, so no byte offset below can overflow.
    let _ = (base.len(), overlay.len());
    if pos_x >= base_w || pos_y >= base_h {
        proof {
            lemma_miss_is_identity(
                base@,
                base_w as int,
                base_h as int,
                overlay@,
                ov_w as int,
                ov_h as int,
                pos_x as int,
                pos_y as int,
            );
        }
        return base;
    }
    let bw = base_w as usize;
    let ow = ov_w as usize;
    let px = pos_x as usize;
    let py = pos_y as usize;
    let end_x: u64 = pos_x as u64 + ov_w as u64;
    let end_y: u64 = pos_y as u64 + ov_h as u64;
    let max_x: usize = if end_x < base_w as u64 {
        end_x as usize
    } else {
        bw
    };
    let max_y: usize = if end_y < base_h as u64 {
        end_y as usize
    } else {
        base_h as usize
    };
    let ghost orig = base@;
    let ghost comp = composited(
        orig,
        base_w as int,
        overlay@,
        ov_w as int,
        ov_h as int,
        pos_x as int,
        pos_y as int,
    );
    let mut y: usize = py;
    while y < max_y
        invariant
            bw == base_w,
            ow == ov_w,
            px == pos_x,
            py == pos_y,
            px < bw,
            px <= max_x <= bw,
            max_x <= px + ow,
            max_x == px + ow || max_x == bw,
            py <= y <= max_y,
            max_y <= base_h,
            max_y <= py + ov_h,
            max_y == py + ov_h || max_y == base_h,
            is_image(orig, base_w as int, base_h as int),
            is_image(overlay@, ov_w as int, ov_h as int),
            orig.len() <= usize::MAX,
            overlay@.len() <= usize::MAX,
            base@.len() == orig.len(),
            comp == composited(
                orig,
                base_w as int,
                overlay@,
                ov_w as int,
                ov_h as int,
                pos_x as int,
                pos_y as int,
            ),
            forall|i: int|
                0 <= i < orig.len() ==> #[trigger] base@[i] == if row_of(i, bw as int) < y {
                    comp[i]
                } else {
                    orig[i]
                },
        decreases max_y - y,
    {
        let mut x: usize = px;
        while x < max_x
            invariant
                bw == base_w,
                ow == ov_w,
                px == pos_x,
                py == pos_y,
                px <= x <= max_x,
                max_x <= bw,
                max_x <= px + ow,
                py <= y < max_y,
                max_y <= base_h,
                max_y <= py + ov_h,
                is_image(orig, base_w as int, base_h as int),
                is_image(overlay@, ov_w as int, ov_h as int),
                orig.len() <= usize::MAX,
                overlay@.len() <= usize::MAX,
                base@.len() == orig.len(),
                comp == composited(
                    orig,
                    base_w as int,
                    overlay@,
                    ov_w as int,
                    ov_h as int,
                    pos_x as int,
                    pos_y as int,
                ),
                forall|i: int|
                    0 <= i < orig.len() ==> #[trigger] base@[i] == if row_of(i, bw as int) < y || (
                    row_of(i, bw as int) == y && col_of(i, bw as int) < x) {
                        comp[i]
                    } else {
                        orig[i]
                    },
            decreases max_x - x,
        {
            proof {
                lemma_pixel_in_image(bw as int, base_h as int, x as int, y as int);
                lemma_pixel_in_image(ow as int, ov_h as int, (x - px) as int, (y - py) as int);
            }
            let b_idx: usize = (y * bw + x) * 4;
            let o_idx: usize = ((y - py) * ow + (x - px)) * 4;
            let ghost prev = base@;
            blend_pixel(&mut base, b_idx, &overlay, o_idx);
            proof {
                assert forall|i: int| 0 <= i < orig.len() implies #[trigger] base@[i] == if row_of(
                    i,
                    bw as int,
                ) < y || (row_of(i, bw as int) == y && col_of(i, bw as int) < x + 1) {
                    comp[i]
                } else {
                    orig[i]
                } by {
                    lemma_byte_of_pixel(i, bw as int, x as int, y as int);
                    lemma_byte_in_image(i, base_w as int, base_h as int);
                    if b_idx <= i < b_idx + 4 {
                        let c = i - b_idx;
                        assert(base@[b_idx + c] == over_byte(
                            overlay@[o_idx + c],
                            prev[b_idx + c],
                            overlay@[o_idx + 3],
                            c,
                        ));
                    }
                }
            }
            x = x + 1;
        }
        proof {
            assert forall|i: int| 0 <= i < orig.len() implies #[trigger] base@[i] == if row_of(
                i,
                bw as int,
            ) < y + 1 {
                comp[i]
            } else {
                orig[i]
            } by {
                lemma_byte_in_image(i, base_w as int, base_h as int);
            }
        }
        y = y + 1;
    }
    proof {
        assert forall|i: int| 0 <= i < orig.len() implies base@[i] == comp[i] by {
            lemma_byte_in_image(i, base_w as int, base_h as int);
        }
        assert(base@ =~= comp);
    }
    base
}

} // verus!
