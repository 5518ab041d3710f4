//! Blending of a single overlay channel onto a single base channel.
//!
//! Channels are straight (non-premultiplied) 8-bit values. The "over"
//! operator is evaluated exactly in integers: `(n + 127) / 255` is `n / 255`
//! rounded to nearest, and since `2 * n` is even while `255 * (2k + 1)` is odd,
//! the quotient is never a tie.
use vstd::prelude::*;

verus! {

/// Colour channel `o` of an overlay pixel with alpha `a`, laid over base
/// channel `b`: `round(o * a / 255 + b * (255 - a) / 255)`.
pub open spec fn over_channel(o: int, b: int, a: int) -> int {
    (o * a + b * (255 - a) + 127) / 255
}

/// Alpha of the result when an overlay alpha `oa` is laid over base alpha
/// `ba`: `round(255 * (oa / 255 + (ba / 255) * (1 - oa / 255)))`.
pub open spec fn over_alpha(oa: int, ba: int) -> int {
    oa + (ba * (255 - oa) + 127) / 255
}

/// Byte `c` (0, 1, 2 colour, 3 alpha) of a base pixel after blending, where
/// `o` is the overlay's byte `c`, `b` the base's byte `c` and `a` the
/// overlay's alpha. A fully transparent overlay pixel leaves the byte alone.
pub open spec fn over_byte(o: u8, b: u8, a: u8, c: int) -> u8 {
    if a == 0 {
        b
    } else if c < 3 {
        over_channel(o as int, b as int, a as int) as u8
    } else {
        over_alpha(a as int, b as int) as u8
    }
}

/// Both blend formulas stay within a byte.
pub proof fn lemma_over_in_range(o: u8, b: u8, a: u8)
    ensures
        0 <= over_channel(o as int, b as int, a as int) <= 255,
        a <= over_alpha(a as int, b as int) <= 255,
{
    let (o, b, a) = (o as int, b as int, a as int);
    assert(0 <= o * a + b * (255 - a) <= 255 * 255) by (nonlinear_arith)
        requires
            0 <= o <= 255,
            0 <= b <= 255,
            0 <= a <= 255,
    {
        assert(o * a <= 255 * a);
        assert(b * (255 - a) <= 255 * (255 - a));
    }
    assert(0 <= b * (255 - a) + 127 < 255 * (255 - a) + 255) by (nonlinear_arith)
        requires
            0 <= b <= 255,
            0 <= a <= 255,
    ;
    assert((b * (255 - a) + 127) / 255 <= 255 - a) by (nonlinear_arith)
        requires
            0 <= b * (255 - a) + 127 < 255 * (255 - a) + 255,
            0 <= a <= 255,
    ;
}

/// Blends one colour channel: overlay value `o` with alpha `a` over base
/// value `b`, rounded to nearest.
pub fn blend_channel(o: u8, b: u8, a: u8) -> (r: u8)
    ensures
        r == over_channel(o as int, b as int, a as int),
{
    proof {
        lemma_over_in_range(o, b, a);
        assert(o as int * a as int <= 255 * 255) by (nonlinear_arith)
            requires
                o <= 255,
                a <= 255,
        ;
        assert(b as int * (255 - a as int) <= 255 * 255) by (nonlinear_arith)
            requires
                b <= 255,
                a <= 255,
        ;
    }
    let n: u32 = o as u32 * a as u32 + b as u32 * (255 - a as u32) + 127;
    (n / 255) as u8
}

/// Blends the alpha channel: overlay alpha `oa` over base alpha `ba`,
/// rounded to nearest.
pub fn blend_alpha(oa: u8, ba: u8) -> (r: u8)
    ensures
        r == over_alpha(oa as int, ba as int),
{
    proof {
        lemma_over_in_range(0, ba, oa);
        assert(ba as int * (255 - oa as int) <= 255 * 255) by (nonlinear_arith)
            requires
                ba <= 255,
                oa <= 255,
        ;
    }
    let n: u32 = ba as u32 * (255 - oa as u32) + 127;
    (oa as u32 + n / 255) as u8
}

/// Blends the overlay pixel at byte offset `o_idx` of `overlay` onto the
/// base pixel at byte offset `b_idx` of `base`. Every other byte of `base`
/// keeps its value.
pub fn blend_pixel(base: &mut Vec<u8>, b_idx: usize, overlay: &Vec<u8>, o_idx: usize)
    requires
        b_idx + 4 <= old(base)@.len(),
        o_idx + 4 <= overlay@.len(),
    ensures
        final(base)@.len() == old(base)@.len(),
        forall|c: int|
            0 <= c < 4 ==> #[trigger] final(base)@[b_idx + c] == over_byte(
                overlay@[o_idx + c],
                old(base)@[b_idx + c],
                overlay@[o_idx + 3],
                c,
            ),
        forall|i: int|
            0 <= i < old(base)@.len() && !(b_idx <= i < b_idx + 4) ==> #[trigger] final(base)@[i]
                == old(base)@[i],
{
    // A vector's length is a usize, so the offsets below cannot overflow.
    let _ = (overlay.len(), base.len());
    let a = overlay[o_idx + 3];
    if a == 0 {
        return;
    }
    let r = blend_channel(overlay[o_idx], base[b_idx], a);
    base.set(b_idx, r);
    let g = blend_channel(overlay[o_idx + 1], base[b_idx + 1], a);
    base.set(b_idx + 1, g);
    let b = blend_channel(overlay[o_idx + 2], base[b_idx + 2], a);
    base.set(b_idx + 2, b);
    let ba = blend_alpha(a, base[b_idx + 3]);
    base.set(b_idx + 3, ba);
    assert forall|c: int| 0 <= c < 4 implies #[trigger] base@[b_idx + c] == over_byte(
        overlay@[o_idx + c],
        old(base)@[b_idx + c],
        overlay@[o_idx + 3],
        c,
    ) by {
        assert(c == 0 || c == 1 || c == 2 || c == 3);
    }
}

} // verus!
