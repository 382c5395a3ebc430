//! Pixel transform: inverts every color channel of a decoded bitmap in
//! place.
//!
//! Replacing a channel value `v` of bit width `w` by `2^w - 1 - v` is the
//! same as flipping each of the channel's bits, so the transform is
//! specified and carried out bit by bit. When the header carries explicit
//! channel masks, each channel's bit range within each pixel is flipped on
//! its own (a bit covered by an even number of ranges ends up unchanged);
//! without masks the whole pixel word is flipped.

use vstd::prelude::*;
use crate::bitmap::BmpInfo;

verus! {

/// Bit `j` of a byte.
pub open spec fn spec_bit_u8(b: u8, j: u8) -> bool {
    (b >> j) & 1 == 1
}

/// Bit `k` of a byte sequence, least significant bit of each byte first.
pub open spec fn spec_bit(s: Seq<u8>, k: int) -> bool {
    spec_bit_u8(s[k / 8], (k % 8) as u8)
}

/// Index of the lowest set bit of `mask` at or above `i`, or 32 when
/// there is none.
pub open spec fn spec_mask_lo(mask: u32, i: int) -> int
    decreases 32 - i,
{
    if i < 0 || i >= 32 {
        32
    } else if (mask >> (i as u32)) & 1 == 1 {
        i
    } else {
        spec_mask_lo(mask, i + 1)
    }
}

/// One past the highest set bit of `mask` below `i`, or 0 when there is
/// none.
pub open spec fn spec_mask_hi(mask: u32, i: int) -> int
    decreases i,
{
    if i <= 0 || i > 32 {
        0
    } else if (mask >> ((i - 1) as u32)) & 1 == 1 {
        i
    } else {
        spec_mask_hi(mask, i - 1)
    }
}

/// Whether bit offset `o` of a pixel falls in the channel that `mask`
/// describes: between the mask's lowest and one past its highest set bit.
pub open spec fn spec_in_channel(mask: u32, o: int) -> bool {
    spec_mask_lo(mask, 0) <= o < spec_mask_hi(mask, 32)
}

/// Whether bit offset `o` of a pixel is flipped: with channel masks, when
/// an odd number of the three channel ranges cover it (the ranges are
/// flipped one after the other); without masks, always.
pub open spec fn spec_flip_parity(info: BmpInfo, o: int) -> bool {
    match info.channel_masks {
        None => true,
        Some(m) => ((spec_in_channel(m.0, o) != spec_in_channel(m.1, o)) != spec_in_channel(
            m.2,
            o,
        )),
    }
}

/// Where the pixel-data region starts, clamped to the buffer.
pub open spec fn spec_region_start(info: BmpInfo, len: int) -> int {
    if info.image_data_start <= len {
        info.image_data_start as int
    } else {
        len
    }
}

/// The pixel-data length the header declares; a declared length of zero
/// means it is computed from the image dimensions.
pub open spec fn spec_declared_len(info: BmpInfo) -> int {
    if info.image_data_len == 0 {
        info.width * info.height * info.bpp_bits / 8
    } else {
        info.image_data_len as int
    }
}

/// The length of the pixel-data region actually transformed: the declared
/// length, clamped to what the buffer holds past the region start.
pub open spec fn spec_region_len(info: BmpInfo, len: int) -> int {
    let avail = len - spec_region_start(info, len);
    if spec_declared_len(info) <= avail {
        spec_declared_len(info)
    } else {
        avail
    }
}

/// How many whole pixels the region holds; trailing bits that do not make
/// a whole pixel are left untouched.
pub open spec fn spec_num_pixels(info: BmpInfo, len: int) -> int {
    if info.bpp_bits == 0 {
        0
    } else {
        spec_region_len(info, len) * 8 / (info.bpp_bits as int)
    }
}

/// Whether bit `k` of a buffer of length `len` is flipped by the
/// transform, counting only the first `p_limit` pixels of the region.
pub open spec fn spec_flipped_upto(info: BmpInfo, len: int, p_limit: int, k: int) -> bool {
    let fb = spec_region_start(info, len) * 8;
    let bpp = info.bpp_bits as int;
    bpp > 0 && fb <= k < fb + p_limit * bpp && spec_flip_parity(info, (k - fb) % bpp)
}

/// Whether bit `k` of a buffer of length `len` is flipped by the
/// transform.
pub open spec fn spec_flipped_bit(info: BmpInfo, len: int, k: int) -> bool {
    spec_flipped_upto(info, len, spec_num_pixels(info, len), k)
}

/// The xor mask the transform applies to byte `i` of a buffer of length
/// `len`: bit `j` is set exactly when the transform flips bit `8 i + j`.
pub open spec fn spec_flip_mask_byte(info: BmpInfo, len: int, i: int) -> u8 {
    (if spec_flipped_bit(info, len, 8 * i + 0) {
        1u8
    } else {
        0u8
    }) | (if spec_flipped_bit(info, len, 8 * i + 1) {
        2u8
    } else {
        0u8
    }) | (if spec_flipped_bit(info, len, 8 * i + 2) {
        4u8
    } else {
        0u8
    }) | (if spec_flipped_bit(info, len, 8 * i + 3) {
        8u8
    } else {
        0u8
    }) | (if spec_flipped_bit(info, len, 8 * i + 4) {
        16u8
    } else {
        0u8
    }) | (if spec_flipped_bit(info, len, 8 * i + 5) {
        32u8
    } else {
        0u8
    }) | (if spec_flipped_bit(info, len, 8 * i + 6) {
        64u8
    } else {
        0u8
    }) | (if spec_flipped_bit(info, len, 8 * i + 7) {
        128u8
    } else {
        0u8
    })
}

/// The whole buffer after the transform: every byte xored with its flip
/// mask.
pub open spec fn spec_invert_image(s: Seq<u8>, info: BmpInfo) -> Seq<u8> {
    Seq::new(s.len(), |i: int| s[i] ^ spec_flip_mask_byte(info, s.len() as int, i))
}

/// Byte `i` of a transformed buffer equals the original byte xored with
/// its flip mask.
proof fn lemma_invert_byte(s1: Seq<u8>, s2: Seq<u8>, info: BmpInfo, i: int)
    requires
        s1.len() == s2.len(),
        forall|k: int|
            0 <= k < s1.len() * 8 ==> spec_bit(s2, k) == (spec_bit(s1, k) != spec_flipped_bit(
                info,
                s1.len() as int,
                k,
            )),
        0 <= i < s1.len(),
    ensures
        s2[i] == s1[i] ^ spec_flip_mask_byte(info, s1.len() as int, i),
{
    let len = s1.len() as int;
    let x = s1[i];
    let y = s2[i];
    let m = spec_flip_mask_byte(info, len, i);
    let c0: u8 = if spec_flipped_bit(info, len, 8 * i + 0) {
        1u8
    } else {
        0u8
    };
    let c1: u8 = if spec_flipped_bit(info, len, 8 * i + 1) {
        2u8
    } else {
        0u8
    };
    let c2: u8 = if spec_flipped_bit(info, len, 8 * i + 2) {
        4u8
    } else {
        0u8
    };
    let c3: u8 = if spec_flipped_bit(info, len, 8 * i + 3) {
        8u8
    } else {
        0u8
    };
    let c4: u8 = if spec_flipped_bit(info, len, 8 * i + 4) {
        16u8
    } else {
        0u8
    };
    let c5: u8 = if spec_flipped_bit(info, len, 8 * i + 5) {
        32u8
    } else {
        0u8
    };
    let c6: u8 = if spec_flipped_bit(info, len, 8 * i + 6) {
        64u8
    } else {
        0u8
    };
    let c7: u8 = if spec_flipped_bit(info, len, 8 * i + 7) {
        128u8
    } else {
        0u8
    };
    assert forall|j: int| 0 <= j < 8 implies #[trigger] ((8 * i + j) / 8) == i && (8 * i + j) % 8
        == j && 0 <= 8 * i + j < s1.len() * 8 by {
        assert((8 * i + j) / 8 == i && (8 * i + j) % 8 == j && 8 * i + j < (i + 1) * 8) by (
        nonlinear_arith)
            requires
                0 <= j < 8 && 0 <= i,
        ;
        assert((i + 1) * 8 <= s1.len() * 8) by (nonlinear_arith)
            requires
                i + 1 <= s1.len(),
        ;
    }
    assert forall|j: u8| j < 8 implies #[trigger] spec_bit_u8(y, j) == (spec_bit_u8(x, j)
        != spec_flipped_bit(info, len, 8 * i + j)) by {
        let ji = j as int;
        assert((8 * i + ji) / 8 == i && (8 * i + ji) % 8 == ji && 0 <= 8 * i + ji < s1.len() * 8);
        assert(spec_bit(s2, 8 * i + ji) == (spec_bit(s1, 8 * i + ji) != spec_flipped_bit(
            info,
            len,
            8 * i + ji,
        )));
    }
    assert(spec_bit_u8(y, 0) == (spec_bit_u8(x, 0) != spec_flipped_bit(info, len, 8 * i + 0)));
    assert(spec_bit_u8(y, 1) == (spec_bit_u8(x, 1) != spec_flipped_bit(info, len, 8 * i + 1)));
    assert(spec_bit_u8(y, 2) == (spec_bit_u8(x, 2) != spec_flipped_bit(info, len, 8 * i + 2)));
    assert(spec_bit_u8(y, 3) == (spec_bit_u8(x, 3) != spec_flipped_bit(info, len, 8 * i + 3)));
    assert(spec_bit_u8(y, 4) == (spec_bit_u8(x, 4) != spec_flipped_bit(info, len, 8 * i + 4)));
    assert(spec_bit_u8(y, 5) == (spec_bit_u8(x, 5) != spec_flipped_bit(info, len, 8 * i + 5)));
    assert(spec_bit_u8(y, 6) == (spec_bit_u8(x, 6) != spec_flipped_bit(info, len, 8 * i + 6)));
    assert(spec_bit_u8(y, 7) == (spec_bit_u8(x, 7) != spec_flipped_bit(info, len, 8 * i + 7)));
    assert(((m >> 0u8) & 1 == 1) == (c0 == 1) && ((m >> 1u8) & 1 == 1) == (c1 == 2) && ((m
        >> 2u8) & 1 == 1) == (c2 == 4) && ((m >> 3u8) & 1 == 1) == (c3 == 8) && ((m >> 4u8) & 1
        == 1) == (c4 == 16) && ((m >> 5u8) & 1 == 1) == (c5 == 32) && ((m >> 6u8) & 1 == 1) == (c6
        == 64) && ((m >> 7u8) & 1 == 1) == (c7 == 128)) by (bit_vector)
        requires
            (c0 == 0 || c0 == 1) && (c1 == 0 || c1 == 2) && (c2 == 0 || c2 == 4) && (c3 == 0 || c3
                == 8) && (c4 == 0 || c4 == 16) && (c5 == 0 || c5 == 32) && (c6 == 0 || c6 == 64)
                && (c7 == 0 || c7 == 128) && m == (c0 | c1 | c2 | c3 | c4 | c5 | c6 | c7),
    ;
    assert(y == x ^ m) by (bit_vector)
        requires
            (((y >> 0u8) & 1 == 1) == (((x >> 0u8) & 1 == 1) != ((m >> 0u8) & 1 == 1))) && (((y
                >> 1u8) & 1 == 1) == (((x >> 1u8) & 1 == 1) != ((m >> 1u8) & 1 == 1))) && (((y
                >> 2u8) & 1 == 1) == (((x >> 2u8) & 1 == 1) != ((m >> 2u8) & 1 == 1))) && (((y
                >> 3u8) & 1 == 1) == (((x >> 3u8) & 1 == 1) != ((m >> 3u8) & 1 == 1))) && (((y
                >> 4u8) & 1 == 1) == (((x >> 4u8) & 1 == 1) != ((m >> 4u8) & 1 == 1))) && (((y
                >> 5u8) & 1 == 1) == (((x >> 5u8) & 1 == 1) != ((m >> 5u8) & 1 == 1))) && (((y
                >> 6u8) & 1 == 1) == (((x >> 6u8) & 1 == 1) != ((m >> 6u8) & 1 == 1))) && (((y
                >> 7u8) & 1 == 1) == (((x >> 7u8) & 1 == 1) != ((m >> 7u8) & 1 == 1))),
    ;
}

/// A buffer whose bits stand to the original as the transform demands is
/// exactly the original with every flip mask applied.
pub proof fn lemma_invert_image_bytes(s1: Seq<u8>, s2: Seq<u8>, info: BmpInfo)
    requires
        s1.len() == s2.len(),
        forall|k: int|
            0 <= k < s1.len() * 8 ==> spec_bit(s2, k) == (spec_bit(s1, k) != spec_flipped_bit(
                info,
                s1.len() as int,
                k,
            )),
    ensures
        s2 == spec_invert_image(s1, info),
{
    assert forall|i: int| 0 <= i < s1.len() implies s2[i] == spec_invert_image(s1, info)[i] by {
        lemma_invert_byte(s1, s2, info, i);
    }
    assert(s2 =~= spec_invert_image(s1, info));
}

/// The bits of the transformed buffer: bit `k` is the original bit,
/// flipped exactly when the transform flips it. Together with
/// `lemma_flipped_field_value` this gives the channel arithmetic: a
/// channel field whose bits are all flipped carries `2^w - 1` minus its
/// old value.
pub proof fn lemma_invert_image_bits(s: Seq<u8>, info: BmpInfo)
    ensures
        spec_invert_image(s, info).len() == s.len(),
        forall|k: int|
            0 <= k < s.len() * 8 ==> #[trigger] spec_bit(spec_invert_image(s, info), k) == (
            spec_bit(s, k) != spec_flipped_bit(info, s.len() as int, k)),
{
    let t = spec_invert_image(s, info);
    let len = s.len() as int;
    assert forall|k: int| 0 <= k < s.len() * 8 implies #[trigger] spec_bit(t, k) == (spec_bit(s, k)
        != spec_flipped_bit(info, len, k)) by {
        let i = k / 8;
        let j = (k % 8) as u8;
        assert(0 <= i < s.len() && j < 8 && k == 8 * i + j) by (nonlinear_arith)
            requires
                i == k / 8 && j == k % 8 && 0 <= k < s.len() * 8 && s.len() >= 0,
        ;
        let x = s[i];
        let m = spec_flip_mask_byte(info, len, i);
        assert(t[i] == x ^ m);
        let c0: u8 = if spec_flipped_bit(info, len, 8 * i + 0) { 1u8 } else { 0u8 };
        let c1: u8 = if spec_flipped_bit(info, len, 8 * i + 1) { 2u8 } else { 0u8 };
        let c2: u8 = if spec_flipped_bit(info, len, 8 * i + 2) { 4u8 } else { 0u8 };
        let c3: u8 = if spec_flipped_bit(info, len, 8 * i + 3) { 8u8 } else { 0u8 };
        let c4: u8 = if spec_flipped_bit(info, len, 8 * i + 4) { 16u8 } else { 0u8 };
        let c5: u8 = if spec_flipped_bit(info, len, 8 * i + 5) { 32u8 } else { 0u8 };
        let c6: u8 = if spec_flipped_bit(info, len, 8 * i + 6) { 64u8 } else { 0u8 };
        let c7: u8 = if spec_flipped_bit(info, len, 8 * i + 7) { 128u8 } else { 0u8 };
        assert(((m >> 0u8) & 1 == 1) == (c0 == 1) && ((m >> 1u8) & 1 == 1) == (c1 == 2) && ((m
            >> 2u8) & 1 == 1) == (c2 == 4) && ((m >> 3u8) & 1 == 1) == (c3 == 8) && ((m >> 4u8) & 1
            == 1) == (c4 == 16) && ((m >> 5u8) & 1 == 1) == (c5 == 32) && ((m >> 6u8) & 1 == 1) == (
        c6 == 64) && ((m >> 7u8) & 1 == 1) == (c7 == 128)) by (bit_vector)
            requires
                (c0 == 0 || c0 == 1) && (c1 == 0 || c1 == 2) && (c2 == 0 || c2 == 4) && (c3 == 0
                    || c3 == 8) && (c4 == 0 || c4 == 16) && (c5 == 0 || c5 == 32) && (c6 == 0 || c6
                    == 64) && (c7 == 0 || c7 == 128) && m == (c0 | c1 | c2 | c3 | c4 | c5 | c6
                    | c7),
        ;
        assert((((x ^ m) >> j) & 1 == 1) == (((x >> j) & 1 == 1) != ((m >> j) & 1 == 1)))
            by (bit_vector)
            requires
                j < 8,
        ;
        if j == 0 {
            assert(spec_bit_u8(m, j) == spec_flipped_bit(info, len, k));
        } else if j == 1 {
            assert(spec_bit_u8(m, j) == spec_flipped_bit(info, len, k));
        } else if j == 2 {
            assert(spec_bit_u8(m, j) == spec_flipped_bit(info, len, k));
        } else if j == 3 {
            assert(spec_bit_u8(m, j) == spec_flipped_bit(info, len, k));
        } else if j == 4 {
            assert(spec_bit_u8(m, j) == spec_flipped_bit(info, len, k));
        } else if j == 5 {
            assert(spec_bit_u8(m, j) == spec_flipped_bit(info, len, k));
        } else if j == 6 {
            assert(spec_bit_u8(m, j) == spec_flipped_bit(info, len, k));
        } else {
            assert(spec_bit_u8(m, j) == spec_flipped_bit(info, len, k));
        }
    }
}

/// Two to the power `w` (1 for widths at or below zero).
pub open spec fn spec_pow2(w: int) -> int
    decreases w,
{
    if w <= 0 {
        1int
    } else {
        2 * spec_pow2(w - 1)
    }
}

/// Little-endian value of the `w` bits starting at bit `a` of a buffer.
pub open spec fn spec_field_value(s: Seq<u8>, a: int, w: int) -> int
    decreases w,
{
    if w <= 0 {
        0int
    } else {
        (if spec_bit(s, a) {
            1int
        } else {
            0int
        }) + 2 * spec_field_value(s, a + 1, w - 1)
    }
}

/// Flipping every bit of a `w`-bit field replaces its value `v` by
/// `2^w - 1 - v`: the arithmetic meaning of the channel inversion.
pub proof fn lemma_flipped_field_value(s1: Seq<u8>, s2: Seq<u8>, a: int, w: int)
    requires
        w >= 0,
        forall|k: int| a <= k < a + w ==> spec_bit(s2, k) == !spec_bit(s1, k),
    ensures
        spec_field_value(s2, a, w) == spec_pow2(w) - 1 - spec_field_value(s1, a, w),
    decreases w,
{
    if w > 0 {
        lemma_flipped_field_value(s1, s2, a + 1, w - 1);
        assert(spec_bit(s2, a) == !spec_bit(s1, a));
    }
}

/// Flipping one bit of a byte by xor leaves every other bit alone.
proof fn lemma_xor_bit(x: u8, j: u8, i: u8)
    requires
        i < 8,
        j < 8,
    ensures
        i == j ==> spec_bit_u8(x ^ (1u8 << j), i) == !spec_bit_u8(x, i),
        i != j ==> spec_bit_u8(x ^ (1u8 << j), i) == spec_bit_u8(x, i),
{
    assert(i == j ==> ((((x ^ (1u8 << j)) >> i) & 1 == 1) <==> !((x >> i) & 1 == 1)))
        by (bit_vector)
        requires
            i < 8 && j < 8,
    ;
    assert(i != j ==> ((((x ^ (1u8 << j)) >> i) & 1 == 1) <==> ((x >> i) & 1 == 1)))
        by (bit_vector)
        requires
            i < 8 && j < 8,
    ;
}

/// Flips the `w` bits starting at bit `a` of the buffer, leaving every
/// other bit unchanged.
fn flip_bits(buf: &mut Vec<u8>, a: usize, w: usize)
    requires
        a + w <= old(buf)@.len() * 8,
        old(buf)@.len() * 8 <= usize::MAX,
    ensures
        final(buf)@.len() == old(buf)@.len(),
        forall|k: int|
            0 <= k < old(buf)@.len() * 8 ==> spec_bit(final(buf)@, k) == (if a <= k < a + w {
                !spec_bit(old(buf)@, k)
            } else {
                spec_bit(old(buf)@, k)
            }),
{
    let ghost orig = old(buf)@;
    let ghost blen = old(buf)@.len() as int;
    let end: usize = a + w;
    let mut k: usize = a;
    while k < end
        invariant
            a <= k <= end,
            end <= blen * 8 <= usize::MAX,
            buf@.len() == blen,
            orig.len() == blen,
            forall|i: int|
                0 <= i < blen * 8 ==> spec_bit(buf@, i) == (if a <= i < k {
                    !spec_bit(orig, i)
                } else {
                    spec_bit(orig, i)
                }),
        decreases end - k,
    {
        let idx: usize = k / 8;
        let j: u8 = (k % 8) as u8;
        proof {
            assert(idx < blen && j < 8 && k == 8 * idx + j) by (nonlinear_arith)
                requires
                    idx == k / 8 && j == k % 8 && k < blen * 8 && 0 <= k && blen >= 0,
            ;
        }
        let ghost prev = buf@;
        let b: u8 = buf[idx];
        let nb: u8 = b ^ (1u8 << j);
        buf[idx] = nb;
        proof {
            assert(buf@ == prev.update(idx as int, nb));
            assert forall|i: int| 0 <= i < blen * 8 implies spec_bit(buf@, i) == (if a <= i < k
                + 1 {
                !spec_bit(orig, i)
            } else {
                spec_bit(orig, i)
            }) by {
                let bi = i / 8;
                let bj = (i % 8) as u8;
                assert(0 <= bi < blen && bj < 8 && i == 8 * bi + bj) by (nonlinear_arith)
                    requires
                        bi == i / 8 && bj == i % 8 && 0 <= i < blen * 8 && blen >= 0,
                ;
                if bi == idx {
                    lemma_xor_bit(b, j, bj);
                    if bj == j {
                        assert(i == k);
                    } else {
                        assert(i != k);
                    }
                } else {
                    assert(buf@[bi] == prev[bi]);
                    assert(i != k);
                }
            }
        }
        k = k + 1;
    }
}

/// The lowest set bit of `mask` and one past its highest set bit, as the
/// channel boundaries the masks define: (32, 0) when the mask is empty.
fn mask_bit_range(mask: u32) -> (r: (usize, usize))
    ensures
        r.0 == spec_mask_lo(mask, 0),
        r.1 == spec_mask_hi(mask, 32),
        r.0 <= 32,
        r.1 <= 32,
{
    let mut lo: usize = 0;
    while lo < 32 && (mask >> (lo as u32)) & 1 != 1
        invariant
            0 <= lo <= 32,
            spec_mask_lo(mask, 0) == spec_mask_lo(mask, lo as int),
        decreases 32 - lo,
    {
        lo = lo + 1;
    }
    proof {
        assert(spec_mask_lo(mask, lo as int) == lo);
    }
    let mut hi: usize = 32;
    while hi > 0 && (mask >> ((hi - 1) as u32)) & 1 != 1
        invariant
            0 <= hi <= 32,
            spec_mask_hi(mask, 32) == spec_mask_hi(mask, hi as int),
        decreases hi,
    {
        hi = hi - 1;
    }
    proof {
        assert(spec_mask_hi(mask, hi as int) == hi);
    }
    (lo, hi)
}

/// Inverts every color channel of the pixel data the header describes, in
/// place: each bit of each whole pixel that the channel layout covers is
/// flipped, which replaces each channel value `v` of width `w` by
/// `2^w - 1 - v`. Bytes outside the pixel-data region, trailing bits that
/// do not make a whole pixel, and bits outside every channel stay as they
/// were. The buffer keeps its length.
#[verifier::rlimit(60)]
pub fn invert_image(buf: &mut Vec<u8>, info: &BmpInfo)
    requires
        old(buf)@.len() * 8 <= usize::MAX,
    ensures
        final(buf)@.len() == old(buf)@.len(),
        forall|k: int|
            0 <= k < old(buf)@.len() * 8 ==> spec_bit(final(buf)@, k) == (spec_bit(old(buf)@, k)
                != spec_flipped_bit(*info, old(buf)@.len() as int, k)),
        final(buf)@ == spec_invert_image(old(buf)@, *info),
{
    let ghost orig = old(buf)@;
    let len: usize = buf.len();
    let ghost leni = len as int;
    if info.bpp_bits == 0 {
        proof {
            lemma_invert_image_bytes(orig, buf@, *info);
        }
        return ;
    }
    let bpp: usize = info.bpp_bits as usize;
    let start: usize = if info.image_data_start <= len {
        info.image_data_start
    } else {
        len
    };
    let avail: usize = len - start;
    proof {
        let w = info.width as int;
        let h = info.height as int;
        let bp = info.bpp_bits as int;
        assert(w * h <= 0xffff_ffff_int * 0xffff_ffff_int) by (nonlinear_arith)
            requires
                0 <= w <= 0xffff_ffff && 0 <= h <= 0xffff_ffff,
        ;
        assert(w * h * bp <= 0xffff_ffff_int * 0xffff_ffff_int * 0xffff_int) by (nonlinear_arith)
            requires
                0 <= w * h <= 0xffff_ffff_int * 0xffff_ffff_int && 0 <= bp <= 0xffff,
        ;
    }
    let declared: u128 = if info.image_data_len == 0 {
        (info.width as u128) * (info.height as u128) * (info.bpp_bits as u128) / 8
    } else {
        info.image_data_len as u128
    };
    let dlen: usize = if declared <= avail as u128 {
        declared as usize
    } else {
        avail
    };
    proof {
        assert(start == spec_region_start(*info, leni));
        assert(declared == spec_declared_len(*info));
        assert(dlen == spec_region_len(*info, leni));
    }
    let np: usize = dlen * 8 / bpp;
    let first_bit: usize = start * 8;
    proof {
        assert(np == spec_num_pixels(*info, leni));
        vstd::arithmetic::div_mod::lemma_fundamental_div_mod(dlen * 8, bpp as int);
        assert(np * bpp <= dlen * 8) by (nonlinear_arith)
            requires
                np == (dlen * 8) / (bpp as int) && bpp >= 1 && dlen >= 0 && (bpp as int) * np <= dlen
                    * 8,
        ;
        assert(first_bit + np * bpp <= leni * 8);
    }
    let (r_lo, r_hi, g_lo, g_hi, b_lo, b_hi): (usize, usize, usize, usize, usize, usize) =
        match info.channel_masks {
        Some(m) => {
            let r = mask_bit_range(m.0);
            let g = mask_bit_range(m.1);
            let b = mask_bit_range(m.2);
            (r.0, r.1, g.0, g.1, b.0, b.1)
        },
        None => (0, 0, 0, 0, 0, 0),
    };
    let mut p: usize = 0;
    while p < np
        invariant
            0 <= p <= np,
            buf@.len() == leni,
            orig.len() == leni,
            len == leni,
            bpp == info.bpp_bits,
            1 <= bpp,
            first_bit == spec_region_start(*info, leni) * 8,
            np == spec_num_pixels(*info, leni),
            first_bit + np * bpp <= leni * 8 <= usize::MAX,
            info.channel_masks matches Some(m) ==> r_lo == spec_mask_lo(m.0, 0) && r_hi
                == spec_mask_hi(m.0, 32) && g_lo == spec_mask_lo(m.1, 0) && g_hi == spec_mask_hi(
                m.1,
                32,
            ) && b_lo == spec_mask_lo(m.2, 0) && b_hi == spec_mask_hi(m.2, 32),
            forall|k: int|
                0 <= k < leni * 8 ==> spec_bit(buf@, k) == (spec_bit(orig, k) != spec_flipped_upto(
                    *info,
                    leni,
                    p as int,
                    k,
                )),
        decreases np - p,
    {
        proof {
            assert(p * bpp + bpp == (p + 1) * bpp) by (nonlinear_arith);
            assert(0 <= p * bpp && (p + 1) * bpp <= np * bpp) by (nonlinear_arith)
                requires
                    0 <= p && p + 1 <= np && bpp >= 0,
            ;
        }
        let pf: usize = first_bit + p * bpp;
        let ghost pi = p as int;
        let ghost fb = first_bit as int;
        let ghost bppi = bpp as int;
        let ghost v0 = buf@;
        match info.channel_masks {
            None => {
                flip_bits(buf, pf, bpp);
                proof {
                    assert forall|k: int| 0 <= k < leni * 8 implies spec_bit(buf@, k) == (spec_bit(
                        orig,
                        k,
                    ) != spec_flipped_upto(*info, leni, pi + 1, k)) by {
                        assert(spec_bit(buf@, k) == (if pf <= k < pf + bppi {
                            !spec_bit(v0, k)
                        } else {
                            spec_bit(v0, k)
                        }));
                        if pf <= k < pf + bppi {
                            let o = k - fb - pi * bppi;
                            assert(0 <= o < bppi);
                            assert(bppi * pi + o == k - fb) by (nonlinear_arith)
                                requires
                                    o == k - fb - pi * bppi,
                            ;
                            vstd::arithmetic::div_mod::lemma_mod_multiples_vanish(pi, o, bppi);
                            vstd::arithmetic::div_mod::lemma_small_mod(o as nat, bppi as nat);
                            assert((k - fb) % bppi == o);
                            assert(spec_flip_parity(*info, o));
                            assert(!spec_flipped_upto(*info, leni, pi, k));
                            assert(spec_flipped_upto(*info, leni, pi + 1, k));
                        } else {
                            assert(spec_flipped_upto(*info, leni, pi + 1, k) == spec_flipped_upto(
                                *info,
                                leni,
                                pi,
                                k,
                            ));
                        }
                    }
                }
            },
            Some(m) => {
                let rl: usize = if r_lo <= bpp {
                    r_lo
                } else {
                    bpp
                };
                let rh: usize = if r_hi <= bpp {
                    r_hi
                } else {
                    bpp
                };
                let gl: usize = if g_lo <= bpp {
                    g_lo
                } else {
                    bpp
                };
                let gh: usize = if g_hi <= bpp {
                    g_hi
                } else {
                    bpp
                };
                let bl: usize = if b_lo <= bpp {
                    b_lo
                } else {
                    bpp
                };
                let bh: usize = if b_hi <= bpp {
                    b_hi
                } else {
                    bpp
                };
                let rw: usize = if rh > rl {
                    rh - rl
                } else {
                    0
                };
                let gw: usize = if gh > gl {
                    gh - gl
                } else {
                    0
                };
                let bw: usize = if bh > bl {
                    bh - bl
                } else {
                    0
                };
                flip_bits(buf, pf + rl, rw);
                let ghost v1 = buf@;
                flip_bits(buf, pf + gl, gw);
                let ghost v2 = buf@;
                flip_bits(buf, pf + bl, bw);
                proof {
                    assert forall|k: int| 0 <= k < leni * 8 implies spec_bit(buf@, k) == (spec_bit(
                        orig,
                        k,
                    ) != spec_flipped_upto(*info, leni, pi + 1, k)) by {
                        let in_r = pf + rl <= k < pf + rl + rw;
                        let in_g = pf + gl <= k < pf + gl + gw;
                        let in_b = pf + bl <= k < pf + bl + bw;
                        assert(spec_bit(v1, k) == (if in_r {
                            !spec_bit(v0, k)
                        } else {
                            spec_bit(v0, k)
                        }));
                        assert(spec_bit(v2, k) == (if in_g {
                            !spec_bit(v1, k)
                        } else {
                            spec_bit(v1, k)
                        }));
                        assert(spec_bit(buf@, k) == (if in_b {
                            !spec_bit(v2, k)
                        } else {
                            spec_bit(v2, k)
                        }));
                        if pf <= k < pf + bppi {
                            let o = k - fb - pi * bppi;
                            assert(0 <= o < bppi);
                            assert(bppi * pi + o == k - fb) by (nonlinear_arith)
                                requires
                                    o == k - fb - pi * bppi,
                            ;
                            vstd::arithmetic::div_mod::lemma_mod_multiples_vanish(pi, o, bppi);
                            vstd::arithmetic::div_mod::lemma_small_mod(o as nat, bppi as nat);
                            assert((k - fb) % bppi == o);
                            assert(in_r <==> spec_in_channel(m.0, o));
                            assert(in_g <==> spec_in_channel(m.1, o));
                            assert(in_b <==> spec_in_channel(m.2, o));
                            assert(!spec_flipped_upto(*info, leni, pi, k));
                            assert(spec_flipped_upto(*info, leni, pi + 1, k) == spec_flip_parity(
                                *info,
                                o,
                            ));
                        } else {
                            assert(!in_r && !in_g && !in_b);
                            assert(spec_flipped_upto(*info, leni, pi + 1, k) == spec_flipped_upto(
                                *info,
                                leni,
                                pi,
                                k,
                            ));
                        }
                    }
                }
            },
        }
        p = p + 1;
    }
    proof {
        assert forall|k: int| 0 <= k < leni * 8 implies spec_bit(buf@, k) == (spec_bit(orig, k)
            != spec_flipped_bit(*info, leni, k)) by {
            assert(spec_flipped_bit(*info, leni, k) == spec_flipped_upto(
                *info,
                leni,
                np as int,
                k,
            ));
        }
        lemma_invert_image_bytes(orig, buf@, *info);
    }
}

} // verus!
