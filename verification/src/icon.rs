//! Byte layouts of the badge "pill" icon: the pixel post-pass after
//! drawing, the tray icon's color and mask bitmaps, the BMP image of an
//! `.ico` entry and the `.ico` container itself, plus the pill radius and
//! the font-shrinking steps used while drawing.

use vstd::prelude::*;
use crate::text::fits_i32;

verus! {

/// Little-endian bytes of a 16-bit value.
pub open spec fn le16(v: int) -> Seq<u8> {
    seq![(v % 256) as u8, ((v / 256) % 256) as u8]
}

/// Little-endian bytes of a 32-bit value.
pub open spec fn le32(v: int) -> Seq<u8> {
    seq![
        (v % 256) as u8,
        ((v / 256) % 256) as u8,
        ((v / 65536) % 256) as u8,
        ((v / 16777216) % 256) as u8,
    ]
}

fn push_u16_le(out: &mut Vec<u8>, v: u16)
    ensures
        final(out)@ == old(out)@ + le16(v as int),
{
    out.push((v % 256) as u8);
    out.push((v / 256) as u8);
    assert(final(out)@ =~= old(out)@ + le16(v as int));
}

fn push_u32_le(out: &mut Vec<u8>, v: u32)
    ensures
        final(out)@ == old(out)@ + le32(v as int),
{
    out.push((v % 256) as u8);
    out.push(((v / 256) % 256) as u8);
    out.push(((v / 65536) % 256) as u8);
    out.push((v / 16777216) as u8);
    assert(final(out)@ =~= old(out)@ + le32(v as int));
}

/// `v / d` as Rust's integer division computes it (rounding toward zero),
/// for `d > 0`.
pub open spec fn div_toward_zero(v: int, d: int) -> int {
    if v >= 0 {
        v / d
    } else {
        -((-v) / d)
    }
}

/// Corner radius of a `size`×`size` pill: 60% of the side, at least 2.
pub open spec fn pill_radius_spec(size: int) -> int {
    let r = size * 6 / 10;
    if r > 2 {
        r
    } else {
        2
    }
}

/// Corner radius of the pill for a `size`×`size` icon.
pub fn pill_radius(size: u32) -> (r: i32)
    requires
        size * 6 <= i32::MAX,
    ensures
        r == pill_radius_spec(size as int),
{
    let s = size as i32;
    let r = s * 6 / 10;
    if r > 2 {
        r
    } else {
        2
    }
}

/// The radius is 60% of the side, rounded down, but at least 2.
pub proof fn lemma_pill_radius_is_sixty_percent(size: int)
    requires
        size >= 0,
    ensures
        pill_radius_spec(size) >= 2,
        pill_radius_spec(size) > 2 ==> 10 * pill_radius_spec(size) <= 6 * size < 10
            * pill_radius_spec(size) + 10,
        pill_radius_spec(size) == 2 ==> 6 * size < 30,
{
}

/// The first font try is 72% of the icon (rounded down, at least 6) and
/// the width limit is 78% of the icon, rounded down.
pub proof fn lemma_font_start_percentages(size: int)
    requires
        size >= 0,
    ensures
        100 * font_start_spec(size).0 <= 78 * size < 100 * font_start_spec(size).0 + 100,
        font_start_spec(size).1 >= 6,
        font_start_spec(size).1 > 6 ==> 100 * font_start_spec(size).1 <= 72 * size < 100
            * font_start_spec(size).1 + 100,
        font_start_spec(size).1 == 6 ==> 72 * size < 700,
{
}

/// The pixel `p` of a drawn BGRA buffer as RGBA, opaque inside the pill.
pub open spec fn rgba_pixel(bgra: Seq<u8>, p: int, inside: bool) -> Seq<u8> {
    seq![bgra[4 * p + 2], bgra[4 * p + 1], bgra[4 * p], if inside {
        255u8
    } else {
        0u8
    }]
}

/// The first `n` pixels of a drawn BGRA buffer as RGBA.
pub open spec fn rgba_from_bgra_spec(bgra: Seq<u8>, inside: Seq<bool>, n: nat) -> Seq<u8>
    decreases n,
{
    if n == 0 {
        Seq::<u8>::empty()
    } else {
        rgba_from_bgra_spec(bgra, inside, (n - 1) as nat) + rgba_pixel(
            bgra,
            n - 1,
            inside[n - 1],
        )
    }
}

/// The drawn pixels (BGRA, top-down) as RGBA, with alpha 255 for the pixels
/// inside the pill region and 0 outside (`inside[p]` for pixel `p`).
pub fn rgba_from_bgra(bgra: &[u8], inside: &[bool]) -> (out: Vec<u8>)
    requires
        bgra.len() == 4 * inside.len(),
    ensures
        out@ == rgba_from_bgra_spec(bgra@, inside@, inside.len() as nat),
        out@.len() == bgra.len(),
{
    let mut out: Vec<u8> = Vec::new();
    let mut p: usize = 0;
    while p < inside.len()
        invariant
            p <= inside.len(),
            bgra.len() == 4 * inside.len(),
            out@ == rgba_from_bgra_spec(bgra@, inside@, p as nat),
            out@.len() == 4 * p,
        decreases inside.len() - p,
    {
        let i = 4 * p;
        out.push(bgra[i + 2]);
        out.push(bgra[i + 1]);
        out.push(bgra[i]);
        out.push(
            if inside[p] {
                255u8
            } else {
                0u8
            },
        );
        p = p + 1;
        assert(out@ =~= rgba_from_bgra_spec(bgra@, inside@, p as nat));
    }
    out
}

proof fn lemma_rgba_from_bgra_len(bgra: Seq<u8>, inside: Seq<bool>, n: nat)
    ensures
        rgba_from_bgra_spec(bgra, inside, n).len() == 4 * n,
    decreases n,
{
    if n > 0 {
        lemma_rgba_from_bgra_len(bgra, inside, (n - 1) as nat);
    }
}

/// The post-pass turns each drawn pixel `p` (B, G, R, _) into R, G, B and an
/// alpha of 255 inside the pill, 0 outside.
pub proof fn lemma_rgba_from_bgra_pixel(bgra: Seq<u8>, inside: Seq<bool>, n: nat, p: int)
    requires
        0 <= p < n,
    ensures
        ({
            let out = rgba_from_bgra_spec(bgra, inside, n);
            &&& out.len() == 4 * n
            &&& out[4 * p] == bgra[4 * p + 2]
            &&& out[4 * p + 1] == bgra[4 * p + 1]
            &&& out[4 * p + 2] == bgra[4 * p]
            &&& out[4 * p + 3] == (if inside[p] {
                255u8
            } else {
                0u8
            })
        }),
    decreases n,
{
    lemma_rgba_from_bgra_len(bgra, inside, (n - 1) as nat);
    if p < n - 1 {
        lemma_rgba_from_bgra_pixel(bgra, inside, (n - 1) as nat, p);
    }
}

/// The pixel `p` of an RGBA buffer with red and blue swapped.
pub open spec fn swapped_pixel(px: Seq<u8>, p: int) -> Seq<u8> {
    seq![px[4 * p + 2], px[4 * p + 1], px[4 * p], px[4 * p + 3]]
}

/// The first `n` pixels with red and blue swapped.
pub open spec fn swap_red_blue(px: Seq<u8>, n: nat) -> Seq<u8>
    decreases n,
{
    if n == 0 {
        Seq::<u8>::empty()
    } else {
        swap_red_blue(px, (n - 1) as nat) + swapped_pixel(px, n - 1)
    }
}

proof fn lemma_swap_red_blue_len(px: Seq<u8>, n: nat)
    ensures
        swap_red_blue(px, n).len() == 4 * n,
    decreases n,
{
    if n > 0 {
        lemma_swap_red_blue_len(px, (n - 1) as nat);
    }
}

/// Pixel `p` (R, G, B, A) of the source becomes B, G, R, A.
pub proof fn lemma_swap_red_blue_pixel(px: Seq<u8>, n: nat, p: int)
    requires
        0 <= p < n,
    ensures
        ({
            let out = swap_red_blue(px, n);
            &&& out.len() == 4 * n
            &&& out[4 * p] == px[4 * p + 2]
            &&& out[4 * p + 1] == px[4 * p + 1]
            &&& out[4 * p + 2] == px[4 * p]
            &&& out[4 * p + 3] == px[4 * p + 3]
        }),
    decreases n,
{
    lemma_swap_red_blue_len(px, (n - 1) as nat);
    if p < n - 1 {
        lemma_swap_red_blue_pixel(px, (n - 1) as nat, p);
    }
}

/// An RGBA buffer as the BGRA bytes of the tray icon's color bitmap.
pub fn bgra_from_rgba(rgba: &[u8]) -> (out: Vec<u8>)
    requires
        rgba.len() % 4 == 0,
    ensures
        out@ == swap_red_blue(rgba@, (rgba.len() / 4) as nat),
        out@.len() == rgba.len(),
{
    let n = rgba.len() / 4;
    let mut out: Vec<u8> = Vec::new();
    let mut p: usize = 0;
    while p < n
        invariant
            p <= n,
            n == rgba.len() / 4,
            rgba.len() % 4 == 0,
            out@ == swap_red_blue(rgba@, p as nat),
            out@.len() == 4 * p,
        decreases n - p,
    {
        let i = 4 * p;
        out.push(rgba[i + 2]);
        out.push(rgba[i + 1]);
        out.push(rgba[i]);
        out.push(rgba[i + 3]);
        p = p + 1;
        assert(out@ =~= swap_red_blue(rgba@, p as nat));
    }
    out
}

/// Alpha of pixel (x, y) of a `size`×`size` RGBA buffer.
pub open spec fn alpha_at(rgba: Seq<u8>, size: int, x: int, y: int) -> u8 {
    rgba[(y * size + x) * 4 + 3]
}

/// The first `k` bits (most significant first) of byte `b` of mask row `y`:
/// a bit is set for each pixel of the row that is fully transparent.
pub open spec fn mask_bits(rgba: Seq<u8>, size: int, y: int, b: int, k: nat) -> u8
    decreases k,
{
    if k == 0 {
        0u8
    } else {
        let x = 8 * b + k - 1;
        let bit: u8 = if x < size && alpha_at(rgba, size, x, y) == 0 {
            0x80u8 >> ((k - 1) as u8)
        } else {
            0u8
        };
        mask_bits(rgba, size, y, b, (k - 1) as nat) | bit
    }
}

/// The first `nb` bytes of the 1-bpp mask row for pixel row `y`.
pub open spec fn mask_row(rgba: Seq<u8>, size: int, y: int, nb: nat) -> Seq<u8>
    decreases nb,
{
    if nb == 0 {
        Seq::<u8>::empty()
    } else {
        mask_row(rgba, size, y, (nb - 1) as nat).push(mask_bits(rgba, size, y, nb - 1, 8))
    }
}

/// The pixel row stored as the `i`-th row: top-down, or bottom-up.
pub open spec fn stored_row(size: int, i: int, bottom_up: bool) -> int {
    if bottom_up {
        size - 1 - i
    } else {
        i
    }
}

/// The first `r` stored rows of a 1-bpp mask with rows of `stride` bytes.
pub open spec fn mask_rows(rgba: Seq<u8>, size: int, stride: nat, bottom_up: bool, r: nat) -> Seq<
    u8,
>
    decreases r,
{
    if r == 0 {
        Seq::<u8>::empty()
    } else {
        mask_rows(rgba, size, stride, bottom_up, (r - 1) as nat) + mask_row(
            rgba,
            size,
            stored_row(size, r - 1, bottom_up),
            stride,
        )
    }
}

proof fn lemma_pixel_index(size: int, x: int, y: int)
    requires
        0 <= x < size,
        0 <= y < size,
    ensures
        0 <= (y * size + x) * 4 + 3 < size * size * 4,
        (y * size + x) * 4 == 4 * (y * size) + 4 * x,
{
    assert(0 <= y * size) by (nonlinear_arith)
        requires
            0 <= y,
            0 <= size,
    ;
    assert(y * size + x < size * size) by (nonlinear_arith)
        requires
            0 <= x < size,
            0 <= y < size,
    ;
}

/// One byte of a mask row.
fn mask_byte(rgba: &[u8], size: usize, y: usize, b: usize) -> (m: u8)
    requires
        rgba.len() == size * size * 4,
        y < size,
        8 * b + 8 <= usize::MAX,
    ensures
        m == mask_bits(rgba@, size as int, y as int, b as int, 8),
{
    let mut m: u8 = 0;
    let mut k: usize = 0;
    while k < 8
        invariant
            k <= 8,
            rgba.len() == size * size * 4,
            y < size,
            8 * b + 8 <= usize::MAX,
            m == mask_bits(rgba@, size as int, y as int, b as int, k as nat),
        decreases 8 - k,
    {
        let x = 8 * b + k;
        let mut bit: u8 = 0;
        if x < size {
            proof {
                lemma_pixel_index(size as int, x as int, y as int);
            }
            if rgba[(y * size + x) * 4 + 3] == 0 {
                bit = 0x80u8 >> (k as u8);
            }
        }
        m = m | bit;
        k = k + 1;
    }
    m
}

/// A 1-bpp transparency mask of a `size`×`size` RGBA buffer: rows of
/// `stride` bytes, top-down or bottom-up, a bit set (most significant bit
/// first) for every fully transparent pixel.
fn and_mask(rgba: &[u8], size: usize, stride: usize, bottom_up: bool) -> (out: Vec<u8>)
    requires
        rgba.len() == size * size * 4,
        8 * stride + 8 <= usize::MAX,
    ensures
        out@ == mask_rows(rgba@, size as int, stride as nat, bottom_up, size as nat),
{
    let mut out: Vec<u8> = Vec::new();
    let mut r: usize = 0;
    while r < size
        invariant
            r <= size,
            rgba.len() == size * size * 4,
            8 * stride + 8 <= usize::MAX,
            out@ == mask_rows(rgba@, size as int, stride as nat, bottom_up, r as nat),
        decreases size - r,
    {
        let y = if bottom_up {
            size - 1 - r
        } else {
            r
        };
        let ghost before = out@;
        let mut b: usize = 0;
        while b < stride
            invariant
                b <= stride,
                r < size,
                y < size,
                y == stored_row(size as int, r as int, bottom_up),
                rgba.len() == size * size * 4,
                8 * stride + 8 <= usize::MAX,
                out@ == before + mask_row(rgba@, size as int, y as int, b as nat),
            decreases stride - b,
        {
            let m = mask_byte(rgba, size, y, b);
            out.push(m);
            b = b + 1;
            assert(out@ =~= before + mask_row(rgba@, size as int, y as int, b as nat));
        }
        r = r + 1;
        assert(out@ =~= mask_rows(rgba@, size as int, stride as nat, bottom_up, r as nat));
    }
    out
}

/// Bit `7 - k` of the first `j` bits of a mask byte is set exactly when
/// `k < j` and pixel `8*b + k` of the row exists and is fully transparent.
proof fn lemma_mask_bits_bit(rgba: Seq<u8>, size: int, y: int, b: int, j: nat, k: nat)
    requires
        k < 8,
        j <= 8,
    ensures
        ((mask_bits(rgba, size, y, b, j) >> ((7 - k) as u8)) & 1u8 == 1u8) == (k < j && 8 * b
            + k < size && alpha_at(rgba, size, 8 * b + k, y) == 0),
    decreases j,
{
    let s = (7 - k) as u8;
    if j == 0 {
        assert((0u8 >> s) & 1u8 == 0u8) by (bit_vector);
    } else {
        lemma_mask_bits_bit(rgba, size, y, b, (j - 1) as nat, k);
        let m = mask_bits(rgba, size, y, b, (j - 1) as nat);
        let x = 8 * b + j - 1;
        let t: u8 = if x < size && alpha_at(rgba, size, x, y) == 0 {
            0x80u8 >> ((j - 1) as u8)
        } else {
            0u8
        };
        assert(mask_bits(rgba, size, y, b, j) == m | t);
        assert(((m | t) >> s) & 1u8 == ((m >> s) & 1u8) | ((t >> s) & 1u8)) by (bit_vector);
        assert(((m >> s) & 1u8) <= 1u8) by (bit_vector);
        assert(((t >> s) & 1u8) <= 1u8) by (bit_vector);
        let bm = (m >> s) & 1u8;
        let bt = (t >> s) & 1u8;
        assert(bm <= 1u8 && bt <= 1u8 ==> ((bm | bt) == 1u8 <==> (bm == 1u8 || bt == 1u8))) by (
        bit_vector);
        let jj = (j - 1) as u8;
        assert(jj as int == j - 1);
        assert(s as int == 7 - k);
        assert(s < 8 && jj < 8 ==> ((((0x80u8 >> jj) >> s) & 1u8 == 1u8) == (jj == 7 - s))) by (
        bit_vector);
        assert(((0u8 >> s) & 1u8) == 0u8) by (bit_vector);
        if x < size && alpha_at(rgba, size, x, y) == 0 {
            assert(((t >> s) & 1u8 == 1u8) == (j - 1 == k));
        } else {
            assert((t >> s) & 1u8 == 0u8);
        }
    }
}

/// A mask byte marks exactly the fully transparent pixels it covers: bit
/// `7 - k` of byte `b` of the row for pixel row `y` is set iff pixel
/// `8*b + k` lies in the row and has alpha 0.
pub proof fn lemma_mask_marks_transparent_pixels(rgba: Seq<u8>, size: int, y: int, b: int, k: nat)
    requires
        k < 8,
    ensures
        ((mask_bits(rgba, size, y, b, 8) >> ((7 - k) as u8)) & 1u8 == 1u8) == (8 * b + k < size
            && alpha_at(rgba, size, 8 * b + k, y) == 0),
{
    lemma_mask_bits_bit(rgba, size, y, b, 8, k);
}

/// The mask rows have `stride` bytes each, and stored row `r` is the mask
/// row of pixel row `stored_row(size, r, bottom_up)`.
pub proof fn lemma_mask_rows_layout(
    rgba: Seq<u8>,
    size: int,
    stride: nat,
    bottom_up: bool,
    n: nat,
    r: int,
)
    requires
        0 <= r < n,
    ensures
        mask_rows(rgba, size, stride, bottom_up, n).len() == n * stride,
        mask_rows(rgba, size, stride, bottom_up, n).subrange(r * stride, r * stride + stride)
            == mask_row(rgba, size, stored_row(size, r, bottom_up), stride),
    decreases n,
{
    lemma_mask_rows_len(rgba, size, stride, bottom_up, (n - 1) as nat);
    let prev = mask_rows(rgba, size, stride, bottom_up, (n - 1) as nat);
    let row = mask_row(rgba, size, stored_row(size, n - 1, bottom_up), stride);
    lemma_mask_row_len(rgba, size, stored_row(size, n - 1, bottom_up), stride);
    assert(n * stride == (n - 1) * stride + stride) by (nonlinear_arith);
    if r < n - 1 {
        lemma_mask_rows_layout(rgba, size, stride, bottom_up, (n - 1) as nat, r);
        assert(r * stride + stride <= (n - 1) * stride) by (nonlinear_arith)
            requires
                r < n - 1,
                0 <= r,
        ;
        assert(0 <= r * stride) by (nonlinear_arith)
            requires
                0 <= r,
        ;
        assert((prev + row).subrange(r * stride, r * stride + stride) =~= prev.subrange(
            r * stride,
            r * stride + stride,
        ));
    } else {
        assert((prev + row).subrange(r * stride, r * stride + stride) =~= row);
    }
}

proof fn lemma_mask_row_len(rgba: Seq<u8>, size: int, y: int, nb: nat)
    ensures
        mask_row(rgba, size, y, nb).len() == nb,
    decreases nb,
{
    if nb > 0 {
        lemma_mask_row_len(rgba, size, y, (nb - 1) as nat);
    }
}

proof fn lemma_mask_rows_len(rgba: Seq<u8>, size: int, stride: nat, bottom_up: bool, n: nat)
    ensures
        mask_rows(rgba, size, stride, bottom_up, n).len() == n * stride,
    decreases n,
{
    if n > 0 {
        lemma_mask_rows_len(rgba, size, stride, bottom_up, (n - 1) as nat);
        lemma_mask_row_len(rgba, size, stored_row(size, n - 1, bottom_up), stride);
        assert(n * stride == (n - 1) * stride + stride) by (nonlinear_arith);
        assert(mask_rows(rgba, size, stride, bottom_up, n).len() == mask_rows(
            rgba,
            size,
            stride,
            bottom_up,
            (n - 1) as nat,
        ).len() + stride);
    } else {
        assert(0 * stride == 0) by (nonlinear_arith);
    }
}

/// Byte `b` of a mask row is the mask byte over pixels `8*b .. 8*b + 8`.
pub proof fn lemma_mask_row_byte(rgba: Seq<u8>, size: int, y: int, nb: nat, b: int)
    requires
        0 <= b < nb,
    ensures
        mask_row(rgba, size, y, nb)[b] == mask_bits(rgba, size, y, b, 8),
    decreases nb,
{
    lemma_mask_row_len(rgba, size, y, (nb - 1) as nat);
    if b < nb - 1 {
        lemma_mask_row_byte(rgba, size, y, (nb - 1) as nat, b);
    }
}

/// Bytes per row of the tray icon's mask bitmap (rows are WORD-aligned).
pub open spec fn tray_mask_stride(size: int) -> int {
    ((size + 15) / 16) * 2
}

/// The tray icon's 1-bpp AND mask: top-down, WORD-aligned rows, 1 where the
/// pixel is fully transparent.
pub fn tray_mask(rgba: &[u8], size: u32) -> (out: Vec<u8>)
    requires
        rgba.len() == size * size * 4,
    ensures
        out@ == mask_rows(
            rgba@,
            size as int,
            tray_mask_stride(size as int) as nat,
            false,
            size as nat,
        ),
{
    proof {
        assert(size + 31 <= usize::MAX) by (nonlinear_arith)
            requires
                size * size * 4 <= usize::MAX,
                usize::MAX >= 4294967295,
        ;
    }
    let s = size as usize;
    let stride = ((s + 15) / 16) * 2;
    and_mask(rgba, s, stride, false)
}

/// Bytes per row of a BMP icon entry's mask (rows padded to 4 bytes).
pub open spec fn bmp_mask_stride(size: int) -> int {
    ((size + 31) / 32) * 4
}

/// Mask byte `b` of stored row `r` marks the transparent pixels of pixel
/// row `stored_row(size, r, bottom_up)`: bit `7 - k` is set iff pixel
/// `8*b + k` of that row exists and has alpha 0.
proof fn lemma_mask_rows_bit(
    rgba: Seq<u8>,
    size: int,
    stride: nat,
    bottom_up: bool,
    r: int,
    b: int,
    k: nat,
)
    requires
        0 <= r < size,
        0 <= b < stride,
        k < 8,
    ensures
        mask_rows(rgba, size, stride, bottom_up, size as nat).len() == size * stride,
        ({
            let m = mask_rows(rgba, size, stride, bottom_up, size as nat);
            let y = if bottom_up {
                size - 1 - r
            } else {
                r
            };
            let x = 8 * b + k;
            ((m[r * stride + b] >> ((7 - k) as u8)) & 1u8 == 1u8) == (x < size && rgba[(y * size
                + x) * 4 + 3] == 0)
        }),
{
    lemma_mask_rows_layout(rgba, size, stride, bottom_up, size as nat, r);
    let m = mask_rows(rgba, size, stride, bottom_up, size as nat);
    let y = stored_row(size, r, bottom_up);
    assert(0 <= r * stride && r * stride + stride <= size * stride) by (nonlinear_arith)
        requires
            0 <= r < size,
            stride >= 0,
    ;
    assert(m.subrange(r * stride, r * stride + stride)[b] == m[r * stride + b]);
    lemma_mask_row_byte(rgba, size, y, stride, b);
    lemma_mask_marks_transparent_pixels(rgba, size, y, b, k);
}

/// The tray icon's mask has WORD-aligned rows: its row stride is the
/// smallest even number of bytes holding `size` bits, so the mask is
/// `size * 2 * ceil(size / 16)` bytes; rows are top-down and bit `7 - k` of
/// byte `b` of row `r` is set iff pixel `(8*b + k, r)` is fully transparent.
pub proof fn lemma_tray_mask_layout(rgba: Seq<u8>, size: int, r: int, b: int, k: nat)
    requires
        size >= 0,
    ensures
        ({
            let st = tray_mask_stride(size);
            &&& st >= 0 && st % 2 == 0 && 8 * st >= size && 8 * (st - 2) < size
            &&& st == 2 * ((size + 15) / 16)
            &&& mask_rows(rgba, size, st as nat, false, size as nat).len() == size * st
            &&& (0 <= r < size && 0 <= b < st && k < 8) ==> {
                let m = mask_rows(rgba, size, st as nat, false, size as nat);
                ((m[r * st + b] >> ((7 - k) as u8)) & 1u8 == 1u8) == (8 * b + k < size && rgba[(r
                    * size + 8 * b + k) * 4 + 3] == 0)
            }
        }),
{
    let st = tray_mask_stride(size);
    lemma_mask_rows_len(rgba, size, st as nat, false, size as nat);
    if 0 <= r < size && 0 <= b < st && k < 8 {
        lemma_mask_rows_bit(rgba, size, st as nat, false, r, b, k);
    }
}

/// An icon entry's mask has rows padded to 4 bytes: its row stride is the
/// smallest multiple of 4 bytes holding `size` bits; rows are bottom-up, so
/// bit `7 - k` of byte `b` of stored row `r` is set iff pixel
/// `(8*b + k, size-1-r)` is fully transparent.
pub proof fn lemma_bmp_mask_layout(rgba: Seq<u8>, size: int, r: int, b: int, k: nat)
    requires
        size >= 0,
    ensures
        ({
            let st = bmp_mask_stride(size);
            &&& st >= 0 && st % 4 == 0 && 8 * st >= size && 8 * (st - 4) < size
            &&& mask_rows(rgba, size, st as nat, true, size as nat).len() == size * st
            &&& (0 <= r < size && 0 <= b < st && k < 8) ==> {
                let m = mask_rows(rgba, size, st as nat, true, size as nat);
                ((m[r * st + b] >> ((7 - k) as u8)) & 1u8 == 1u8) == (8 * b + k < size && rgba[((
                size - 1 - r) * size + 8 * b + k) * 4 + 3] == 0)
            }
        }),
{
    let st = bmp_mask_stride(size);
    lemma_mask_rows_len(rgba, size, st as nat, true, size as nat);
    if 0 <= r < size && 0 <= b < st && k < 8 {
        lemma_mask_rows_bit(rgba, size, st as nat, true, r, b, k);
    }
}

/// The 40-byte BITMAPINFOHEADER of a 32-bpp icon image (height doubled for
/// the color and mask halves).
pub open spec fn bmp_header(size: int) -> Seq<u8> {
    le32(40) + le32(size) + le32(2 * size) + le16(1) + le16(32) + le32(0) + le32(0) + le32(0)
        + le32(0) + le32(0) + le32(0)
}

/// The first `n` pixels of pixel row `y`, as BGRA.
pub open spec fn bgra_row(rgba: Seq<u8>, size: int, y: int, n: nat) -> Seq<u8>
    decreases n,
{
    if n == 0 {
        Seq::<u8>::empty()
    } else {
        bgra_row(rgba, size, y, (n - 1) as nat) + swapped_pixel(rgba, y * size + n - 1)
    }
}

/// The first `r` rows of the color half, bottom row first.
pub open spec fn bgra_rows_bottom_up(rgba: Seq<u8>, size: int, r: nat) -> Seq<u8>
    decreases r,
{
    if r == 0 {
        Seq::<u8>::empty()
    } else {
        bgra_rows_bottom_up(rgba, size, (r - 1) as nat) + bgra_row(
            rgba,
            size,
            size - r,
            size as nat,
        )
    }
}

/// One BMP-format `.ico` entry: the header, the 32-bpp BGRA color rows
/// bottom-up, then the 1-bpp mask bottom-up with 4-byte rows.
pub open spec fn bmp_image_spec(rgba: Seq<u8>, size: int) -> Seq<u8> {
    bmp_header(size) + bgra_rows_bottom_up(rgba, size, size as nat) + mask_rows(
        rgba,
        size,
        bmp_mask_stride(size) as nat,
        true,
        size as nat,
    )
}

proof fn lemma_bgra_row_at(rgba: Seq<u8>, size: int, y: int, n: nat, x: int, k: int)
    requires
        0 <= x < n,
        0 <= k < 4,
    ensures
        bgra_row(rgba, size, y, n).len() == 4 * n,
        bgra_row(rgba, size, y, n)[4 * x + k] == swapped_pixel(rgba, y * size + x)[k],
    decreases n,
{
    lemma_bgra_row_len(rgba, size, y, (n - 1) as nat);
    if x < n - 1 {
        lemma_bgra_row_at(rgba, size, y, (n - 1) as nat, x, k);
    }
}

proof fn lemma_bgra_row_len(rgba: Seq<u8>, size: int, y: int, n: nat)
    ensures
        bgra_row(rgba, size, y, n).len() == 4 * n,
    decreases n,
{
    if n > 0 {
        lemma_bgra_row_len(rgba, size, y, (n - 1) as nat);
    }
}

proof fn lemma_bgra_rows_len(rgba: Seq<u8>, size: int, r: nat)
    requires
        size >= 0,
    ensures
        bgra_rows_bottom_up(rgba, size, r).len() == 4 * size * r,
    decreases r,
{
    if r > 0 {
        lemma_bgra_rows_len(rgba, size, (r - 1) as nat);
        lemma_bgra_row_len(rgba, size, size - r, size as nat);
        assert(4 * size * r == 4 * size * (r - 1) + 4 * size) by (nonlinear_arith);
    } else {
        assert(4 * size * 0 == 0) by (nonlinear_arith);
    }
}

proof fn lemma_bgra_rows_at(rgba: Seq<u8>, size: int, r: nat, i: int, x: int, k: int)
    requires
        0 <= i < r,
        0 <= x < size,
        0 <= k < 4,
    ensures
        bgra_rows_bottom_up(rgba, size, r)[4 * (i * size + x) + k] == swapped_pixel(
            rgba,
            (size - 1 - i) * size + x,
        )[k],
    decreases r,
{
    lemma_bgra_rows_len(rgba, size, (r - 1) as nat);
    let prev = bgra_rows_bottom_up(rgba, size, (r - 1) as nat);
    let row = bgra_row(rgba, size, size - r, size as nat);
    lemma_bgra_row_len(rgba, size, size - r, size as nat);
    if i < r - 1 {
        lemma_bgra_rows_at(rgba, size, (r - 1) as nat, i, x, k);
        assert(4 * (i * size + x) + k < 4 * size * (r - 1)) by (nonlinear_arith)
            requires
                0 <= i < r - 1,
                0 <= x < size,
                0 <= k < 4,
        ;
        assert(0 <= 4 * (i * size + x) + k) by (nonlinear_arith)
            requires
                0 <= i,
                0 <= x,
                0 <= k,
                0 <= size,
        ;
    } else {
        assert(4 * (i * size + x) + k == 4 * size * (r - 1) + (4 * x + k)) by (nonlinear_arith)
            requires
                i == r - 1,
        ;
        lemma_bgra_row_at(rgba, size, size - r, size as nat, x, k);
        assert(size - 1 - i == size - r);
    }
}

proof fn lemma_le32_below_24_bits(v: int)
    requires
        0 <= v < 16777216,
    ensures
        le32(v).len() == 4,
        le32(v)[0] + 256 * le32(v)[1] + 65536 * le32(v)[2] == v,
        le32(v)[3] == 0,
{
    let b = le32(v);
    assert(b[0] == v % 256);
    assert(b[1] == (v / 256) % 256);
    assert(b[2] == (v / 65536) % 256);
    assert(v / 16777216 == 0);
    assert(v % 256 + 256 * ((v / 256) % 256) + 65536 * ((v / 65536) % 256) == v) by (nonlinear_arith)
        requires
            0 <= v < 16777216,
    ;
}

#[verifier::spinoff_prover]
proof fn lemma_bmp_header_prefix(size: int)
    requires
        0 <= size,
        size * 2 < 16777216,
    ensures
        ({
            let p = le32(40) + le32(size) + le32(2 * size) + le16(1) + le16(32);
            &&& p.len() == 16
            &&& p[0] == 40 && p[1] == 0 && p[2] == 0 && p[3] == 0
            &&& p[4] + 256 * p[5] + 65536 * p[6] == size && p[7] == 0
            &&& p[8] + 256 * p[9] + 65536 * p[10] == 2 * size && p[11] == 0
            &&& p[12] == 1 && p[13] == 0
            &&& p[14] == 32 && p[15] == 0
        }),
{
    let ws = le32(size);
    let hs = le32(2 * size);
    lemma_le32_below_24_bits(size);
    lemma_le32_below_24_bits(2 * size);
    assert(le32(40) =~= seq![40u8, 0u8, 0u8, 0u8]);
    assert(le16(1) =~= seq![1u8, 0u8]);
    assert(le16(32) =~= seq![32u8, 0u8]);
    let p = le32(40) + ws + hs + le16(1) + le16(32);
    assert(p[4] == ws[0] && p[5] == ws[1] && p[6] == ws[2] && p[7] == ws[3]);
    assert(p[8] == hs[0] && p[9] == hs[1] && p[10] == hs[2] && p[11] == hs[3]);
}

#[verifier::spinoff_prover]
proof fn lemma_bmp_header_values(size: int)
    requires
        0 <= size,
        size * 2 < 16777216,
    ensures
        ({
            let h = bmp_header(size);
            &&& h.len() == 40
            &&& h[0] == 40 && h[1] == 0 && h[2] == 0 && h[3] == 0
            &&& h[4] + 256 * h[5] + 65536 * h[6] == size && h[7] == 0
            &&& h[8] + 256 * h[9] + 65536 * h[10] == 2 * size && h[11] == 0
            &&& h[12] == 1 && h[13] == 0
            &&& h[14] == 32 && h[15] == 0
            &&& forall|k: int| 16 <= k < 40 ==> #[trigger] h[k] == 0
        }),
{
    let h = bmp_header(size);
    let p = le32(40) + le32(size) + le32(2 * size) + le16(1) + le16(32);
    lemma_bmp_header_prefix(size);
    let z = le32(0);
    assert(z =~= seq![0u8, 0u8, 0u8, 0u8]);
    let zs = Seq::new(24, |i: int| 0u8);
    assert(z + z + z + z + z + z =~= zs);
    assert(h =~= p + zs);
    assert forall|k: int| 0 <= k < 16 implies #[trigger] h[k] == p[k] by {}
    assert forall|k: int| 16 <= k < 40 implies #[trigger] h[k] == 0 by {
        assert(h[k] == zs[k - 16]);
    }
}

proof fn lemma_bmp_header_bytes(rgba: Seq<u8>, size: int)
    requires
        0 <= size,
        size * 2 < 16777216,
    ensures
        ({
            let img = bmp_image_spec(rgba, size);
            &&& img[0] == 40 && img[1] == 0 && img[2] == 0 && img[3] == 0
            &&& img[4] + 256 * img[5] + 65536 * img[6] == size && img[7] == 0
            &&& img[8] + 256 * img[9] + 65536 * img[10] == 2 * size && img[11] == 0
            &&& img[12] == 1 && img[13] == 0
            &&& img[14] == 32 && img[15] == 0
            &&& forall|k: int| 16 <= k < 40 ==> #[trigger] img[k] == 0
        }),
{
    let head = bmp_header(size);
    lemma_bmp_header_values(size);
    let rows = bgra_rows_bottom_up(rgba, size, size as nat);
    let mask = mask_rows(rgba, size, bmp_mask_stride(size) as nat, true, size as nat);
    let img = bmp_image_spec(rgba, size);
    assert(img == head + rows + mask);
    assert forall|k: int| 0 <= k < 40 implies #[trigger] img[k] == head[k] by {
        assert((head + rows)[k] == head[k]);
    }
}

proof fn lemma_bmp_color_bytes(rgba: Seq<u8>, size: int, r: int, x: int)
    requires
        0 <= r < size,
        0 <= x < size,
    ensures
        ({
            let img = bmp_image_spec(rgba, size);
            let i = 40 + 4 * (r * size + x);
            let p = ((size - 1 - r) * size + x) * 4;
            &&& img[i] == rgba[p + 2]
            &&& img[i + 1] == rgba[p + 1]
            &&& img[i + 2] == rgba[p]
            &&& img[i + 3] == rgba[p + 3]
        }),
{
    let img = bmp_image_spec(rgba, size);
    let head = bmp_header(size);
    let rows = bgra_rows_bottom_up(rgba, size, size as nat);
    let mask = mask_rows(rgba, size, bmp_mask_stride(size) as nat, true, size as nat);
    assert(head.len() == 40);
    lemma_bgra_rows_len(rgba, size, size as nat);
    assert(4 * (r * size + x) + 3 < 4 * size * size) by (nonlinear_arith)
        requires
            0 <= r < size,
            0 <= x < size,
    ;
    assert(0 <= r * size) by (nonlinear_arith)
        requires
            0 <= r,
            0 <= size,
    ;
    assert(img == head + rows + mask);
    let q = 4 * (r * size + x);
    assert(img[40 + q] == rows[q]);
    assert(img[40 + q + 1] == rows[q + 1]);
    assert(img[40 + q + 2] == rows[q + 2]);
    assert(img[40 + q + 3] == rows[q + 3]);
    lemma_bgra_rows_at(rgba, size, size as nat, r, x, 0);
    lemma_bgra_rows_at(rgba, size, size as nat, r, x, 1);
    lemma_bgra_rows_at(rgba, size, size as nat, r, x, 2);
    lemma_bgra_rows_at(rgba, size, size as nat, r, x, 3);
    assert(((size - 1 - r) * size + x) * 4 == 4 * ((size - 1 - r) * size + x));
}

/// The color half of an icon image is stored bottom-up: the 4 bytes at
/// `40 + 4*(r*size + x)` are pixel `(x, size-1-r)` of the source as B, G, R,
/// A. The header before it is 40 bytes: header size 40, width `size`,
/// height `2*size` (color and mask halves), 1 plane, 32 bits per pixel, the
/// rest zero, all little-endian.
pub proof fn lemma_bmp_image_layout(rgba: Seq<u8>, size: int, r: int, x: int)
    requires
        0 <= r < size,
        0 <= x < size,
        size * 2 < 16777216,
    ensures
        ({
            let img = bmp_image_spec(rgba, size);
            let i = 40 + 4 * (r * size + x);
            let p = ((size - 1 - r) * size + x) * 4;
            &&& img[i] == rgba[p + 2]
            &&& img[i + 1] == rgba[p + 1]
            &&& img[i + 2] == rgba[p]
            &&& img[i + 3] == rgba[p + 3]
            &&& img[0] == 40 && img[1] == 0 && img[2] == 0 && img[3] == 0
            &&& img[4] + 256 * img[5] + 65536 * img[6] == size && img[7] == 0
            &&& img[8] + 256 * img[9] + 65536 * img[10] == 2 * size && img[11] == 0
            &&& img[12] == 1 && img[13] == 0
            &&& img[14] == 32 && img[15] == 0
            &&& forall|k: int| 16 <= k < 40 ==> #[trigger] img[k] == 0
        }),
{
    lemma_bmp_header_bytes(rgba, size);
    lemma_bmp_color_bytes(rgba, size, r, x);
}

/// One BMP-format icon image of a drawn `size`×`size` RGBA pill.
pub fn bmp_icon_image(rgba: &[u8], size: u32) -> (out: Vec<u8>)
    requires
        rgba.len() == size * size * 4,
        size * size * 4 <= i32::MAX,
    ensures
        out@ == bmp_image_spec(rgba@, size as int),
{
    proof {
        assert(size <= 23170) by (nonlinear_arith)
            requires
                size * size * 4 <= i32::MAX,
        ;
    }
    let s = size as usize;
    let mut out: Vec<u8> = Vec::new();
    push_u32_le(&mut out, 40);
    push_u32_le(&mut out, size);
    push_u32_le(&mut out, size * 2);
    push_u16_le(&mut out, 1);
    push_u16_le(&mut out, 32);
    push_u32_le(&mut out, 0);
    push_u32_le(&mut out, 0);
    push_u32_le(&mut out, 0);
    push_u32_le(&mut out, 0);
    push_u32_le(&mut out, 0);
    push_u32_le(&mut out, 0);
    assert(out@ =~= bmp_header(size as int));
    let ghost header = out@;
    let mut r: usize = 0;
    while r < s
        invariant
            r <= s,
            s == size,
            s <= 23170,
            rgba.len() == s * s * 4,
            out@ == header + bgra_rows_bottom_up(rgba@, s as int, r as nat),
        decreases s - r,
    {
        let y = s - 1 - r;
        let ghost before = out@;
        let mut x: usize = 0;
        while x < s
            invariant
                x <= s,
                r < s,
                y == s - 1 - r,
                s <= 23170,
                rgba.len() == s * s * 4,
                out@ == before + bgra_row(rgba@, s as int, y as int, x as nat),
            decreases s - x,
        {
            proof {
                lemma_pixel_index(s as int, x as int, y as int);
            }
            let i = (y * s + x) * 4;
            out.push(rgba[i + 2]);
            out.push(rgba[i + 1]);
            out.push(rgba[i]);
            out.push(rgba[i + 3]);
            x = x + 1;
            assert(out@ =~= before + bgra_row(rgba@, s as int, y as int, x as nat));
        }
        r = r + 1;
        assert(out@ =~= header + bgra_rows_bottom_up(rgba@, s as int, r as nat));
    }
    let stride = ((s + 31) / 32) * 4;
    let mask = and_mask(rgba, s, stride, true);
    let ghost colors = out@;
    let mut j: usize = 0;
    while j < mask.len()
        invariant
            j <= mask.len(),
            out@ == colors + mask@.take(j as int),
        decreases mask.len() - j,
    {
        out.push(mask[j]);
        j = j + 1;
        assert(out@ =~= colors + mask@.take(j as int));
    }
    assert(mask@.take(mask.len() as int) =~= mask@);
    out
}


/// The width/height byte of an `.ico` entry: 256 and more are written as 0.
pub open spec fn ico_dim(sz: u32) -> u8 {
    if sz >= 256 {
        0u8
    } else {
        sz as u8
    }
}

/// The byte length of an image as the 32-bit field of its entry.
pub open spec fn len32(img: Vec<u8>) -> int {
    (img@.len() as int) % 4294967296
}

/// Sum of the 32-bit lengths of the first `n` images.
pub open spec fn lens_before(images: Seq<Vec<u8>>, n: nat) -> int
    decreases n,
{
    if n == 0 {
        0
    } else {
        lens_before(images, (n - 1) as nat) + len32(images[n - 1])
    }
}

/// Offset of the data after a directory of `count` entries.
pub open spec fn data_start(count: nat) -> int {
    6 + 16 * ((count % 65536) as int)
}

/// One 16-byte directory entry.
pub open spec fn ico_entry(sz: u32, len: int, offset: int) -> Seq<u8> {
    seq![ico_dim(sz), ico_dim(sz), 0u8, 0u8] + le16(1) + le16(32) + le32(len) + le32(offset)
}

/// The first `n` directory entries.
pub open spec fn ico_entries(sizes: Seq<u32>, images: Seq<Vec<u8>>, n: nat) -> Seq<u8>
    decreases n,
{
    if n == 0 {
        Seq::<u8>::empty()
    } else {
        ico_entries(sizes, images, (n - 1) as nat) + ico_entry(
            sizes[n - 1],
            len32(images[n - 1]),
            data_start(sizes.len()) + lens_before(images, (n - 1) as nat),
        )
    }
}

/// The first `n` images, back to back.
pub open spec fn images_concat(images: Seq<Vec<u8>>, n: nat) -> Seq<u8>
    decreases n,
{
    if n == 0 {
        Seq::<u8>::empty()
    } else {
        images_concat(images, (n - 1) as nat) + images[n - 1]@
    }
}

/// An `.ico` file: ICONDIR (reserved 0, type 1, count), one entry per size,
/// then the images in the same order.
pub open spec fn ico_spec(sizes: Seq<u32>, images: Seq<Vec<u8>>) -> Seq<u8> {
    le16(0) + le16(1) + le16((sizes.len() % 65536) as int) + ico_entries(
        sizes,
        images,
        sizes.len(),
    ) + images_concat(images, sizes.len())
}

fn push_entry(out: &mut Vec<u8>, sz: u32, len: u32, offset: u32)
    ensures
        final(out)@ == old(out)@ + ico_entry(sz, len as int, offset as int),
{
    let dim: u8 = if sz >= 256 {
        0u8
    } else {
        sz as u8
    };
    out.push(dim);
    out.push(dim);
    out.push(0);
    out.push(0);
    push_u16_le(out, 1);
    push_u16_le(out, 32);
    push_u32_le(out, len);
    push_u32_le(out, offset);
    assert(final(out)@ =~= old(out)@ + ico_entry(sz, len as int, offset as int));
}

/// Assemble an ICONDIR + entries + BMP images, one image per size.
pub fn encode_ico(sizes: &[u32], images: &[Vec<u8>]) -> (out: Vec<u8>)
    requires
        images.len() == sizes.len(),
        data_start(sizes.len() as nat) + lens_before(images@, sizes.len() as nat) <= u32::MAX,
    ensures
        out@ == ico_spec(sizes@, images@),
{
    let count = (sizes.len() % 65536) as u16;
    let mut out: Vec<u8> = Vec::new();
    push_u16_le(&mut out, 0);
    push_u16_le(&mut out, 1);
    push_u16_le(&mut out, count);
    assert(count as int == (sizes.len() % 65536) as int);
    let ghost head = out@;
    let mut offset: u32 = 6 + 16 * (count as u32);
    let mut i: usize = 0;
    while i < sizes.len()
        invariant
            i <= sizes.len() == images.len(),
            data_start(sizes.len() as nat) + lens_before(images@, sizes.len() as nat) <= u32::MAX,
            offset == data_start(sizes.len() as nat) + lens_before(images@, i as nat),
            out@ == head + ico_entries(sizes@, images@, i as nat),
        decreases sizes.len() - i,
    {
        let len = ((images[i].len() as u64) % 4294967296) as u32;
        assert(len as int == len32(images@[i as int]));
        push_entry(&mut out, sizes[i], len, offset);
        proof {
            lemma_lens_before_monotone(images@, (i + 1) as nat, sizes.len() as nat);
        }
        offset = offset + len;
        i = i + 1;
        assert(out@ =~= head + ico_entries(sizes@, images@, i as nat));
    }
    let ghost dir = out@;
    let mut k: usize = 0;
    while k < images.len()
        invariant
            k <= images.len() == sizes.len(),
            out@ == dir + images_concat(images@, k as nat),
        decreases images.len() - k,
    {
        let img = &images[k];
        let ghost before = out@;
        let mut j: usize = 0;
        while j < img.len()
            invariant
                j <= img.len(),
                out@ == before + img@.take(j as int),
            decreases img.len() - j,
        {
            out.push(img[j]);
            j = j + 1;
            assert(out@ =~= before + img@.take(j as int));
        }
        assert(img@.take(img.len() as int) =~= img@);
        k = k + 1;
        assert(out@ =~= dir + images_concat(images@, k as nat));
    }
    assert(out@ =~= ico_spec(sizes@, images@));
    out
}

proof fn lemma_lens_before_monotone(images: Seq<Vec<u8>>, a: nat, b: nat)
    requires
        a <= b,
    ensures
        lens_before(images, a) <= lens_before(images, b),
    decreases b,
{
    if a < b {
        lemma_lens_before_monotone(images, a, (b - 1) as nat);
    }
}


/// The widest the digits may be (78% of the icon) and the first font height
/// to try (72% of the icon, at least 6).
pub open spec fn font_start_spec(size: int) -> (int, int) {
    let h = size * 72 / 100;
    (size * 78 / 100, if h > 6 {
        h
    } else {
        6
    })
}

/// The next font height after measuring text `cx` wide at height `h`: none
/// when it fits (or the height is already the minimum 6), else the height
/// scaled by `max_w / cx`, at least 6.
pub open spec fn font_next_spec(h: int, max_w: int, cx: int) -> Option<int> {
    if cx <= max_w || h <= 6 {
        None
    } else {
        let d = if cx > 1 {
            cx
        } else {
            1
        };
        let n = h * max_w / d;
        Some(
            if n > 6 {
                n
            } else {
                6
            },
        )
    }
}

/// Width limit and first height of the icon font for a `size` icon.
pub fn icon_font_start(size: u32) -> (r: (i32, i32))
    requires
        size * 78 <= i32::MAX,
    ensures
        r.0 == font_start_spec(size as int).0,
        r.1 == font_start_spec(size as int).1,
{
    let s = size as i32;
    let max_w = s * 78 / 100;
    let h = s * 72 / 100;
    (max_w, if h > 6 {
        h
    } else {
        6
    })
}

/// One shrink step of the icon font: `None` keeps height `h`, `Some` gives
/// the next height to try.
pub fn icon_font_next(h: i32, max_w: i32, cx: i32) -> (r: Option<i32>)
    requires
        0 <= max_w,
        0 <= h,
        h * max_w <= i32::MAX,
    ensures
        r == (match font_next_spec(h as int, max_w as int, cx as int) {
            Some(n) => Some(n as i32),
            None => None,
        }),
{
    if cx <= max_w || h <= 6 {
        return None;
    }
    let d = if cx > 1 {
        cx
    } else {
        1
    };
    proof {
        assert(0 <= h * max_w) by (nonlinear_arith)
            requires
                0 <= h,
                0 <= max_w,
        ;
    }
    let n = h * max_w / d;
    Some(
        if n > 6 {
            n
        } else {
            6
        },
    )
}

/// The shrink loop ends: each step gives a smaller height, never below 6.
pub proof fn lemma_font_shrink_terminates(h: int, max_w: int, cx: int)
    requires
        0 <= max_w,
    ensures
        font_next_spec(h, max_w, cx) matches Some(n) ==> 6 <= n < h,
{
    if !(cx <= max_w || h <= 6) {
        assert(h * max_w / cx < h) by (nonlinear_arith)
            requires
                0 <= max_w < cx,
                6 < h,
        {
            assert(h * max_w < h * cx);
            assert(h * max_w / cx <= (h * cx - 1) / cx);
        }
    }
}


proof fn lemma_entries_layout(sizes: Seq<u32>, images: Seq<Vec<u8>>, n: nat, i: int)
    requires
        0 <= i < n,
    ensures
        ico_entries(sizes, images, n).len() == 16 * n,
        ico_entries(sizes, images, n).subrange(16 * i, 16 * i + 16) == ico_entry(
            sizes[i],
            len32(images[i]),
            data_start(sizes.len()) + lens_before(images, i as nat),
        ),
    decreases n,
{
    lemma_entries_len(sizes, images, (n - 1) as nat);
    let prev = ico_entries(sizes, images, (n - 1) as nat);
    let e = ico_entry(
        sizes[n - 1],
        len32(images[n - 1]),
        data_start(sizes.len()) + lens_before(images, (n - 1) as nat),
    );
    if i < n - 1 {
        lemma_entries_layout(sizes, images, (n - 1) as nat, i);
        assert((prev + e).subrange(16 * i, 16 * i + 16) =~= prev.subrange(16 * i, 16 * i + 16));
    } else {
        assert((prev + e).subrange(16 * i, 16 * i + 16) =~= e);
    }
}

proof fn lemma_entries_len(sizes: Seq<u32>, images: Seq<Vec<u8>>, n: nat)
    ensures
        ico_entries(sizes, images, n).len() == 16 * n,
    decreases n,
{
    if n > 0 {
        lemma_entries_len(sizes, images, (n - 1) as nat);
    }
}

/// With every image under 4 GiB, the 32-bit lengths are the lengths and the
/// images lie back to back at their running offsets.
proof fn lemma_images_layout(images: Seq<Vec<u8>>, n: nat, i: int)
    requires
        0 <= i < n <= images.len(),
        forall|j: int| 0 <= j < n ==> #[trigger] images[j]@.len() < 4294967296,
    ensures
        images_concat(images, n).len() == lens_before(images, n),
        images_concat(images, n).subrange(
            lens_before(images, i as nat),
            lens_before(images, i as nat) + images[i]@.len(),
        ) == images[i]@,
    decreases n,
{
    lemma_images_len(images, (n - 1) as nat);
    let prev = images_concat(images, (n - 1) as nat);
    let img = images[n - 1]@;
    assert(len32(images[n - 1]) == img.len());
    if i < n - 1 {
        lemma_images_layout(images, (n - 1) as nat, i);
        lemma_lens_before_monotone(images, (i + 1) as nat, (n - 1) as nat);
        lemma_lens_before_monotone(images, 0, i as nat);
        assert(len32(images[i]) == images[i]@.len());
        assert(lens_before(images, (i + 1) as nat) == lens_before(images, i as nat) + len32(
            images[i],
        ));
        assert((prev + img).subrange(
            lens_before(images, i as nat),
            lens_before(images, i as nat) + images[i]@.len(),
        ) =~= prev.subrange(
            lens_before(images, i as nat),
            lens_before(images, i as nat) + images[i]@.len(),
        ));
    } else {
        lemma_lens_before_monotone(images, 0, i as nat);
        assert((prev + img).subrange(
            lens_before(images, i as nat),
            lens_before(images, i as nat) + images[i]@.len(),
        ) =~= img);
    }
}

proof fn lemma_images_len(images: Seq<Vec<u8>>, n: nat)
    requires
        n <= images.len(),
        forall|j: int| 0 <= j < n ==> #[trigger] images[j]@.len() < 4294967296,
    ensures
        images_concat(images, n).len() == lens_before(images, n),
    decreases n,
{
    if n > 0 {
        lemma_images_len(images, (n - 1) as nat);
        assert(len32(images[n - 1]) == images[n - 1]@.len());
    }
}

/// The value of four little-endian bytes.
pub open spec fn le32_value(b: Seq<u8>, i: int) -> int {
    b[i] + 256 * b[i + 1] + 65536 * b[i + 2] + 16777216 * b[i + 3]
}

proof fn lemma_le32_value(v: int)
    requires
        0 <= v < 4294967296,
    ensures
        le32_value(le32(v), 0) == v,
{
}

/// The bytes of an `.ico` file: reserved 0, type 1 and the image count as
/// little-endian 16-bit values; then per entry `i` at `6 + 16*i`: width and
/// height (0 for 256 and more), two zero bytes, 1 plane, 32 bits per pixel,
/// the image's length and its offset. The first image starts right after
/// the directory, and each next one right after the one before.
proof fn lemma_entry_bytes(sz: u32, len: int, offset: int)
    requires
        0 <= len < 4294967296,
        0 <= offset < 4294967296,
    ensures
        ({
            let entry = ico_entry(sz, len, offset);
            let dim: u8 = if sz >= 256 {
                0u8
            } else {
                sz as u8
            };
            &&& entry.len() == 16
            &&& entry[0] == dim && entry[1] == dim && entry[2] == 0 && entry[3] == 0
            &&& entry[4] == 1 && entry[5] == 0 && entry[6] == 32 && entry[7] == 0
            &&& le32_value(entry, 8) == len
            &&& le32_value(entry, 12) == offset
        }),
{
    let entry = ico_entry(sz, len, offset);
    lemma_le32_value(len);
    lemma_le32_value(offset);
    assert(entry.subrange(8, 12) =~= le32(len));
    assert(entry.subrange(12, 16) =~= le32(offset));
    assert(le32_value(entry, 8) == le32_value(le32(len), 0));
    assert(le32_value(entry, 12) == le32_value(le32(offset), 0));
}

proof fn lemma_ico_head_bytes(sizes: Seq<u32>, images: Seq<Vec<u8>>)
    requires
        sizes.len() < 65536,
    ensures
        ({
            let out = ico_spec(sizes, images);
            &&& out[0] == 0 && out[1] == 0 && out[2] == 1 && out[3] == 0
            &&& out[4] + 256 * out[5] == sizes.len()
        }),
{
    let n = sizes.len();
    let head = le16(0) + le16(1) + le16((n % 65536) as int);
    let rest = ico_entries(sizes, images, n) + images_concat(images, n);
    assert(ico_spec(sizes, images) =~= head + rest);
}

/// The bytes of an `.ico` file: reserved 0, type 1 and the image count as
/// little-endian 16-bit values; then per entry `i` at `6 + 16*i`: width and
/// height (0 for 256 and more), two zero bytes, 1 plane, 32 bits per pixel,
/// the image's length and its offset. The first image starts right after
/// the directory, and each next one right after the one before.
proof fn lemma_entry_window(out: Seq<u8>, e: int, sz: u32, len: int, offset: int)
    requires
        0 <= len < 4294967296,
        0 <= offset < 4294967296,
        0 <= e,
        e + 16 <= out.len(),
        out.subrange(e, e + 16) == ico_entry(sz, len, offset),
    ensures
        ({
            let dim: u8 = if sz >= 256 {
                0u8
            } else {
                sz as u8
            };
            &&& out[e] == dim && out[e + 1] == dim && out[e + 2] == 0 && out[e + 3] == 0
            &&& out[e + 4] == 1 && out[e + 5] == 0 && out[e + 6] == 32 && out[e + 7] == 0
            &&& le32_value(out, e + 8) == len
            &&& le32_value(out, e + 12) == offset
        }),
{
    let entry = ico_entry(sz, len, offset);
    lemma_entry_bytes(sz, len, offset);
    let sub = out.subrange(e, e + 16);
    assert forall|k: int| 0 <= k < 16 implies #[trigger] out[e + k] == entry[k] by {
        assert(sub[k] == out[e + k]);
    }
    assert(le32_value(out, e + 8) == le32_value(entry, 8));
    assert(le32_value(out, e + 12) == le32_value(entry, 12));
}

#[verifier::spinoff_prover]
pub proof fn lemma_ico_bytes(sizes: Seq<u32>, images: Seq<Vec<u8>>, i: int)
    requires
        images.len() == sizes.len() < 65536,
        0 <= i < sizes.len(),
        forall|j: int| 0 <= j < images.len() ==> #[trigger] images[j]@.len() < 4294967296,
        6 + 16 * sizes.len() + lens_before(images, sizes.len()) < 4294967296,
    ensures
        ({
            let out = ico_spec(sizes, images);
            let e = 6 + 16 * i;
            let dim: u8 = if sizes[i] >= 256 {
                0u8
            } else {
                sizes[i] as u8
            };
            &&& out[0] == 0 && out[1] == 0 && out[2] == 1 && out[3] == 0
            &&& out[4] + 256 * out[5] == sizes.len()
            &&& out[e] == dim && out[e + 1] == dim && out[e + 2] == 0 && out[e + 3] == 0
            &&& out[e + 4] == 1 && out[e + 5] == 0 && out[e + 6] == 32 && out[e + 7] == 0
            &&& le32_value(out, e + 8) == images[i]@.len()
            &&& le32_value(out, e + 12) == 6 + 16 * sizes.len() + lens_before(images, i as nat)
            &&& lens_before(images, 0) == 0
            &&& lens_before(images, (i + 1) as nat) == lens_before(images, i as nat)
                + images[i]@.len()
        }),
{
    let n = sizes.len();
    lemma_ico_entry_points_at_image(sizes, images, i);
    lemma_ico_head_bytes(sizes, images);
    lemma_lens_before_monotone(images, (i + 1) as nat, n);
    lemma_lens_before_monotone(images, 0, i as nat);
    lemma_entries_len(sizes, images, n);
    assert(len32(images[i]) == images[i]@.len());
    let offset = 6 + 16 * n + lens_before(images, i as nat);
    let out = ico_spec(sizes, images);
    assert(out.len() >= 6 + 16 * n);
    lemma_entry_window(out, 6 + 16 * i, sizes[i], images[i]@.len() as int, offset);
}

proof fn lemma_subrange_of_middle(a: Seq<u8>, b: Seq<u8>, c: Seq<u8>, lo: int, hi: int)
    requires
        0 <= lo <= hi <= b.len(),
    ensures
        (a + b + c).subrange(a.len() + lo, a.len() + hi) == b.subrange(lo, hi),
{
    assert((a + b + c).subrange(a.len() + lo, a.len() + hi) =~= b.subrange(lo, hi));
}

proof fn lemma_subrange_of_last(a: Seq<u8>, c: Seq<u8>, lo: int, hi: int)
    requires
        0 <= lo <= hi <= c.len(),
    ensures
        (a + c).subrange(a.len() + lo, a.len() + hi) == c.subrange(lo, hi),
{
    assert((a + c).subrange(a.len() + lo, a.len() + hi) =~= c.subrange(lo, hi));
}

/// The `.ico` directory describes its images: entry `i` (bytes `6 + 16*i`
/// on) holds the `i`-th size, the image's length and an offset, and the
/// image's bytes are found at that offset.
#[verifier::spinoff_prover]
#[verifier::rlimit(40)]
pub proof fn lemma_ico_entry_points_at_image(sizes: Seq<u32>, images: Seq<Vec<u8>>, i: int)
    requires
        images.len() == sizes.len() < 65536,
        0 <= i < sizes.len(),
        forall|j: int| 0 <= j < images.len() ==> #[trigger] images[j]@.len() < 4294967296,
    ensures
        ({
            let out = ico_spec(sizes, images);
            let offset = 6 + 16 * sizes.len() + lens_before(images, i as nat);
            &&& out.subrange(6 + 16 * i, 6 + 16 * i + 16) == ico_entry(
                sizes[i],
                images[i]@.len() as int,
                offset,
            )
            &&& out.subrange(offset, offset + images[i]@.len()) == images[i]@
        }),
{
    let n = sizes.len();
    let head = le16(0) + le16(1) + le16((n % 65536) as int);
    let entries = ico_entries(sizes, images, n);
    let data = images_concat(images, n);
    lemma_entries_layout(sizes, images, n, i);
    lemma_images_layout(images, n, i);
    assert(len32(images[i]) == images[i]@.len());
    assert(head.len() == 6);
    let lo = lens_before(images, i as nat);
    let len = images[i]@.len() as int;
    lemma_lens_before_monotone(images, (i + 1) as nat, n);
    lemma_lens_before_monotone(images, 0, i as nat);
    assert(lens_before(images, (i + 1) as nat) == lo + len32(images[i]));
    lemma_subrange_of_middle(head, entries, data, 16 * i, 16 * i + 16);
    lemma_subrange_of_last(head + entries, data, lo, lo + len);
    assert(ico_spec(sizes, images) == head + entries + data);
}

} // verus!
