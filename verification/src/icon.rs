//! The tray icon: a 32×32 battery drawn pixel by pixel (BGRA, rows top to
//! bottom) and the ICO file that carries it (ICONDIR, BITMAPINFOHEADER, 32-bit
//! colour rows bottom to top, 1-bit transparency mask).
use vstd::prelude::*;

verus! {

/// Side of the icon in pixels.
pub const ICON_SIZE: usize = 32;

/// Bytes of the BGRA pixel buffer.
pub const PIXEL_BYTES: usize = 4096;

/// Fill colour (red, green, blue): grey without a level, red below 20 %,
/// amber below 50 %, green otherwise.
pub open spec fn fill_color(level: Option<u8>) -> (u8, u8, u8) {
    match level {
        None => (150u8, 150u8, 150u8),
        Some(l) => if l < 20 {
            (226u8, 56u8, 56u8)
        } else if l < 50 {
            (235u8, 160u8, 40u8)
        } else {
            (52u8, 190u8, 110u8)
        },
    }
}

/// Width of the filled part of the 18-pixel inner area: `18 * level / 100`
/// rounded down with the level capped at 100; empty without a level.
pub open spec fn fill_width(level: Option<u8>) -> int {
    match level {
        None => 0,
        Some(l) => if l > 100 {
            18
        } else {
            18 * l / 100
        },
    }
}

/// The pixel at column `x`, row `y` as (blue, green, red, alpha): a contact
/// on the right, an outlined body whose inner area is filled from the left
/// up to `fill_width`, everything else transparent.
pub open spec fn icon_pixel(level: Option<u8>, x: int, y: int) -> (u8, u8, u8, u8) {
    let (r, g, b) = fill_color(level);
    if 26 <= x <= 28 && 13 <= y <= 18 {
        (70u8, 70u8, 70u8, 255u8)
    } else if 2 <= x <= 25 && 8 <= y <= 24 {
        if 3 <= x <= 24 && 9 <= y <= 23 {
            if 4 <= x < 4 + fill_width(level) {
                (b, g, r, 255u8)
            } else {
                (0u8, 0u8, 0u8, 0u8)
            }
        } else {
            (70u8, 70u8, 70u8, 255u8)
        }
    } else {
        (0u8, 0u8, 0u8, 0u8)
    }
}

/// More charge never draws less fill: the fill width grows with the level,
/// from none at 0 % to the full 18 pixels at 100 % and above.
pub proof fn lemma_fill_width_monotone(a: u8, b: u8)
    requires
        a <= b,
    ensures
        0 <= fill_width(Some(a)) <= fill_width(Some(b)) <= 18,
        fill_width(Some(0)) == 0,
        b >= 100 ==> fill_width(Some(b)) == 18,
{
    if b <= 100 {
        assert(0 <= 18 * a / 100 <= 18 * b / 100 <= 18) by (nonlinear_arith)
            requires
                a <= b <= 100,
        ;
    } else if a <= 100 {
        assert(0 <= 18 * a / 100 <= 18) by (nonlinear_arith)
            requires
                a <= 100,
        ;
    }
}

/// The fill colour goes by the level's class alone: red exactly below 20 %,
/// amber exactly from 20 % to below 50 %, green exactly from 50 % on; so a
/// higher level never gets a more alarming colour.
pub proof fn lemma_fill_color_classes(a: u8)
    ensures
        (fill_color(Some(a)) == (226u8, 56u8, 56u8)) <==> a < 20,
        (fill_color(Some(a)) == (235u8, 160u8, 40u8)) <==> 20 <= a < 50,
        (fill_color(Some(a)) == (52u8, 190u8, 110u8)) <==> a >= 50,
        forall|b: u8|
            a <= b ==> (#[trigger] fill_color(Some(b)) == (226u8, 56u8, 56u8) ==> fill_color(Some(a)) == (
            226u8,
            56u8,
            56u8,
        )) && (fill_color(Some(b)) == (235u8, 160u8, 40u8) ==> fill_color(Some(a)) != (52u8, 190u8, 110u8)),
{
}

/// Channel `k` (0 blue, 1 green, 2 red, 3 alpha) of a pixel.
pub open spec fn channel(p: (u8, u8, u8, u8), k: int) -> u8 {
    if k == 0 {
        p.0
    } else if k == 1 {
        p.1
    } else if k == 2 {
        p.2
    } else {
        p.3
    }
}

/// Writes one BGRA pixel of a 32-pixel-wide buffer.
pub fn put(px: &mut Vec<u8>, x: usize, y: usize, b: u8, g: u8, r: u8, a: u8)
    requires
        x < 32,
        y < 32,
        old(px)@.len() == 4096,
    ensures
        final(px)@.len() == 4096,
        final(px)@ == old(px)@.update((y * 32 + x) * 4, b).update((y * 32 + x) * 4 + 1, g).update(
            (y * 32 + x) * 4 + 2,
            r,
        ).update((y * 32 + x) * 4 + 3, a),
{
    let i = (y * 32 + x) * 4;
    px.set(i, b);
    px.set(i + 1, g);
    px.set(i + 2, r);
    px.set(i + 3, a);
}

/// Pixel (`x`, `y`) of the inner area of the icon for level `l` in `px`: the
/// first `18 * min(l, 100) / 100` columns from x = 4 are opaque red below
/// 20 %, amber below 50 %, green from 50 % on; the rest is transparent.
pub open spec fn icon_fill_pixel(px: Seq<u8>, l: u8, x: int, y: int) -> bool {
    let i = (y * 32 + x) * 4;
    let w = if l > 100 {
        18
    } else {
        18 * l / 100
    };
    &&& 4 <= x < 4 + w ==> (px[i], px[i + 1], px[i + 2], px[i + 3]) == (if l < 20 {
        (56u8, 56u8, 226u8, 255u8)
    } else if l < 50 {
        (40u8, 160u8, 235u8, 255u8)
    } else {
        (110u8, 190u8, 52u8, 255u8)
    })
    &&& !(4 <= x < 4 + w) ==> px[i + 3] == 0
}

/// The BGRA pixels of the battery icon for `level` (`None`: an empty battery).
pub fn battery_icon_pixels(level: Option<u8>) -> (px: Vec<u8>)
    ensures
        px@.len() == 4096,
        forall|x: int, y: int, k: int|
            0 <= x < 32 && 0 <= y < 32 && 0 <= k < 4 ==> #[trigger] px@[(y * 32 + x) * 4 + k] == channel(
                icon_pixel(level, x, y),
                k,
            ),
        level matches Some(l) ==> forall|x: int, y: int|
            3 <= x <= 24 && 9 <= y <= 23 ==> #[trigger] icon_fill_pixel(px@, l, x, y),
{
    let mut px: Vec<u8> = vec![0u8; 4096];
    let (r, g, b): (u8, u8, u8) = match level {
        None => (150, 150, 150),
        Some(l) => if l < 20 {
            (226, 56, 56)
        } else if l < 50 {
            (235, 160, 40)
        } else {
            (52, 190, 110)
        },
    };
    let (dr, dg, db): (u8, u8, u8) = (70, 70, 70);
    let fill_w: usize = match level {
        None => 0,
        Some(l) => if l > 100 {
            18
        } else {
            (18 * (l as usize)) / 100
        },
    };
    proof {
        assert(fill_w as int == fill_width(level));
        assert((r, g, b) == fill_color(level));
    }
    let mut y: usize = 0;
    while y < 32
        invariant
            y <= 32,
            px@.len() == 4096,
            fill_w as int == fill_width(level),
            (r, g, b) == fill_color(level),
            dr == 70 && dg == 70 && db == 70,
            forall|p: int, k: int|
                0 <= p < 1024 && 0 <= k < 4 ==> #[trigger] px@[p * 4 + k] == (if p < y * 32 {
                    channel(icon_pixel(level, p % 32, p / 32), k)
                } else {
                    0u8
                }),
        decreases 32 - y,
    {
        let mut x: usize = 0;
        while x < 32
            invariant
                y < 32,
                x <= 32,
                px@.len() == 4096,
                fill_w as int == fill_width(level),
                (r, g, b) == fill_color(level),
                dr == 70 && dg == 70 && db == 70,
                forall|p: int, k: int|
                    0 <= p < 1024 && 0 <= k < 4 ==> #[trigger] px@[p * 4 + k] == (if p < y * 32 + x {
                        channel(icon_pixel(level, p % 32, p / 32), k)
                    } else {
                        0u8
                    }),
            decreases 32 - x,
        {
            let ghost before = px@;
            if 26 <= x && x <= 28 && 13 <= y && y <= 18 {
                put(&mut px, x, y, db, dg, dr, 255);
            } else if 2 <= x && x <= 25 && 8 <= y && y <= 24 {
                let inner = 3 <= x && x <= 24 && 9 <= y && y <= 23;
                if inner {
                    if x >= 4 && x < 4 + fill_w {
                        put(&mut px, x, y, b, g, r, 255);
                    } else {
                        put(&mut px, x, y, 0, 0, 0, 0);
                    }
                } else {
                    put(&mut px, x, y, db, dg, dr, 255);
                }
            }
            proof {
                let q = (y * 32 + x) as int;
                assert(q % 32 == x as int && q / 32 == y as int);
                assert forall|p: int, k: int| 0 <= p < 1024 && 0 <= k < 4 implies #[trigger] px@[p * 4 + k] == (
                if p < y * 32 + x + 1 {
                    channel(icon_pixel(level, p % 32, p / 32), k)
                } else {
                    0u8
                }) by {
                    if p != q {
                        assert(p * 4 + k != q * 4 && p * 4 + k != q * 4 + 1 && p * 4 + k != q * 4 + 2 && p * 4 + k
                            != q * 4 + 3);
                        assert(px@[p * 4 + k] == before[p * 4 + k]);
                    } else {
                        assert(k == 0 || k == 1 || k == 2 || k == 3);
                    }
                }
            }
            x = x + 1;
        }
        y = y + 1;
    }
    proof {
        assert forall|x: int, y: int, k: int| 0 <= x < 32 && 0 <= y < 32 && 0 <= k < 4 implies #[trigger] px@[(y
            * 32 + x) * 4 + k] == channel(icon_pixel(level, x, y), k) by {
            let p = y * 32 + x;
            assert(p % 32 == x && p / 32 == y);
            assert(px@[p * 4 + k] == channel(icon_pixel(level, p % 32, p / 32), k));
        }
        if let Some(l) = level {
            assert forall|x: int, y: int| 3 <= x <= 24 && 9 <= y <= 23 implies #[trigger] icon_fill_pixel(
                px@,
                l,
                x,
                y,
            ) by {
                let i = (y * 32 + x) * 4;
                assert(px@[(y * 32 + x) * 4 + 0] == channel(icon_pixel(level, x, y), 0));
                assert(px@[(y * 32 + x) * 4 + 1] == channel(icon_pixel(level, x, y), 1));
                assert(px@[(y * 32 + x) * 4 + 2] == channel(icon_pixel(level, x, y), 2));
                assert(px@[(y * 32 + x) * 4 + 3] == channel(icon_pixel(level, x, y), 3));
                assert(i + 0 == i);
                lemma_fill_color_classes(l);
            }
        }
    }
    px
}

} // verus!

verus! {

// ---------- ICO file ----------

/// Little-endian bytes of a 16-bit value.
pub open spec fn le16(v: int) -> Seq<u8> {
    seq![(v % 256) as u8, ((v / 256) % 256) as u8]
}

/// Little-endian bytes of a 32-bit value.
pub open spec fn le32(v: int) -> Seq<u8> {
    seq![(v % 256) as u8, ((v / 256) % 256) as u8, ((v / 65536) % 256) as u8, ((v / 16777216) % 256) as u8]
}

/// Bytes of the 32-bit colour rows of a 32×32 icon.
pub const XOR_BYTES: usize = 4096;

/// Bytes of the 1-bit mask rows (4 bytes per row).
pub const AND_BYTES: usize = 128;

/// Bytes before the pixel rows: ICONDIR (6), ICONDIRENTRY (16), BITMAPINFOHEADER (40).
pub const ICO_HEADER_BYTES: usize = 62;

/// ICONDIR, ICONDIRENTRY and BITMAPINFOHEADER of a 32×32 32-bit icon whose
/// DIB height counts colour rows and mask rows.
pub open spec fn ico_header() -> Seq<u8> {
    le16(0) + le16(1) + le16(1) + seq![32u8, 32u8, 0u8, 0u8] + le16(1) + le16(32) + le32(4264) + le32(
        22,
    ) + le32(40) + le32(32) + le32(64) + le16(1) + le16(32) + le32(0) + le32(4096) + le32(0) + le32(0) + le32(0)
        + le32(0)
}

/// Weight of bit `bit` (0 = most significant) of a mask byte.
pub open spec fn bit_weight(bit: int) -> int {
    if bit == 0 {
        128
    } else if bit == 1 {
        64
    } else if bit == 2 {
        32
    } else if bit == 3 {
        16
    } else if bit == 4 {
        8
    } else if bit == 5 {
        4
    } else if bit == 6 {
        2
    } else {
        1
    }
}

/// Pixel (`x`, `row`) is transparent: alpha below 128.
pub open spec fn transparent(px: Seq<u8>, row: int, x: int) -> bool {
    px[(row * 32 + x) * 4 + 3] < 128
}

/// The first `n` bits of mask byte `byte` of `row`: set where the pixel is
/// transparent, most significant bit first.
pub open spec fn mask_bits(px: Seq<u8>, row: int, byte: int, n: int) -> int
    decreases n,
{
    if n <= 0 {
        0
    } else {
        mask_bits(px, row, byte, n - 1) + if transparent(px, row, byte * 8 + n - 1) {
            bit_weight(n - 1)
        } else {
            0
        }
    }
}

proof fn lemma_mask_bits_bound(px: Seq<u8>, row: int, byte: int, n: int)
    requires
        0 <= n <= 7,
    ensures
        0 <= mask_bits(px, row, byte, n),
        mask_bits(px, row, byte, n) + 2 * bit_weight(n) <= 256,
    decreases n,
{
    if n > 0 {
        lemma_mask_bits_bound(px, row, byte, n - 1);
    }
}

fn push_le16(out: &mut Vec<u8>, v: u16)
    ensures
        final(out)@ == old(out)@ + le16(v as int),
{
    out.push((v % 256) as u8);
    out.push((v / 256) as u8);
    proof {
        assert(final(out)@ =~= old(out)@ + le16(v as int));
    }
}

fn push_le32(out: &mut Vec<u8>, v: u32)
    ensures
        final(out)@ == old(out)@ + le32(v as int),
{
    out.push((v % 256) as u8);
    out.push(((v / 256) % 256) as u8);
    out.push(((v / 65536) % 256) as u8);
    out.push((v / 16777216) as u8);
    proof {
        assert(final(out)@ =~= old(out)@ + le32(v as int));
    }
}

fn weight(bit: usize) -> (w: u8)
    requires
        bit < 8,
    ensures
        w as int == bit_weight(bit as int),
{
    if bit == 0 {
        128
    } else if bit == 1 {
        64
    } else if bit == 2 {
        32
    } else if bit == 3 {
        16
    } else if bit == 4 {
        8
    } else if bit == 5 {
        4
    } else if bit == 6 {
        2
    } else {
        1
    }
}

/// The ICO file of a 32×32 BGRA icon (rows top to bottom in `px`): the
/// header, the colour rows bottom to top, then the mask rows bottom to top
/// with a bit set (most significant first) where alpha is below 128.
pub fn ico_from_bgra(px: &Vec<u8>) -> (ico: Vec<u8>)
    requires
        px@.len() == 4096,
    ensures
        ico@.len() == 62 + 4096 + 128,
        ico@.subrange(0, 62) == ico_header(),
        forall|row: int, x: int, k: int|
            0 <= row < 32 && 0 <= x < 32 && 0 <= k < 4 ==> ico@[62 + ((31 - row) * 32 + x) * 4 + k] == #[trigger] px@[(
            row * 32 + x) * 4 + k],
        forall|row: int, byte: int|
            0 <= row < 32 && 0 <= byte < 4 ==> #[trigger] ico@[62 + 4096 + (31 - row) * 4 + byte] as int == mask_bits(
                px@,
                row,
                byte,
                8,
            ),
{
    let mut ico: Vec<u8> = Vec::new();
    // ICONDIR
    push_le16(&mut ico, 0);
    push_le16(&mut ico, 1);
    push_le16(&mut ico, 1);
    // ICONDIRENTRY
    ico.push(32);
    ico.push(32);
    ico.push(0);
    ico.push(0);
    push_le16(&mut ico, 1);
    push_le16(&mut ico, 32);
    push_le32(&mut ico, (40 + XOR_BYTES + AND_BYTES) as u32);
    push_le32(&mut ico, 22);
    // BITMAPINFOHEADER
    push_le32(&mut ico, 40);
    push_le32(&mut ico, 32);
    push_le32(&mut ico, 64);
    push_le16(&mut ico, 1);
    push_le16(&mut ico, 32);
    push_le32(&mut ico, 0);
    push_le32(&mut ico, XOR_BYTES as u32);
    push_le32(&mut ico, 0);
    push_le32(&mut ico, 0);
    push_le32(&mut ico, 0);
    push_le32(&mut ico, 0);
    proof {
        assert(ico@ =~= ico_header());
    }
    let ghost header = ico@;
    // colour rows, bottom to top
    let mut out_row: usize = 0;
    while out_row < 32
        invariant
            px@.len() == 4096,
            header == ico_header(),
            out_row <= 32,
            ico@.len() == 62 + out_row * 128,
            ico@.subrange(0, 62) == header,
            forall|q: int| 0 <= q < out_row * 128 ==> #[trigger] ico@[62 + q] == px@[(31 - q / 128) * 128 + q % 128],
        decreases 32 - out_row,
    {
        let row = 31 - out_row;
        let mut j: usize = 0;
        while j < 128
            invariant
                px@.len() == 4096,
                header == ico_header(),
                out_row < 32,
                row == 31 - out_row,
                j <= 128,
                ico@.len() == 62 + out_row * 128 + j,
                ico@.subrange(0, 62) == header,
                forall|q: int| 0 <= q < out_row * 128 + j ==> #[trigger] ico@[62 + q] == px@[(31 - q / 128) * 128 + q
                    % 128],
            decreases 128 - j,
        {
            let ghost before = ico@;
            ico.push(px[row * 128 + j]);
            proof {
                assert(ico@.subrange(0, 62) == before.subrange(0, 62));
                assert forall|q: int| 0 <= q < out_row * 128 + j + 1 implies #[trigger] ico@[62 + q] == px@[(31 - q
                    / 128) * 128 + q % 128] by {
                    if q == out_row * 128 + j {
                        assert(q / 128 == out_row as int && q % 128 == j as int);
                    } else {
                        assert(ico@[62 + q] == before[62 + q]);
                    }
                }
            }
            j = j + 1;
        }
        out_row = out_row + 1;
    }
    let ghost colour = ico@;
    // mask rows, bottom to top
    let mut out_row: usize = 0;
    while out_row < 32
        invariant
            px@.len() == 4096,
            header == ico_header(),
            out_row <= 32,
            ico@.len() == 62 + 4096 + out_row * 4,
            ico@.subrange(0, 4158) == colour,
            colour.len() == 62 + 4096,
            colour.subrange(0, 62) == header,
            forall|q: int| 0 <= q < 4096 ==> #[trigger] colour[62 + q] == px@[(31 - q / 128) * 128 + q % 128],
            forall|q: int| 0 <= q < out_row * 4 ==> #[trigger] ico@[62 + 4096 + q] as int == mask_bits(px@, 31 - q / 4, q % 4, 8),
        decreases 32 - out_row,
    {
        let row = 31 - out_row;
        let mut byte: usize = 0;
        while byte < 4
            invariant
                px@.len() == 4096,
                out_row < 32,
                row == 31 - out_row,
                byte <= 4,
                ico@.len() == 62 + 4096 + out_row * 4 + byte,
                ico@.subrange(0, 4158) == colour,
                colour.len() == 62 + 4096,
                forall|q: int| 0 <= q < out_row * 4 + byte ==> #[trigger] ico@[62 + 4096 + q] as int == mask_bits(px@, 31 - q / 4, q % 4, 8),
            decreases 4 - byte,
        {
            let mut mask: u8 = 0;
            let mut bit: usize = 0;
            while bit < 8
                invariant
                    px@.len() == 4096,
                    row < 32,
                    byte < 4,
                    bit <= 8,
                    mask as int == mask_bits(px@, row as int, byte as int, bit as int),
                decreases 8 - bit,
            {
                let x = byte * 8 + bit;
                let alpha = px[(row * 32 + x) * 4 + 3];
                proof {
                    lemma_mask_bits_bound(px@, row as int, byte as int, bit as int);
                }
                if alpha < 128 {
                    mask = mask + weight(bit);
                }
                bit = bit + 1;
            }
            let ghost before = ico@;
            ico.push(mask);
            proof {
                assert(ico@.subrange(0, 4158) == before.subrange(0, 4158));
                assert forall|q: int| 0 <= q < out_row * 4 + byte + 1 implies #[trigger] ico@[62 + 4096 + q] as int
                    == mask_bits(px@, 31 - q / 4, q % 4, 8) by {
                    if q == out_row * 4 + byte {
                        assert(q / 4 == out_row as int && q % 4 == byte as int);
                    } else {
                        assert(ico@[62 + 4096 + q] == before[62 + 4096 + q]);
                    }
                }
            }
            byte = byte + 1;
        }
        out_row = out_row + 1;
    }
    proof {
        assert(ico@.subrange(0, 62) == colour.subrange(0, 62));
        assert forall|row: int, x: int, k: int| 0 <= row < 32 && 0 <= x < 32 && 0 <= k < 4 implies ico@[62 + ((31
            - row) * 32 + x) * 4 + k] == #[trigger] px@[(row * 32 + x) * 4 + k] by {
            let q = ((31 - row) * 32 + x) * 4 + k;
            assert(q / 128 == 31 - row && q % 128 == x * 4 + k);
            assert(ico@[62 + q] == colour[62 + q]);
        }
        assert forall|row: int, byte: int| 0 <= row < 32 && 0 <= byte < 4 implies #[trigger] ico@[62 + 4096 + (31
            - row) * 4 + byte] as int == mask_bits(px@, row, byte, 8) by {
            let q = (31 - row) * 4 + byte;
            assert(q / 4 == 31 - row && q % 4 == byte);
            assert(0 <= q < 128);
            assert(ico@[62 + 4096 + q] as int == mask_bits(px@, 31 - q / 4, q % 4, 8));
        }
    }
    ico
}

} // verus!
