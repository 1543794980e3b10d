//! The 1-bit-per-pixel packing model: each row of the scaled module grid is
//! folded into bytes, eight pixels per byte, most significant bit first, with
//! byte alignment restarting at every row and trailing bits padded light.

use vstd::prelude::*;

verus! {

use vstd::arithmetic::div_mod::lemma_div_by_multiple;
use vstd::arithmetic::div_mod::lemma_div_pos_is_pos;
use vstd::arithmetic::div_mod::lemma_fundamental_div_mod_converse;
use vstd::arithmetic::div_mod::lemma_fundamental_div_mod;
use vstd::arithmetic::div_mod::lemma_multiply_divide_lt;

/// Number of bytes one packed row of `width` pixels occupies.
pub open spec fn row_bytes(width: nat) -> nat {
    (width + 7) / 8
}

/// Bit `k` of `v`, counting `k == 0` as the most significant bit.
pub open spec fn get_bit(v: u8, k: u8) -> bool
    recommends
        k < 8,
{
    (v >> ((7 - k) as u8)) & 1u8 == 1u8
}

/// Folds a run of at most 8 pixels into one byte: the pixel at index 0 lands
/// in bit 7, later pixels in lower bits; dark is 1, light is 0. Positions
/// past the end of the run stay 0 (light padding).
pub open spec fn pack_msb(bits: Seq<bool>) -> u8
    recommends
        bits.len() <= 8,
    decreases bits.len(),
{
    if bits.len() == 0 {
        0u8
    } else {
        pack_msb(bits.drop_last()) | (if bits.last() {
            1u8 << ((7 - (bits.len() - 1)) as u8)
        } else {
            0u8
        })
    }
}

/// The color of the scaled pixel at column `px` of scaled row `py`: each
/// module of the `n`-by-`n` matrix covers an `s`-by-`s` block of pixels.
/// `modules` is the matrix in row-major order, `true` for dark.
pub open spec fn scaled_pixel(modules: Seq<bool>, n: nat, s: nat, py: int, px: int) -> bool
    recommends
        s >= 1,
        modules.len() == n * n,
        0 <= py < n * s,
        0 <= px < n * s,
{
    modules[(py / s as int) * n as int + px / s as int]
}

/// The pixel fed to the packer at column `px` of scaled row `py`; columns at
/// or past the row's width pack as light.
pub open spec fn image_bit(modules: Seq<bool>, n: nat, s: nat, py: int, px: int) -> bool
    recommends
        s >= 1,
        modules.len() == n * n,
        0 <= py < n * s,
        0 <= px,
{
    0 <= px < n * s && scaled_pixel(modules, n, s, py, px)
}

/// The run of 8 pixels that byte `bi` of scaled row `py` packs.
pub open spec fn row_byte_bits(modules: Seq<bool>, n: nat, s: nat, py: int, bi: int) -> Seq<bool> {
    Seq::new(8, |k: int| image_bit(modules, n, s, py, bi * 8 + k))
}

/// Byte `bi` of packed scaled row `py`.
pub open spec fn packed_byte(modules: Seq<bool>, n: nat, s: nat, py: int, bi: int) -> u8 {
    pack_msb(row_byte_bits(modules, n, s, py, bi))
}

/// The whole packed bitmap: `n * s` rows of `row_bytes(n * s)` bytes each,
/// row-major.
pub open spec fn packed_image(modules: Seq<bool>, n: nat, s: nat) -> Seq<u8> {
    let width = n * s;
    Seq::new(
        width * row_bytes(width),
        |i: int| packed_byte(modules, n, s, i / row_bytes(width) as int, i % row_bytes(width) as int),
    )
}

/// Reads pixel (`px`, `py`) back out of a packed bitmap of the given width:
/// byte `px / 8` of row `py`, bit `px % 8` from the most significant end.
pub open spec fn unpacked_pixel(img: Seq<u8>, width: nat, py: int, px: int) -> bool
    recommends
        0 <= py < width,
        0 <= px < width,
        img.len() == width * row_bytes(width),
{
    get_bit(img[py * row_bytes(width) as int + px / 8], (px % 8) as u8)
}

/// A pixel coordinate below `n * s` falls in a module row or column below `n`.
proof fn lemma_coord_div_bound(x: int, s: int, n: int)
    requires
        1 <= s,
        0 <= x,
        x < n * s,
    ensures
        x / s < n,
        0 <= x / s,
{
    assert(n * s == s * n) by (nonlinear_arith);
    lemma_multiply_divide_lt(x, s, n);
    lemma_div_pos_is_pos(x, s);
}

proof fn lemma_or_zero(x: u8)
    ensures
        x | 0u8 == x,
{
    assert(x | 0u8 == x) by (bit_vector);
}

/// Bit `k` of a packed run is exactly the pixel at index `k` of the run,
/// light past the run's end.
proof fn lemma_pack_msb_bit(bits: Seq<bool>, k: u8)
    requires
        bits.len() <= 8,
        k < 8,
    ensures
        get_bit(pack_msb(bits), k) == (k < bits.len() && bits[k as int]),
    decreases bits.len(),
{
    if bits.len() == 0 {
        assert((0u8 >> ((7 - k) as u8)) & 1u8 == 0u8) by (bit_vector)
            requires
                k < 8,
        ;
    } else {
        let p = pack_msb(bits.drop_last());
        let j = (bits.len() - 1) as u8;
        lemma_pack_msb_bit(bits.drop_last(), k);
        if bits.last() {
            let t = 1u8 << ((7 - j) as u8);
            assert(pack_msb(bits) == p | t);
            assert(((p | t) >> ((7 - k) as u8)) & 1u8 == 1u8 <==> (((p >> ((7 - k) as u8)) & 1u8
                == 1u8) || ((t >> ((7 - k) as u8)) & 1u8 == 1u8))) by (bit_vector)
                requires
                    k < 8,
            ;
            if k == j {
                assert(((1u8 << ((7 - j) as u8)) >> ((7 - k) as u8)) & 1u8 == 1u8) by (bit_vector)
                    requires
                        j < 8,
                        k == j,
                ;
            } else {
                assert(((1u8 << ((7 - j) as u8)) >> ((7 - k) as u8)) & 1u8 == 0u8) by (bit_vector)
                    requires
                        j < 8,
                        k < 8,
                        k != j,
                ;
            }
        } else {
            lemma_or_zero(p);
            assert(pack_msb(bits) == p);
        }
    }
}

/// Packing is invertible: reading pixel (`px`, `py`) back out of the packed
/// bitmap (row-major, most significant bit first, `row_bytes` bytes per row)
/// gives the color of the module whose block covers that pixel, so
/// downsampling the unpacked image by the block size `s` reconstructs the
/// module matrix exactly.
pub proof fn lemma_pack_round_trip(modules: Seq<bool>, n: nat, s: nat, py: int, px: int)
    requires
        s >= 1,
        modules.len() == n * n,
        0 <= py < n * s,
        0 <= px < n * s,
    ensures
        unpacked_pixel(packed_image(modules, n, s), (n * s) as nat, py, px) == modules[(py / (
        s as int)) * (n as int) + px / (s as int)],
{
    let width = (n * s) as int;
    let rb = row_bytes((n * s) as nat) as int;
    let bi = px / 8;
    let k0 = px % 8;
    lemma_fundamental_div_mod(px, 8);
    lemma_fundamental_div_mod(width + 7, 8);
    lemma_div_pos_is_pos(px, 8);
    assert(0 <= k0 < 8);
    assert(8 * rb >= width);
    assert(px < 8 * rb);
    lemma_multiply_divide_lt(px, 8, rb);
    assert(0 <= bi < rb);
    let idx = py * rb + bi;
    assert(py * rb + bi < width * rb) by (nonlinear_arith)
        requires
            0 <= py < width,
            0 <= bi < rb,
    ;
    assert(0 <= py * rb) by (nonlinear_arith)
        requires
            0 <= py,
            0 <= rb,
    ;
    lemma_fundamental_div_mod_converse(idx, rb, py, bi);
    let img = packed_image(modules, n, s);
    assert(img[idx] == packed_byte(modules, n, s, py, bi));
    let bits = row_byte_bits(modules, n, s, py, bi);
    lemma_pack_msb_bit(bits, k0 as u8);
    assert(bits[k0] == image_bit(modules, n, s, py, bi * 8 + k0));
    assert(bi * 8 + k0 == px);
}

/// The downsampling form of invertibility: the top-left pixel of the block
/// of module (`mx`, `my`) unpacks to that module's color.
pub proof fn lemma_downsample_module(modules: Seq<bool>, n: nat, s: nat, my: int, mx: int)
    requires
        s >= 1,
        modules.len() == n * n,
        0 <= my < n,
        0 <= mx < n,
    ensures
        unpacked_pixel(packed_image(modules, n, s), (n * s) as nat, my * s as int, mx * s as int)
            == modules[my * (n as int) + mx],
{
    assert(0 <= my * s < n * s && 0 <= mx * s < n * s) by (nonlinear_arith)
        requires
            0 <= my < n,
            0 <= mx < n,
            s >= 1,
    ;
    lemma_pack_round_trip(modules, n, s, my * s as int, mx * s as int);
    lemma_div_by_multiple(my, s as int);
    lemma_div_by_multiple(mx, s as int);
}

/// Extending a packed run by one pixel ors in that pixel's bit.
proof fn lemma_pack_msb_step(bits: Seq<bool>, k: int)
    requires
        0 <= k < bits.len() <= 8,
    ensures
        pack_msb(bits.take(k + 1)) == (pack_msb(bits.take(k)) | (if bits[k] {
            1u8 << ((7 - k) as u8)
        } else {
            0u8
        })),
{
    assert(bits.take(k + 1).drop_last() =~= bits.take(k));
    assert(bits.take(k + 1).last() == bits[k]);
}

/// Folds up to 8 pixels into one byte, the first pixel in the most
/// significant bit, dark as 1 and light as 0.
pub fn pack_colors(pixels: &Vec<bool>) -> (b: u8)
    requires
        pixels@.len() <= 8,
    ensures
        b == pack_msb(pixels@),
{
    let mut b: u8 = 0;
    let mut i: usize = 0;
    while i < pixels.len()
        invariant
            i <= pixels@.len() <= 8,
            b == pack_msb(pixels@.take(i as int)),
        decreases pixels@.len() - i,
    {
        proof {
            lemma_pack_msb_step(pixels@, i as int);
            if !pixels@[i as int] {
                lemma_or_zero(b);
            }
        }
        if pixels[i] {
            let shift: u8 = 7 - (i as u8);
            b = b | (1u8 << shift);
        }
        i += 1;
    }
    proof {
        assert(pixels@.take(pixels@.len() as int) =~= pixels@);
    }
    b
}

/// Packs byte `bi` of scaled row `py` straight from the module matrix,
/// without materializing the scaled pixel grid.
pub(crate) fn pack_row_byte(modules: &Vec<bool>, n: usize, s: usize, py: usize, bi: usize) -> (b:
    u8)
    requires
        s >= 1,
        modules@.len() == n * n,
        n * s <= 0xFFFF,
        py < n * s,
        bi < row_bytes((n * s) as nat),
    ensures
        b == packed_byte(modules@, n as nat, s as nat, py as int, bi as int),
{
    let ghost bits = row_byte_bits(modules@, n as nat, s as nat, py as int, bi as int);
    let m_len = modules.len();
    let width = n * s;
    proof {
        lemma_coord_div_bound(py as int, s as int, n as int);
        lemma_fundamental_div_mod((width + 7) as int, 8);
    }
    let my = py / s;
    proof {
        assert((my as int) * (n as int) + (n as int) <= (n as int) * (n as int))
            by (nonlinear_arith)
            requires
                0 <= (my as int) < (n as int),
        ;
    }
    let row_base = my * n;
    let mut b: u8 = 0;
    let mut k: usize = 0;
    while k < 8
        invariant
            k <= 8,
            s >= 1,
            width == n * s <= 0xFFFF,
            modules@.len() == n * n,
            n * n <= usize::MAX,
            py < width,
            my == py as int / s as int,
            row_base == my * n,
            row_base + n <= n * n,
            bi * 8 + 8 <= width + 7,
            bits == row_byte_bits(modules@, n as nat, s as nat, py as int, bi as int),
            b == pack_msb(bits.take(k as int)),
        decreases 8 - k,
    {
        let px = bi * 8 + k;
        let dark: bool;
        if px < width {
            proof {
                lemma_coord_div_bound(px as int, s as int, n as int);
            }
            let mx = px / s;
            dark = modules[row_base + mx];
        } else {
            dark = false;
        }
        proof {
            assert(bits[k as int] == dark);
            lemma_pack_msb_step(bits, k as int);
            if !dark {
                lemma_or_zero(b);
            }
        }
        if dark {
            let shift: u8 = 7 - (k as u8);
            b = b | (1u8 << shift);
        }
        k += 1;
    }
    proof {
        assert(bits.take(8) =~= bits);
    }
    b
}

} // verus!
