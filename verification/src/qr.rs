//! The QR image pipeline: a message is encoded as a square module matrix,
//! each module is scaled to an `s`-by-`s` pixel block, the pixels are packed
//! eight to a byte row by row, and the bytes stream into a caller-supplied
//! buffer whose capacity is a hard ceiling.

use vstd::prelude::*;

verus! {

use crate::pack::pack_row_byte;
use crate::pack::packed_byte;
use crate::pack::packed_image;
use crate::pack::row_bytes;
use vstd::arithmetic::div_mod::lemma_fundamental_div_mod;
use vstd::arithmetic::div_mod::lemma_fundamental_div_mod_converse;
use vstd::arithmetic::div_mod::lemma_mod_pos_bound;

/// Side length in modules of the QR symbol that encodes `msg`, or 0 when no
/// supported version can hold the message.
pub uninterp spec fn qr_side(msg: Seq<u8>) -> nat;

/// The module matrix of the QR symbol that encodes `msg`: row-major, top to
/// bottom, `true` for a dark module; `qr_side(msg) * qr_side(msg)` entries.
pub uninterp spec fn qr_modules(msg: Seq<u8>) -> Seq<bool>;

/// Relies on qrcode::QrCode::new (encodes a byte message at medium error
/// correction in the smallest viable normal QR version, or fails when none
/// can hold it), QrCode::width (the symbol's side length in modules) and
/// QrCode::into_colors (the module matrix, row-major, left-to-right then
/// top-to-bottom). The outcome depends on the message bytes alone; normal QR
/// versions 1 through 40 have sides 21 through 177 modules, and the matrix
/// holds one color per cell of the square grid.
#[verifier::external_body]
fn qr_generate(message: &[u8]) -> (r: Option<(usize, Vec<bool>)>)
    ensures
        r is Some <==> qr_side(message@) >= 1,
        (match r {
            Some(p) => {
                &&& p.0 == qr_side(message@)
                &&& 21 <= p.0 <= 177
                &&& p.1@ == qr_modules(message@)
                &&& p.1@.len() == p.0 * p.0
            },
            None => true,
        }),
{
    match qrcode::QrCode::new(message) {
        Ok(code) => {
            let n = code.width();
            let colors = code.into_colors();
            Some((n, colors.into_iter().map(|c| matches!(c, qrcode::Color::Dark)).collect()))
        },
        Err(_) => None,
    }
}

/// Why a generation attempt failed.
#[derive(Clone, Copy, Debug, PartialEq, Eq, Structural)]
pub enum QrError {
    /// The scale factor was zero.
    InvalidInput,
    /// No supported QR version can hold the message.
    EncodingFailure,
    /// The scaled side length does not fit the 16-bit image dimensions.
    DimensionOverflow,
    /// The buffer's capacity cannot hold the packed bitmap.
    BufferTooSmall,
}

/// Dimensions and length of a successfully produced image.
#[derive(Clone, Copy, Debug)]
pub struct QrImageInfo {
    /// Width of the packed bitmap in pixels.
    pub width: u16,
    /// Height of the packed bitmap in pixels; always equal to the width.
    pub height: u16,
    /// Number of bytes written to the buffer.
    pub data_len: usize,
}

/// Side length in pixels of the scaled image for `msg` at scale `s`.
pub open spec fn scaled_side(msg: Seq<u8>, s: nat) -> nat {
    qr_side(msg) * s
}

/// Number of bytes the packed bitmap for `msg` at scale `s` occupies.
pub open spec fn required_bytes(msg: Seq<u8>, s: nat) -> nat {
    scaled_side(msg, s) * row_bytes(scaled_side(msg, s))
}

/// Exactly when generation succeeds: a positive scale, an encodable message,
/// a scaled side within 16 bits, and a buffer of sufficient capacity.
pub open spec fn generate_succeeds(msg: Seq<u8>, s: nat, cap: nat) -> bool {
    &&& s >= 1
    &&& qr_side(msg) >= 1
    &&& scaled_side(msg, s) <= 0xFFFF
    &&& cap >= required_bytes(msg, s)
}

/// The error reported when generation fails; the conditions are checked in
/// this order, so each error names the first failing check.
pub open spec fn generate_error(msg: Seq<u8>, s: nat, cap: nat) -> QrError {
    if s == 0 {
        QrError::InvalidInput
    } else if qr_side(msg) == 0 {
        QrError::EncodingFailure
    } else if scaled_side(msg, s) > 0xFFFF {
        QrError::DimensionOverflow
    } else {
        QrError::BufferTooSmall
    }
}

/// `s` stays within the per-`n` quotient of a limit exactly when `n * s`
/// stays within the limit.
proof fn lemma_scale_fits(n: int, s: int, limit: int)
    requires
        n >= 1,
        s >= 0,
        limit >= 0,
    ensures
        (s <= limit / n) <==> (n * s <= limit),
{
    let q = limit / n;
    lemma_fundamental_div_mod(limit, n);
    lemma_mod_pos_bound(limit, n);
    if s <= q {
        assert(n * s <= n * q) by (nonlinear_arith)
            requires
                n >= 1,
                s <= q,
        ;
    } else {
        assert(n * s >= n * q + n) by (nonlinear_arith)
            requires
                n >= 1,
                s >= q + 1,
        ;
    }
}

/// Determinism: two successful generations from the same message and scale
/// produce byte-identical output, whatever the capacities of the buffers
/// they were streamed into.
pub proof fn lemma_output_deterministic(
    msg: Seq<u8>,
    s: nat,
    cap1: nat,
    cap2: nat,
    out1: Seq<u8>,
    out2: Seq<u8>,
)
    requires
        generate_succeeds(msg, s, cap1),
        generate_succeeds(msg, s, cap2),
        out1 == packed_image(qr_modules(msg), qr_side(msg), s),
        out2 == packed_image(qr_modules(msg), qr_side(msg), s),
    ensures
        out1 == out2,
{
}

/// Unpacking a generated bitmap (row-major, most significant bit first) and
/// downsampling by the scale reconstructs the message's module matrix.
pub proof fn lemma_generate_round_trip(msg: Seq<u8>, s: nat, my: int, mx: int)
    requires
        s >= 1,
        qr_modules(msg).len() == qr_side(msg) * qr_side(msg),
        0 <= my < qr_side(msg),
        0 <= mx < qr_side(msg),
    ensures
        crate::pack::unpacked_pixel(
            packed_image(qr_modules(msg), qr_side(msg), s),
            scaled_side(msg, s),
            my * s as int,
            mx * s as int,
        ) == qr_modules(msg)[my * (qr_side(msg) as int) + mx],
{
    crate::pack::lemma_downsample_module(qr_modules(msg), qr_side(msg), s, my, mx);
}

/// Renders `message` as a QR symbol, scales each module to a
/// `module_size`-by-`module_size` block, packs the pixels eight to a byte
/// (most significant bit first, each row byte-aligned on its own, trailing
/// bits light) and streams the bytes into `data`, never past its length.
///
/// On success the first `data_len` bytes of `data` hold the packed bitmap,
/// the bytes after them are untouched, and `width == height` is the scaled
/// side. On failure the buffer's length is unchanged; except after a
/// mid-stream capacity abort its contents are unchanged too.
pub fn generate_qr_lv_img_data(message: &[u8], module_size: usize, data: &mut Vec<u8>) -> (r:
    Result<QrImageInfo, QrError>)
    ensures
        final(data)@.len() == old(data)@.len(),
        r is Ok <==> generate_succeeds(message@, module_size as nat, old(data)@.len()),
        (match r {
            Ok(info) => {
                &&& info.width == scaled_side(message@, module_size as nat)
                &&& info.height == info.width
                &&& info.data_len == required_bytes(message@, module_size as nat)
                &&& final(data)@.subrange(0, info.data_len as int) == packed_image(
                    qr_modules(message@),
                    qr_side(message@),
                    module_size as nat,
                )
                &&& final(data)@.skip(info.data_len as int) == old(data)@.skip(info.data_len as int)
            },
            Err(e) => {
                &&& e == generate_error(message@, module_size as nat, old(data)@.len())
                &&& (e != QrError::BufferTooSmall ==> final(data)@ == old(data)@)
            },
        }),
{
    if module_size == 0 {
        return Err(QrError::InvalidInput);
    }
    let generated = qr_generate(message);
    match generated {
        None => Err(QrError::EncodingFailure),
        Some(pair) => {
            let (n, modules) = pair;
            proof {
                lemma_scale_fits(n as int, module_size as int, 0xFFFF);
            }
            if module_size > 0xFFFF / n {
                return Err(QrError::DimensionOverflow);
            }
            let width = n * module_size;
            let rb = (width + 7) / 8;
            let capacity = data.len();
            let ghost s = module_size as nat;
            let ghost orig = data@;
            let ghost img = packed_image(modules@, n as nat, s);
            proof {
                lemma_fundamental_div_mod((width + 7) as int, 8);
            }
            let mut pos: usize = 0;
            let mut py: usize = 0;
            while py < width
                invariant
                    module_size == s >= 1,
                    n == qr_side(message@),
                    21 <= n <= 177,
                    modules@ == qr_modules(message@),
                    modules@.len() == n * n,
                    width == n * s <= 0xFFFF,
                    rb == row_bytes((n * s) as nat),
                    img == packed_image(modules@, n as nat, s),
                    img.len() == width * rb,
                    py <= width,
                    pos == py * rb,
                    pos <= capacity,
                    orig == old(data)@,
                    capacity == orig.len(),
                    data@.len() == orig.len(),
                    forall|i: int| 0 <= i < pos ==> data@[i] == img[i],
                    forall|i: int| pos <= i < orig.len() ==> data@[i] == orig[i],
                decreases width - py,
            {
                let mut bi: usize = 0;
                while bi < rb
                    invariant
                        module_size == s >= 1,
                        n == qr_side(message@),
                        21 <= n <= 177,
                        modules@ == qr_modules(message@),
                        modules@.len() == n * n,
                        width == n * s <= 0xFFFF,
                        rb == row_bytes((n * s) as nat),
                        img == packed_image(modules@, n as nat, s),
                        img.len() == width * rb,
                        py < width,
                        bi <= rb,
                        pos == py * rb + bi,
                        pos <= capacity,
                        orig == old(data)@,
                        capacity == orig.len(),
                        data@.len() == orig.len(),
                        forall|i: int| 0 <= i < pos ==> data@[i] == img[i],
                        forall|i: int| pos <= i < orig.len() ==> data@[i] == orig[i],
                    decreases rb - bi,
                {
                    proof {
                        assert(py * rb + bi < width * rb) by (nonlinear_arith)
                            requires
                                0 <= py < width,
                                0 <= bi < rb,
                        ;
                    }
                    let b = pack_row_byte(&modules, n, module_size, py, bi);
                    if pos >= capacity {
                        return Err(QrError::BufferTooSmall);
                    }
                    data[pos] = b;
                    proof {
                        lemma_fundamental_div_mod_converse(
                            pos as int,
                            rb as int,
                            py as int,
                            bi as int,
                        );
                        assert(img[pos as int] == packed_byte(
                            modules@,
                            n as nat,
                            s,
                            py as int,
                            bi as int,
                        ));
                    }
                    pos += 1;
                    bi += 1;
                }
                proof {
                    assert((py + 1) * rb == py * rb + rb) by (nonlinear_arith);
                }
                py += 1;
            }
            proof {
                assert(data@.subrange(0, pos as int) =~= img);
                assert(data@.skip(pos as int) =~= orig.skip(pos as int));
            }
            let side = width as u16;
            Ok(QrImageInfo { width: side, height: side, data_len: pos })
        },
    }
}

} // verus!
