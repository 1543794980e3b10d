//! Renders a textual message as a QR symbol and packs it into a
//! 1-bit-per-pixel, most-significant-bit-first bitmap, streaming the bytes
//! into a caller-supplied fixed-capacity buffer with strict bounds
//! enforcement. The packing model, the scaling traversal and the bounded
//! writer are verified; the QR module matrix itself comes from the qrcode
//! crate behind a trusted boundary.

pub mod pack;
pub mod qr;

use vstd::prelude::*;

verus! {

/// Adds two machine integers; the C-callable boundary wraps this.
pub fn rusty_add(left: i32, right: i32) -> (r: i32)
    requires
        i32::MIN <= left + right <= i32::MAX,
    ensures
        r == left + right,
{
    left + right
}

} // verus!
