//! Two-digit lowercase hexadecimal rendering of single bytes.

use vstd::prelude::*;

verus! {

/// ASCII code of the lowercase hex digit for a value in `0..16`.
pub open spec fn hex_digit(v: int) -> u8 {
    if v < 10 {
        (48 + v) as u8
    } else {
        (87 + v) as u8
    }
}

/// The two-digit, zero-padded, lowercase hex rendering of one byte.
pub open spec fn hex_pair(b: u8) -> Seq<u8> {
    seq![hex_digit(b as int / 16), hex_digit(b as int % 16)]
}

/// Appends the two-digit lowercase hex rendering of `b` to `out`.
pub fn push_hex(out: &mut Vec<u8>, b: u8)
    ensures
        final(out)@ == old(out)@ + hex_pair(b),
{
    let hi = b / 16;
    let lo = b % 16;
    out.push(if hi < 10 { 48 + hi } else { 87 + hi });
    out.push(if lo < 10 { 48 + lo } else { 87 + lo });
    proof {
        assert(out@ =~= old(out)@ + hex_pair(b));
    }
}

} // verus!
