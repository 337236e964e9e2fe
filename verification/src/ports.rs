//! Decoding the handshake a freshly started server writes on its standard
//! output: its TCP port as exactly five decimal digits, left-padded with
//! zeros.

use vstd::prelude::*;

verus! {

/// The decimal value of five ASCII digits; `None` if the sequence is not
/// exactly five digits long.
pub open spec fn spec_port(s: Seq<u8>) -> Option<u32> {
    if s.len() == 5 && (forall|i: int| 0 <= i < 5 ==> 48 <= #[trigger] s[i] <= 57) {
        Some(
            (((s[0] - 48) * 10000) + ((s[1] - 48) * 1000) + ((s[2] - 48) * 100) + ((s[3] - 48)
                * 10) + (s[4] - 48)) as u32,
        )
    } else {
        None
    }
}

/// Parses a five-byte, zero-padded decimal port number.
pub fn parse_port(buf: &[u8]) -> (r: Option<u32>)
    ensures
        r == spec_port(buf@),
{
    if buf.len() != 5 {
        return None;
    }
    let b0 = buf[0];
    let b1 = buf[1];
    let b2 = buf[2];
    let b3 = buf[3];
    let b4 = buf[4];
    if b0 < 48 || b0 > 57 || b1 < 48 || b1 > 57 || b2 < 48 || b2 > 57 || b3 < 48 || b3 > 57
        || b4 < 48 || b4 > 57 {
        return None;
    }
    let value: u32 = (b0 - 48) as u32 * 10000 + (b1 - 48) as u32 * 1000 + (b2 - 48) as u32 * 100
        + (b3 - 48) as u32 * 10 + (b4 - 48) as u32;
    Some(value)
}

} // verus!
