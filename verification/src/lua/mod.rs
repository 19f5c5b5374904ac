//! What a dissector script works with: the bytes it slices and the fields it records. The script
//! engine itself lives with the application.

pub mod dissector_table;
pub mod pinfo;
pub mod tree;
pub mod tvb;

use vstd::prelude::*;

pub use tree::{FieldValue, FrameFields};

verus! {

/// The number that a dissector returned, as far as it counts: anything but a number that is not
/// negative is no claim at all.
#[derive(Clone, Copy, Debug, PartialEq, Eq, Structural)]
pub enum DissectorReturn {
    Integer(i64),
    /// A floating-point number that is not negative, cut to an integer.
    NonNegativeNumber(u64),
    Other,
}

/// How many of the bytes it was handed a dissector consumed. It says so by what it returns, and
/// cannot consume more than it was handed; one that makes no claim is taken to have consumed
/// everything, so that no byte is dissected twice.
pub open spec fn spec_consumed(returned: DissectorReturn, len: usize) -> usize {
    match returned {
        DissectorReturn::Integer(n) if n >= 0 => if n < len {
            n as usize
        } else {
            len
        },
        DissectorReturn::NonNegativeNumber(n) => if n < len {
            n as usize
        } else {
            len
        },
        _ => len,
    }
}

/// See `spec_consumed`.
pub fn consumed_bytes(returned: DissectorReturn, len: usize) -> (consumed: usize)
    ensures
        consumed == spec_consumed(returned, len),
        consumed <= len,
{
    match returned {
        DissectorReturn::Integer(n) => {
            if n >= 0 && (n as u64) < len as u64 {
                n as usize
            } else {
                len
            }
        },
        DissectorReturn::NonNegativeNumber(n) => {
            if n < len as u64 {
                n as usize
            } else {
                len
            }
        },
        DissectorReturn::Other => len,
    }
}

/// A dissector consumes what it says, and no more than it was handed; a negative number or none at
/// all means everything.
pub proof fn law_claim_is_capped(n: i64, m: u64, len: usize)
    ensures
        0 <= n <= len ==> spec_consumed(DissectorReturn::Integer(n), len) == n,
        n > len ==> spec_consumed(DissectorReturn::Integer(n), len) == len,
        n < 0 ==> spec_consumed(DissectorReturn::Integer(n), len) == len,
        m <= len ==> spec_consumed(DissectorReturn::NonNegativeNumber(m), len) == m,
        m > len ==> spec_consumed(DissectorReturn::NonNegativeNumber(m), len) == len,
        spec_consumed(DissectorReturn::Other, len) == len,
{
}

} // verus!
