//! Classification of input bytes as alphabetic or not.
//!
//! Each input byte is read as the character with the same code point
//! (Latin-1), so the alphabetic bytes are the ASCII letters together
//! with the Latin-1 letters above `0x7F`.

use vstd::prelude::*;

verus! {

/// A byte is alphabetic when the character with its code point is a letter:
/// the ASCII letters, the three Latin-1 ordinal/micro letters, and the
/// accented Latin-1 letter blocks (which exclude multiplication and
/// division signs at 0xD7 and 0xF7).
pub open spec fn is_alpha(c: u8) -> bool {
    ||| (0x41 <= c && c <= 0x5a)
    ||| (0x61 <= c && c <= 0x7a)
    ||| c == 0xaa
    ||| c == 0xb5
    ||| c == 0xba
    ||| (0xc0 <= c && c <= 0xd6)
    ||| (0xd8 <= c && c <= 0xf6)
    ||| (0xf8 <= c && c <= 0xff)
}

/// Decide whether a byte is alphabetic.
pub fn classify(c: u8) -> (r: bool)
    ensures
        r == is_alpha(c),
{
    (0x41 <= c && c <= 0x5a)
        || (0x61 <= c && c <= 0x7a)
        || c == 0xaa
        || c == 0xb5
        || c == 0xba
        || (0xc0 <= c && c <= 0xd6)
        || (0xd8 <= c && c <= 0xf6)
        || 0xf8 <= c
}

} // verus!
