//! UTF-8 validation for registration bodies: the registry must tell text
//! that is not UTF-8 apart from text that is not an address.
//!
//! Validity follows the encoding's shortest-form rules: continuation bytes
//! in `0x80..0xC0`, no overlong sequences, no surrogate code points, and
//! nothing above `U+10FFFF`.

use vstd::prelude::*;

verus! {

/// A UTF-8 continuation byte.
pub open spec fn is_utf8_cont(b: u8) -> bool {
    0x80 <= b < 0xC0
}

/// Whether the bytes from position `i` on are a run of well-formed UTF-8
/// sequences.
pub open spec fn is_valid_utf8_from(s: Seq<u8>, i: int) -> bool
    decreases s.len() - i,
{
    if i < 0 || i >= s.len() {
        true
    } else {
        let b0 = s[i];
        if b0 < 0x80 {
            is_valid_utf8_from(s, i + 1)
        } else if b0 < 0xC2 {
            false
        } else if b0 < 0xE0 {
            i + 2 <= s.len() && is_utf8_cont(s[i + 1]) && is_valid_utf8_from(s, i + 2)
        } else if b0 == 0xE0 {
            i + 3 <= s.len() && 0xA0 <= s[i + 1] < 0xC0 && is_utf8_cont(s[i + 2])
                && is_valid_utf8_from(s, i + 3)
        } else if b0 < 0xED {
            i + 3 <= s.len() && is_utf8_cont(s[i + 1]) && is_utf8_cont(s[i + 2])
                && is_valid_utf8_from(s, i + 3)
        } else if b0 == 0xED {
            i + 3 <= s.len() && 0x80 <= s[i + 1] < 0xA0 && is_utf8_cont(s[i + 2])
                && is_valid_utf8_from(s, i + 3)
        } else if b0 < 0xF0 {
            i + 3 <= s.len() && is_utf8_cont(s[i + 1]) && is_utf8_cont(s[i + 2])
                && is_valid_utf8_from(s, i + 3)
        } else if b0 == 0xF0 {
            i + 4 <= s.len() && 0x90 <= s[i + 1] < 0xC0 && is_utf8_cont(s[i + 2]) && is_utf8_cont(
                s[i + 3],
            ) && is_valid_utf8_from(s, i + 4)
        } else if b0 < 0xF4 {
            i + 4 <= s.len() && is_utf8_cont(s[i + 1]) && is_utf8_cont(s[i + 2]) && is_utf8_cont(
                s[i + 3],
            ) && is_valid_utf8_from(s, i + 4)
        } else if b0 == 0xF4 {
            i + 4 <= s.len() && 0x80 <= s[i + 1] < 0x90 && is_utf8_cont(s[i + 2]) && is_utf8_cont(
                s[i + 3],
            ) && is_valid_utf8_from(s, i + 4)
        } else {
            false
        }
    }
}

/// Whether the bytes are well-formed UTF-8 text.
pub open spec fn is_valid_utf8(s: Seq<u8>) -> bool {
    is_valid_utf8_from(s, 0)
}

/// Pure ASCII text is valid UTF-8.
pub proof fn lemma_ascii_is_valid_utf8(s: Seq<u8>)
    requires
        forall|i: int| 0 <= i < s.len() ==> #[trigger] s[i] < 0x80,
    ensures
        is_valid_utf8(s),
{
    lemma_ascii_is_valid_utf8_from(s, 0);
}

proof fn lemma_ascii_is_valid_utf8_from(s: Seq<u8>, i: int)
    requires
        forall|k: int| 0 <= k < s.len() ==> #[trigger] s[k] < 0x80,
        0 <= i,
    ensures
        is_valid_utf8_from(s, i),
    decreases s.len() - i,
{
    if i < s.len() {
        lemma_ascii_is_valid_utf8_from(s, i + 1);
    }
}

/// Decides whether the bytes are well-formed UTF-8 text.
pub fn check_utf8(bytes: &Vec<u8>) -> (r: bool)
    ensures
        r == is_valid_utf8(bytes@),
{
    let len: usize = bytes.len();
    let mut i: usize = 0;
    while i < len
        invariant
            i <= len,
            len == bytes@.len(),
            is_valid_utf8(bytes@) == is_valid_utf8_from(bytes@, i as int),
        decreases len - i,
    {
        let b0 = bytes[i];
        if b0 < 0x80 {
            i = i + 1;
        } else if b0 < 0xC2 {
            return false;
        } else if b0 < 0xE0 {
            if len - i < 2 || !cont_at(bytes, i + 1) {
                return false;
            }
            i = i + 2;
        } else if b0 < 0xF0 {
            if len - i < 3 || !cont_at(bytes, i + 2) {
                return false;
            }
            let b1 = bytes[i + 1];
            if b0 == 0xE0 {
                if !(0xA0 <= b1 && b1 < 0xC0) {
                    return false;
                }
            } else if b0 == 0xED {
                if !(0x80 <= b1 && b1 < 0xA0) {
                    return false;
                }
            } else {
                if !(0x80 <= b1 && b1 < 0xC0) {
                    return false;
                }
            }
            i = i + 3;
        } else if b0 <= 0xF4 {
            if len - i < 4 || !cont_at(bytes, i + 2) || !cont_at(bytes, i + 3) {
                return false;
            }
            let b1 = bytes[i + 1];
            if b0 == 0xF0 {
                if !(0x90 <= b1 && b1 < 0xC0) {
                    return false;
                }
            } else if b0 == 0xF4 {
                if !(0x80 <= b1 && b1 < 0x90) {
                    return false;
                }
            } else {
                if !(0x80 <= b1 && b1 < 0xC0) {
                    return false;
                }
            }
            i = i + 4;
        } else {
            return false;
        }
    }
    true
}

/// Whether the byte at a position is a continuation byte.
fn cont_at(bytes: &Vec<u8>, at: usize) -> (r: bool)
    requires
        at < bytes@.len(),
    ensures
        r == is_utf8_cont(bytes@[at as int]),
{
    let b = bytes[at];
    0x80 <= b && b < 0xC0
}

} // verus!
