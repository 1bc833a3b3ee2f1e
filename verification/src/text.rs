//! Validity of stored names as text: the byte-level well-formedness of
//! UTF-8, stated as a spec predicate and decided by a verified scanner.

use vstd::prelude::*;

verus! {

/// A continuation byte of a multi-byte sequence.
pub open spec fn is_cont(b: u8) -> bool {
    0x80 <= b < 0xC0
}

/// The bytes from `i` on form well-formed UTF-8: one-byte values below
/// 0x80; two- to four-byte sequences led by 0xC2..0xF4 with continuation
/// bytes, the lead/first-continuation ranges ruling out overlong forms,
/// surrogates, and values beyond 0x10FFFF.
pub open spec fn is_utf8_from(s: Seq<u8>, i: int) -> bool
    decreases s.len() - i,
{
    if i >= s.len() || i < 0 {
        true
    } else {
        let b = s[i];
        if b < 0x80 {
            is_utf8_from(s, i + 1)
        } else if b < 0xC2 {
            false
        } else if b < 0xE0 {
            i + 2 <= s.len() && is_cont(s[i + 1]) && is_utf8_from(s, i + 2)
        } else if b < 0xF0 {
            i + 3 <= s.len() && is_cont(s[i + 1]) && is_cont(s[i + 2]) && (b != 0xE0 || s[i + 1]
                >= 0xA0) && (b != 0xED || s[i + 1] < 0xA0) && is_utf8_from(s, i + 3)
        } else if b < 0xF5 {
            i + 4 <= s.len() && is_cont(s[i + 1]) && is_cont(s[i + 2]) && is_cont(s[i + 3]) && (b
                != 0xF0 || s[i + 1] >= 0x90) && (b != 0xF4 || s[i + 1] < 0x90) && is_utf8_from(
                s,
                i + 4,
            )
        } else {
            false
        }
    }
}

/// The whole byte sequence is well-formed UTF-8.
pub open spec fn is_utf8(s: Seq<u8>) -> bool {
    is_utf8_from(s, 0)
}

/// Decide whether the bytes are well-formed UTF-8.
pub fn check_utf8(s: &[u8]) -> (r: bool)
    ensures
        r == is_utf8(s@),
{
    let n = s.len();
    let mut i: usize = 0;
    while i < n
        invariant
            i <= n == s@.len(),
            is_utf8(s@) == is_utf8_from(s@, i as int),
        decreases n - i,
    {
        let b = s[i];
        if b < 0x80 {
            i = i + 1;
        } else if b < 0xC2 {
            return false;
        } else if b < 0xE0 {
            if n - i < 2 || !(0x80 <= s[i + 1] && s[i + 1] < 0xC0) {
                return false;
            }
            i = i + 2;
        } else if b < 0xF0 {
            if n - i < 3 || !(0x80 <= s[i + 1] && s[i + 1] < 0xC0) || !(0x80 <= s[i + 2] && s[i
                + 2] < 0xC0) {
                return false;
            }
            if b == 0xE0 && s[i + 1] < 0xA0 {
                return false;
            }
            if b == 0xED && s[i + 1] >= 0xA0 {
                return false;
            }
            i = i + 3;
        } else if b < 0xF5 {
            if n - i < 4 || !(0x80 <= s[i + 1] && s[i + 1] < 0xC0) || !(0x80 <= s[i + 2] && s[i
                + 2] < 0xC0) || !(0x80 <= s[i + 3] && s[i + 3] < 0xC0) {
                return false;
            }
            if b == 0xF0 && s[i + 1] < 0x90 {
                return false;
            }
            if b == 0xF4 && s[i + 1] >= 0x90 {
                return false;
            }
            i = i + 4;
        } else {
            return false;
        }
    }
    true
}

} // verus!
