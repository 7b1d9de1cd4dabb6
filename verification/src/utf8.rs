//! Well-formedness of UTF-8 byte sequences.
//!
//! The forward transducer splits its input into maximal well-formed runs,
//! so it needs to know, at every position, how long the well-formed scalar
//! sequence starting there is. [`utf8_len_prefix`] is the specification of
//! that question, [`is_utf8`] its closure over a whole sequence, and
//! [`utf8_len_at`] the executable answer.

use vstd::prelude::*;

verus! {

/// A UTF-8 continuation byte, `0x80..=0xBF`.
pub open spec fn is_cont(b: u8) -> bool {
    0x80 <= b <= 0xBF
}

/// Length (1..=4) of the well-formed UTF-8 scalar-value sequence at the
/// front of `s`, or 0 if `s` does not begin with one.
///
/// The ranges follow the UTF-8 conformance rules: overlong forms, surrogate
/// codepoints and values above `U+10FFFF` are excluded by the bounds on the
/// first continuation byte.
pub open spec fn utf8_len_prefix(s: Seq<u8>) -> int {
    if s.len() == 0 {
        0
    } else {
        let b0 = s[0];
        if b0 < 0x80 {
            1
        } else if 0xC2 <= b0 <= 0xDF {
            if s.len() >= 2 && is_cont(s[1]) {
                2
            } else {
                0
            }
        } else if b0 == 0xE0 {
            if s.len() >= 3 && 0xA0 <= s[1] <= 0xBF && is_cont(s[2]) {
                3
            } else {
                0
            }
        } else if 0xE1 <= b0 <= 0xEC || b0 == 0xEE || b0 == 0xEF {
            if s.len() >= 3 && is_cont(s[1]) && is_cont(s[2]) {
                3
            } else {
                0
            }
        } else if b0 == 0xED {
            if s.len() >= 3 && 0x80 <= s[1] <= 0x9F && is_cont(s[2]) {
                3
            } else {
                0
            }
        } else if b0 == 0xF0 {
            if s.len() >= 4 && 0x90 <= s[1] <= 0xBF && is_cont(s[2]) && is_cont(s[3]) {
                4
            } else {
                0
            }
        } else if 0xF1 <= b0 <= 0xF3 {
            if s.len() >= 4 && is_cont(s[1]) && is_cont(s[2]) && is_cont(s[3]) {
                4
            } else {
                0
            }
        } else if b0 == 0xF4 {
            if s.len() >= 4 && 0x80 <= s[1] <= 0x8F && is_cont(s[2]) && is_cont(s[3]) {
                4
            } else {
                0
            }
        } else {
            0
        }
    }
}

/// `s` is a well-formed UTF-8 byte sequence: a concatenation of
/// well-formed scalar-value sequences.
pub open spec fn is_utf8(s: Seq<u8>) -> bool
    decreases s.len(),
{
    s.len() == 0 || {
        let k: int = utf8_len_prefix(s);
        k > 0 && is_utf8(s.skip(k))
    }
}

/// `utf8_len_prefix` looks only at the scalar sequence itself: any sequence
/// that agrees with `s` on those `k` bytes begins a scalar sequence of the
/// same length.
pub proof fn lemma_utf8_len_prefix_local(s: Seq<u8>, t: Seq<u8>, k: int)
    requires
        utf8_len_prefix(s) == k,
        k > 0,
        t.len() >= k,
        forall|j: int| 0 <= j < k ==> t[j] == s[j],
    ensures
        utf8_len_prefix(t) == k,
{
    assert(t[0] == s[0]);
    if k >= 2 {
        assert(t[1] == s[1]);
    }
    if k >= 3 {
        assert(t[2] == s[2]);
    }
    if k >= 4 {
        assert(t[3] == s[3]);
    }
}

/// Length of the well-formed UTF-8 scalar sequence starting at byte `i` of
/// `data`, or 0 if the bytes there do not begin one.
pub fn utf8_len_at(data: &[u8], i: usize) -> (k: usize)
    requires
        i < data@.len(),
    ensures
        k as int == utf8_len_prefix(data@.skip(i as int)),
{
    let ghost rest: Seq<u8> = data@.skip(i as int);
    proof {
        assert(rest.len() == data@.len() - i);
    }
    let n: usize = data.len();
    let b0: u8 = data[i];
    assert(rest[0] == b0);
    if b0 < 0x80 {
        return 1;
    }
    if b0 < 0xC2 {
        return 0;
    }
    if b0 <= 0xDF {
        if n - i >= 2 {
            let b1: u8 = data[i + 1];
            assert(rest[1] == b1);
            if b1 >= 0x80 && b1 <= 0xBF {
                return 2;
            }
        }
        return 0;
    }
    if b0 <= 0xEF {
        if n - i >= 3 {
            let b1: u8 = data[i + 1];
            let b2: u8 = data[i + 2];
            assert(rest[1] == b1);
            assert(rest[2] == b2);
            let lo: u8 = if b0 == 0xE0 { 0xA0 } else { 0x80 };
            let hi: u8 = if b0 == 0xED { 0x9F } else { 0xBF };
            if b1 >= lo && b1 <= hi && b2 >= 0x80 && b2 <= 0xBF {
                return 3;
            }
        }
        return 0;
    }
    if b0 <= 0xF4 {
        if n - i >= 4 {
            let b1: u8 = data[i + 1];
            let b2: u8 = data[i + 2];
            let b3: u8 = data[i + 3];
            assert(rest[1] == b1);
            assert(rest[2] == b2);
            assert(rest[3] == b3);
            let lo: u8 = if b0 == 0xF0 { 0x90 } else { 0x80 };
            let hi: u8 = if b0 == 0xF4 { 0x8F } else { 0xBF };
            if b1 >= lo && b1 <= hi && b2 >= 0x80 && b2 <= 0xBF && b3 >= 0x80 && b3 <= 0xBF {
                return 4;
            }
        }
        return 0;
    }
    0
}

} // verus!
