//! The two transducers and their shared model.
//!
//! Text values are handled as their UTF-8 byte sequences. A byte `b` in
//! `0x80..=0xFF` that cannot be read as part of well-formed text is carried
//! by the reserved-band codepoint `U+EF80 + (b - 0x80)`, whose three UTF-8
//! bytes are `band_unit(b)`. A reserved-band codepoint or the escape marker
//! `U+EF00` that occurs naturally in well-formed input is prefixed with the
//! escape marker's three bytes, `escape_marker()`, so that the two cases
//! stay distinguishable.
//!
//! `encoded` and `decoded` are the specifications of the two directions;
//! [`bytes_to_str`] and [`str_to_bytes`] compute them.

use vstd::prelude::*;

use crate::utf8::is_utf8;
use crate::utf8::utf8_len_at;
use crate::utf8::utf8_len_prefix;

verus! {

/// The three UTF-8 bytes of the escape marker codepoint `U+EF00`.
pub open spec fn escape_marker() -> Seq<u8> {
    seq![0xEEu8, 0xBCu8, 0x80u8]
}

/// The last two UTF-8 bytes of the escape marker codepoint.
pub open spec fn is_marker_tail(b1: u8, b2: u8) -> bool {
    b1 == 0xBC && b2 == 0x80
}

/// The last two UTF-8 bytes of a reserved-band codepoint,
/// `U+EF80..=U+EFFF`.
pub open spec fn is_band_tail(b1: u8, b2: u8) -> bool {
    (b1 == 0xBE || b1 == 0xBF) && 0x80 <= b2 <= 0xBF
}

/// The reserved-sequence predicate: the two bytes following a marker lead
/// byte `0xEE` complete the escape marker or a reserved-band codepoint.
pub open spec fn spec_need_escape(b1: u8, b2: u8) -> bool {
    is_marker_tail(b1, b2) || is_band_tail(b1, b2)
}

/// The three UTF-8 bytes of the reserved-band codepoint
/// `U+EF80 + (b - 0x80)` that carries the byte `b`.
pub open spec fn band_unit(b: u8) -> Seq<u8>
    recommends
        0x80 <= b,
{
    if b < 0xC0 {
        seq![0xEEu8, 0xBEu8, b]
    } else {
        seq![0xEEu8, 0xBFu8, (b - 0x40) as u8]
    }
}

/// The byte carried by the reserved-band codepoint whose last two UTF-8
/// bytes are `b1`, `b2`; the inverse of `band_unit`.
pub open spec fn band_byte(b1: u8, b2: u8) -> u8
    recommends
        is_band_tail(b1, b2),
{
    if b1 == 0xBE {
        b2
    } else {
        (b2 + 0x40) as u8
    }
}

/// `s` begins with a three-byte unit that both transducers treat
/// specially: the escape marker or a reserved-band codepoint.
pub open spec fn starts_with_unit(s: Seq<u8>) -> bool {
    s.len() >= 3 && s[0] == 0xEE && spec_need_escape(s[1], s[2])
}

/// The forward transducer: each maximal well-formed scalar sequence is
/// passed through (prefixed with the escape marker where it would collide
/// with the marker or the reserved band), and each byte that no well-formed
/// sequence starts at is carried by its reserved-band codepoint.
pub open spec fn encoded(s: Seq<u8>) -> Seq<u8>
    decreases s.len(),
{
    if s.len() == 0 {
        Seq::empty()
    } else {
        let k: int = utf8_len_prefix(s);
        if k > 0 {
            let u = s.subrange(0, k);
            if starts_with_unit(s) {
                escape_marker() + u + encoded(s.skip(k))
            } else {
                u + encoded(s.skip(k))
            }
        } else {
            band_unit(s[0]) + encoded(s.skip(1))
        }
    }
}

/// The backward transducer as a two-state machine over the remaining
/// input: in the escaped state a reserved unit is copied verbatim; in the
/// normal state the escape marker switches state and emits nothing, a
/// reserved-band unit emits the byte it carries, and every other byte is
/// copied unchanged. An escape marker not followed by a reserved unit is
/// dropped.
pub open spec fn decoded_rec(s: Seq<u8>, escaped: bool) -> Seq<u8>
    decreases s.len(),
{
    if s.len() == 0 {
        Seq::empty()
    } else if starts_with_unit(s) {
        if escaped {
            s.subrange(0, 3) + decoded_rec(s.skip(3), false)
        } else if is_marker_tail(s[1], s[2]) {
            decoded_rec(s.skip(3), true)
        } else {
            seq![band_byte(s[1], s[2])] + decoded_rec(s.skip(3), false)
        }
    } else {
        seq![s[0]] + decoded_rec(s.skip(1), false)
    }
}

/// The backward transducer, started in the normal state.
pub open spec fn decoded(s: Seq<u8>) -> Seq<u8> {
    decoded_rec(s, false)
}

/// The reserved-sequence predicate: do the two bytes following a marker
/// lead byte `0xEE` complete the escape marker codepoint `U+EF00` or a
/// reserved-band codepoint `U+EF80..=U+EFFF`?
pub fn need_escape(b1: u8, b2: u8) -> (r: bool)
    ensures
        r == spec_need_escape(b1, b2),
{
    (b1 == 0xBC && b2 == 0x80) || ((b1 == 0xBE || b1 == 0xBF) && b2 >= 0x80 && b2 <= 0xBF)
}

/// The backward transducer: turns text (given as its UTF-8 bytes) back
/// into the byte sequence it represents. Unescaped reserved-band
/// codepoints become the byte they carry, escaped reserved units are
/// copied verbatim without their escape marker, a dangling escape marker
/// is dropped, and everything else is copied unchanged. Total: no input is
/// rejected.
pub fn str_to_bytes(data: &[u8]) -> (r: Vec<u8>)
    ensures
        r@ == decoded(data@),
{
    let n: usize = data.len();
    let mut result: Vec<u8> = Vec::new();
    let mut escaped: bool = false;
    let mut i: usize = 0;
    proof {
        assert(data@.skip(0) =~= data@);
        assert(result@ + decoded_rec(data@, false) =~= decoded_rec(data@, false));
    }
    while i < n
        invariant
            i <= n,
            n == data@.len(),
            decoded(data@) == result@ + decoded_rec(data@.skip(i as int), escaped),
        decreases n - i,
    {
        let ghost rest: Seq<u8> = data@.skip(i as int);
        proof {
            assert(rest.len() == n - i);
            assert(rest[0] == data@[i as int]);
            if rest.len() >= 3 {
                assert(rest[1] == data@[i + 1]);
                assert(rest[2] == data@[i + 2]);
            }
        }
        let ghost base: Seq<u8> = result@;
        let ghost was_escaped: bool = escaped;
        if data[i] == 0xEE && n - i >= 3 && need_escape(data[i + 1], data[i + 2]) {
            assert(starts_with_unit(rest));
            let b1: u8 = data[i + 1];
            let b2: u8 = data[i + 2];
            if escaped {
                result.push(0xEE);
                result.push(b1);
                result.push(b2);
                escaped = false;
                proof {
                    assert(result@ =~= base + rest.subrange(0, 3));
                    assert(decoded_rec(rest, was_escaped) == rest.subrange(0, 3) + decoded_rec(
                        rest.skip(3),
                        false,
                    ));
                }
            } else if b1 == 0xBC {
                escaped = true;
                proof {
                    assert(decoded_rec(rest, was_escaped) == decoded_rec(rest.skip(3), true));
                }
            } else {
                let v: u8 = if b1 == 0xBE {
                    b2
                } else {
                    b2 + 0x40
                };
                result.push(v);
                proof {
                    assert(result@ =~= base + seq![band_byte(b1, b2)]);
                    assert(decoded_rec(rest, was_escaped) == seq![band_byte(b1, b2)]
                        + decoded_rec(rest.skip(3), false));
                }
            }
            i = i + 3;
            proof {
                assert(data@.skip(i as int) =~= rest.skip(3));
                assert(result@ + decoded_rec(rest.skip(3), escaped) =~= base + decoded_rec(
                    rest,
                    was_escaped,
                ));
            }
        } else {
            assert(!starts_with_unit(rest));
            result.push(data[i]);
            escaped = false;
            i = i + 1;
            proof {
                assert(decoded_rec(rest, was_escaped) == seq![rest[0]] + decoded_rec(
                    rest.skip(1),
                    false,
                ));
                assert(data@.skip(i as int) =~= rest.skip(1));
                assert(result@ =~= base + seq![rest[0]]);
                assert(result@ + decoded_rec(rest.skip(1), false) =~= base + decoded_rec(
                    rest,
                    was_escaped,
                ));
            }
        }
    }
    proof {
        assert(data@.skip(n as int) =~= Seq::<u8>::empty());
        assert(result@ + decoded_rec(Seq::<u8>::empty(), escaped) =~= result@);
    }
    result
}

/// The forward transducer: turns an arbitrary byte sequence into
/// well-formed text, given as its UTF-8 bytes. Maximal well-formed runs
/// pass through, with an escape marker inserted before every naturally
/// occurring reserved-band or marker codepoint; every other byte is
/// carried by its reserved-band codepoint. Total: no input is rejected.
pub fn bytes_to_str(data: &[u8]) -> (r: Vec<u8>)
    ensures
        r@ == encoded(data@),
        is_utf8(r@),
{
    proof {
        crate::laws::lemma_encoded_wellformed(data@);
    }
    let n: usize = data.len();
    let mut result: Vec<u8> = Vec::new();
    let mut i: usize = 0;
    proof {
        assert(data@.skip(0) =~= data@);
        assert(result@ + encoded(data@) =~= encoded(data@));
    }
    while i < n
        invariant
            i <= n,
            n == data@.len(),
            encoded(data@) == result@ + encoded(data@.skip(i as int)),
        decreases n - i,
    {
        let ghost rest: Seq<u8> = data@.skip(i as int);
        proof {
            assert(rest.len() == n - i);
            assert(rest[0] == data@[i as int]);
        }
        let ghost base: Seq<u8> = result@;
        let k: usize = utf8_len_at(data, i);
        if k > 0 {
            proof {
                assert(rest.len() >= k);
                assert(forall|j: int| 0 <= j < k ==> rest[j] == data@[i + j]);
            }
            if data[i] == 0xEE && need_escape(data[i + 1], data[i + 2]) {
                assert(k == 3);
                assert(starts_with_unit(rest));
                result.push(0xEE);
                result.push(0xBC);
                result.push(0x80);
            } else {
                assert(!starts_with_unit(rest));
            }
            let ghost mid: Seq<u8> = result@;
            let mut j: usize = 0;
            while j < k
                invariant
                    j <= k,
                    k as int == utf8_len_prefix(rest),
                    i + k <= n,
                    n == data@.len(),
                    rest == data@.skip(i as int),
                    result@ == mid + rest.subrange(0, j as int),
                decreases k - j,
            {
                result.push(data[i + j]);
                j = j + 1;
                proof {
                    assert(result@ =~= mid + rest.subrange(0, j as int));
                }
            }
            i = i + k;
            proof {
                assert(data@.skip(i as int) =~= rest.skip(k as int));
                if starts_with_unit(rest) {
                    assert(encoded(rest) == escape_marker() + rest.subrange(0, k as int) + encoded(
                        rest.skip(k as int),
                    ));
                    assert(mid =~= base + escape_marker());
                } else {
                    assert(encoded(rest) == rest.subrange(0, k as int) + encoded(
                        rest.skip(k as int),
                    ));
                    assert(mid == base);
                }
                assert(result@ + encoded(rest.skip(k as int)) =~= base + encoded(rest));
            }
        } else {
            let b: u8 = data[i];
            assert(b >= 0x80);
            result.push(0xEE);
            if b < 0xC0 {
                result.push(0xBE);
                result.push(b);
            } else {
                result.push(0xBF);
                result.push(b - 0x40);
            }
            i = i + 1;
            proof {
                assert(result@ =~= base + band_unit(b));
                assert(data@.skip(i as int) =~= rest.skip(1));
                assert(encoded(rest) == band_unit(rest[0]) + encoded(rest.skip(1)));
                assert(result@ + encoded(rest.skip(1)) =~= base + encoded(rest));
            }
        }
    }
    proof {
        assert(data@.skip(n as int) =~= Seq::<u8>::empty());
        assert(result@ + encoded(Seq::<u8>::empty()) =~= result@);
    }
    result
}

} // verus!
