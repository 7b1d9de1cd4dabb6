//! The laws that relate the two transducers.
//!
//! The central one is the round trip: decoding an encoded byte sequence
//! gives the sequence back, for every input. Beside it stand the validity
//! of the forward direction (its output is always well-formed UTF-8), the
//! identity of encoding on well-formed text free of the marker lead byte,
//! and the three local facts of the backward direction: a reserved-band
//! codepoint decodes to the byte it carries, an escaped reserved unit
//! decodes to its own three bytes, and a dangling escape marker is dropped.

use vstd::prelude::*;

use crate::codec::band_byte;
use crate::codec::band_unit;
use crate::codec::decoded;
use crate::codec::decoded_rec;
use crate::codec::encoded;
use crate::codec::escape_marker;
use crate::codec::is_band_tail;
use crate::codec::is_marker_tail;
use crate::codec::spec_need_escape;
use crate::codec::starts_with_unit;
use crate::utf8::is_utf8;
use crate::utf8::lemma_utf8_len_prefix_local;
use crate::utf8::utf8_len_prefix;

verus! {

/// Decoding a reserved-band unit at the front of the input, in the normal
/// state, emits the byte it carries and goes on behind it.
proof fn lemma_decode_band(b: u8, e: Seq<u8>)
    requires
        0x80 <= b,
    ensures
        decoded_rec(band_unit(b) + e, false) == seq![b] + decoded_rec(e, false),
{
    let s = band_unit(b) + e;
    assert(s[0] == 0xEE);
    assert(is_band_tail(s[1], s[2]));
    assert(!is_marker_tail(s[1], s[2]));
    assert(starts_with_unit(s));
    assert(band_byte(s[1], s[2]) == b);
    assert(s.skip(3) =~= e);
    assert(decoded_rec(s, false) == seq![b] + decoded_rec(e, false));
}

/// Decoding an escape marker followed by a reserved unit, in the normal
/// state, emits the unit's three bytes verbatim and goes on behind them.
proof fn lemma_decode_escaped_unit(b1: u8, b2: u8, e: Seq<u8>)
    requires
        spec_need_escape(b1, b2),
    ensures
        decoded_rec(escape_marker() + seq![0xEEu8, b1, b2] + e, false) == seq![0xEEu8, b1, b2]
            + decoded_rec(e, false),
{
    let u = seq![0xEEu8, b1, b2];
    let s = escape_marker() + u + e;
    assert(s[0] == 0xEE && is_marker_tail(s[1], s[2]));
    assert(starts_with_unit(s));
    let s2 = s.skip(3);
    assert(s2 =~= u + e);
    assert(s2[0] == 0xEE && spec_need_escape(s2[1], s2[2]));
    assert(starts_with_unit(s2));
    assert(s2.subrange(0, 3) =~= u);
    assert(s2.skip(3) =~= e);
    assert(decoded_rec(s, false) == decoded_rec(s2, true));
    assert(decoded_rec(s2, true) == u + decoded_rec(e, false));
}

/// Decoding a single byte that does not open a reserved unit, in either
/// state, copies it unchanged and returns to the normal state.
proof fn lemma_decode_plain_byte(s: Seq<u8>, escaped: bool)
    requires
        s.len() >= 1,
        !starts_with_unit(s),
    ensures
        decoded_rec(s, escaped) == seq![s[0]] + decoded_rec(s.skip(1), false),
{
}

/// Decoding a well-formed scalar sequence that is not a reserved unit, in
/// the normal state, copies its bytes unchanged and goes on behind them.
proof fn lemma_decode_plain_char(u: Seq<u8>, e: Seq<u8>)
    requires
        u.len() > 0,
        utf8_len_prefix(u) == u.len(),
        !starts_with_unit(u),
    ensures
        decoded_rec(u + e, false) == u + decoded_rec(e, false),
{
    let s = u + e;
    let k = u.len() as int;
    assert(forall|j: int| 0 <= j < k ==> s[j] == u[j]);
    // The lead byte is 0xEE only for a three-byte sequence, and then the
    // unit test on `s` coincides with the one on `u`.
    assert(!starts_with_unit(s));
    lemma_decode_plain_byte(s, false);
    assert(s.skip(1) =~= u.skip(1) + e);
    if k == 1 {
        assert(u.skip(1) + e =~= e);
        assert(seq![s[0]] + decoded_rec(e, false) =~= u + decoded_rec(e, false));
    } else {
        // Every byte of `u` after the first is a continuation byte,
        // 0x80..=0xBF, so it is not the marker lead byte 0xEE.
        let s1 = u.skip(1) + e;
        assert(s1[0] == u[1] && 0x80 <= u[1] <= 0xBF);
        assert(!starts_with_unit(s1));
        lemma_decode_plain_byte(s1, false);
        assert(s1.skip(1) =~= u.skip(2) + e);
        if k == 2 {
            assert(u.skip(2) + e =~= e);
            assert(decoded_rec(s, false) =~= u + decoded_rec(e, false));
        } else {
            let s2 = u.skip(2) + e;
            assert(s2[0] == u[2] && 0x80 <= u[2] <= 0xBF);
            assert(!starts_with_unit(s2));
            lemma_decode_plain_byte(s2, false);
            assert(s2.skip(1) =~= u.skip(3) + e);
            if k == 3 {
                assert(u.skip(3) + e =~= e);
                assert(decoded_rec(s, false) =~= u + decoded_rec(e, false));
            } else {
                assert(k == 4);
                let s3 = u.skip(3) + e;
                assert(s3[0] == u[3] && 0x80 <= u[3] <= 0xBF);
                assert(!starts_with_unit(s3));
                lemma_decode_plain_byte(s3, false);
                assert(s3.skip(1) =~= e);
                assert(decoded_rec(s, false) =~= u + decoded_rec(e, false));
            }
        }
    }
}

/// Round trip: decoding an encoded byte sequence gives the sequence back,
/// for every byte sequence.
pub proof fn lemma_round_trip(s: Seq<u8>)
    ensures
        decoded(encoded(s)) == s,
    decreases s.len(),
{
    if s.len() == 0 {
        assert(encoded(s) == Seq::<u8>::empty());
        assert(decoded(encoded(s)) =~= s);
    } else {
        let k = utf8_len_prefix(s);
        if k > 0 {
            let u = s.subrange(0, k);
            let e = encoded(s.skip(k));
            lemma_round_trip(s.skip(k));
            if starts_with_unit(s) {
                assert(k == 3);
                assert(u =~= seq![0xEEu8, s[1], s[2]]);
                lemma_decode_escaped_unit(s[1], s[2], e);
                assert(encoded(s) == escape_marker() + u + e);
                assert(decoded(encoded(s)) == u + s.skip(k));
                assert(u + s.skip(k) =~= s);
            } else {
                assert(forall|j: int| 0 <= j < k ==> u[j] == s[j]);
                lemma_utf8_len_prefix_local(s, u, k);
                assert(!starts_with_unit(u));
                lemma_decode_plain_char(u, e);
                assert(encoded(s) == u + e);
                assert(decoded(encoded(s)) == u + s.skip(k));
                assert(u + s.skip(k) =~= s);
            }
        } else {
            let b = s[0];
            assert(0x80 <= b);
            let e = encoded(s.skip(1));
            lemma_round_trip(s.skip(1));
            lemma_decode_band(b, e);
            assert(encoded(s) == band_unit(b) + e);
            assert(decoded(encoded(s)) == seq![b] + s.skip(1));
            assert(seq![b] + s.skip(1) =~= s);
        }
    }
}

/// Validity: the forward transducer emits well-formed UTF-8, for every
/// byte sequence.
pub proof fn lemma_encoded_wellformed(s: Seq<u8>)
    ensures
        is_utf8(encoded(s)),
    decreases s.len(),
{
    if s.len() == 0 {
    } else {
        let k = utf8_len_prefix(s);
        if k > 0 {
            let u = s.subrange(0, k);
            let e = encoded(s.skip(k));
            lemma_encoded_wellformed(s.skip(k));
            assert(forall|j: int| 0 <= j < k ==> u[j] == s[j]);
            lemma_utf8_len_prefix_local(s, u, k);
            if starts_with_unit(s) {
                assert(k == 3);
                let t = encoded(s);
                assert(t =~= escape_marker() + (u + e));
                assert(t.len() >= 3 && t[0] == 0xEE && t[1] == 0xBC && t[2] == 0x80);
                assert(utf8_len_prefix(t) == 3);
                assert(t.skip(3) =~= u + e);
            }
            let t2 = u + e;
            assert(forall|j: int| 0 <= j < k ==> t2[j] == u[j]);
            lemma_utf8_len_prefix_local(u, t2, k);
            assert(t2.skip(k) =~= e);
            assert(is_utf8(t2));
        } else {
            assert(0x80 <= s[0]);
            let e = encoded(s.skip(1));
            lemma_encoded_wellformed(s.skip(1));
            let t = encoded(s);
            assert(t =~= band_unit(s[0]) + e);
            assert(t.len() >= 3 && t[0] == 0xEE && (t[1] == 0xBE || t[1] == 0xBF) && 0x80 <= t[2]
                <= 0xBF);
            assert(utf8_len_prefix(t) == 3);
            assert(t.skip(3) =~= e);
        }
    }
}

/// Identity: on input that is already well-formed text and holds no
/// occurrence of the marker lead byte, the forward transducer changes
/// nothing.
pub proof fn lemma_encode_identity(s: Seq<u8>)
    requires
        is_utf8(s),
        forall|j: int| 0 <= j < s.len() ==> s[j] != 0xEE,
    ensures
        encoded(s) == s,
    decreases s.len(),
{
    if s.len() == 0 {
        assert(encoded(s) =~= s);
    } else {
        let k = utf8_len_prefix(s);
        assert(k > 0);
        assert(!starts_with_unit(s));
        lemma_encode_identity(s.skip(k));
        assert(encoded(s) =~= s.subrange(0, k) + s.skip(k));
        assert(s.subrange(0, k) + s.skip(k) =~= s);
    }
}

/// Byte round trip via the band: the reserved-band codepoint that carries
/// a byte value decodes to exactly that byte, for every value
/// `0x80..=0xFF`.
pub proof fn lemma_band_round_trip(b: u8)
    requires
        0x80 <= b,
    ensures
        decoded(band_unit(b)) == seq![b],
{
    lemma_decode_band(b, Seq::<u8>::empty());
    assert(band_unit(b) + Seq::<u8>::empty() =~= band_unit(b));
    assert(seq![b] + decoded_rec(Seq::<u8>::empty(), false) =~= seq![b]);
}

/// Un-escape: the escape marker followed by any reserved-band or marker
/// codepoint decodes to that codepoint's own three bytes.
pub proof fn lemma_unescape(b1: u8, b2: u8)
    requires
        spec_need_escape(b1, b2),
    ensures
        decoded(escape_marker() + seq![0xEEu8, b1, b2]) == seq![0xEEu8, b1, b2],
{
    let u = seq![0xEEu8, b1, b2];
    lemma_decode_escaped_unit(b1, b2, Seq::<u8>::empty());
    assert(escape_marker() + u + Seq::<u8>::empty() =~= escape_marker() + u);
    assert(u + decoded_rec(Seq::<u8>::empty(), false) =~= u);
}

/// Dangling marker drop: an escape marker not followed by a reserved-band
/// or marker codepoint contributes nothing to the decoded bytes. This
/// covers a marker before ordinary text and a marker at the end of the
/// input.
pub proof fn lemma_dangling_marker(t: Seq<u8>)
    requires
        !starts_with_unit(t),
    ensures
        decoded(escape_marker() + t) == decoded(t),
{
    let s = escape_marker() + t;
    assert(s[0] == 0xEE && is_marker_tail(s[1], s[2]));
    assert(starts_with_unit(s));
    assert(s.skip(3) =~= t);
    assert(decoded_rec(s, false) == decoded_rec(t, true));
    if t.len() == 0 {
    } else {
        lemma_decode_plain_byte(t, true);
        lemma_decode_plain_byte(t, false);
    }
}

} // verus!
