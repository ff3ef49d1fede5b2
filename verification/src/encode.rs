//! Percent-encoding of stream paths and URL components.
//!
//! All encoders work on bytes: a path or component comes in as UTF-8 bytes
//! and leaves as ASCII bytes. Unreserved bytes (letters, digits, `-_.~`)
//! pass through; everything else — a space included — becomes a `%XX`
//! escape, except that the path encoder keeps `/` as the segment
//! separator. Escaping the space as `%20` is what lets a served URL
//! resolve back to the file it names.

use vstd::prelude::*;

verus! {

/// ASCII `%`.
pub const PERCENT: u8 = 0x25;

/// ASCII `/`.
pub const SLASH: u8 = 0x2F;

/// ASCII space.
pub const SPACE: u8 = 0x20;

/// ASCII `0`.
pub const DIGIT_0: u8 = 0x30;

/// ASCII `9`.
pub const DIGIT_9: u8 = 0x39;

/// ASCII `A`.
pub const UPPER_A: u8 = 0x41;

/// ASCII `F`.
pub const UPPER_F: u8 = 0x46;

/// ASCII `Z`.
pub const UPPER_Z: u8 = 0x5A;

/// ASCII `a`.
pub const LOWER_A: u8 = 0x61;

/// ASCII `z`.
pub const LOWER_Z: u8 = 0x7A;

/// ASCII `-`.
pub const HYPHEN: u8 = 0x2D;

/// ASCII `_`.
pub const UNDERSCORE: u8 = 0x5F;

/// ASCII `.`.
pub const DOT: u8 = 0x2E;

/// ASCII `~`.
pub const TILDE: u8 = 0x7E;

/// Bytes that every encoder passes through unchanged.
pub open spec fn is_unreserved(b: u8) -> bool {
    (UPPER_A <= b && b <= UPPER_Z) || (LOWER_A <= b && b <= LOWER_Z) || (DIGIT_0 <= b && b
        <= DIGIT_9) || b == HYPHEN || b == UNDERSCORE || b == DOT || b == TILDE
}

/// The ASCII code of the upper-case hexadecimal digit for a value below 16.
pub open spec fn hex_upper(n: u8) -> u8
    recommends
        n < 16,
{
    if n < 10 {
        (DIGIT_0 + n) as u8
    } else {
        (UPPER_A + (n - 10)) as u8
    }
}

/// A byte that can appear after `%` in an escape written by these encoders.
pub open spec fn is_hex_upper(c: u8) -> bool {
    (DIGIT_0 <= c && c <= DIGIT_9) || (UPPER_A <= c && c <= UPPER_F)
}

/// The value of an upper-case hexadecimal digit.
pub open spec fn hex_val(c: u8) -> u8
    recommends
        is_hex_upper(c),
{
    if DIGIT_0 <= c && c <= DIGIT_9 {
        (c - DIGIT_0) as u8
    } else {
        ((c - UPPER_A) + 10) as u8
    }
}

/// The `%XX` escape of one byte.
pub open spec fn enc_byte(b: u8) -> Seq<u8> {
    seq![PERCENT, hex_upper(b / 16), hex_upper(b % 16)]
}

/// What the path encoder writes for one byte: `/` and unreserved bytes
/// stay, every other byte is escaped.
pub open spec fn path_enc_byte(b: u8) -> Seq<u8> {
    if b == SLASH || is_unreserved(b) {
        seq![b]
    } else {
        enc_byte(b)
    }
}

/// What the query encoder writes for one byte: unreserved bytes stay,
/// every other byte is escaped.
pub open spec fn query_enc_byte(b: u8) -> Seq<u8> {
    if is_unreserved(b) {
        seq![b]
    } else {
        enc_byte(b)
    }
}

/// An encoding as the concatenation of a per-byte expansion.
pub open spec fn encode_bytes(s: Seq<u8>, f: spec_fn(u8) -> Seq<u8>) -> Seq<u8>
    decreases s.len(),
{
    if s.len() == 0 {
        Seq::empty()
    } else {
        f(s[0]) + encode_bytes(s.drop_first(), f)
    }
}

/// Path encoding of a byte string.
pub open spec fn encode_path_spec(s: Seq<u8>) -> Seq<u8> {
    encode_bytes(s, |b: u8| path_enc_byte(b))
}

/// Query encoding of a byte string.
pub open spec fn query_encode_spec(s: Seq<u8>) -> Seq<u8> {
    encode_bytes(s, |b: u8| query_enc_byte(b))
}

/// A per-byte encoding distributes over concatenation.
pub proof fn lemma_encode_bytes_app(s: Seq<u8>, t: Seq<u8>, f: spec_fn(u8) -> Seq<u8>)
    ensures
        encode_bytes(s + t, f) == encode_bytes(s, f) + encode_bytes(t, f),
    decreases s.len(),
{
    if s.len() == 0 {
        assert(s + t =~= t);
        assert(encode_bytes(s, f) + encode_bytes(t, f) =~= encode_bytes(t, f));
    } else {
        assert((s + t).drop_first() =~= s.drop_first() + t);
        lemma_encode_bytes_app(s.drop_first(), t, f);
        assert(encode_bytes(s + t, f) =~= encode_bytes(s, f) + encode_bytes(t, f));
    }
}

/// Whether a byte passes every encoder unchanged.
pub fn is_unreserved_byte(b: u8) -> (r: bool)
    ensures
        r == is_unreserved(b),
{
    (UPPER_A <= b && b <= UPPER_Z) || (LOWER_A <= b && b <= LOWER_Z) || (DIGIT_0 <= b && b
        <= DIGIT_9) || b == HYPHEN || b == UNDERSCORE || b == DOT || b == TILDE
}

/// The upper-case hexadecimal digit of a value below 16.
pub fn hex_upper_digit(n: u8) -> (r: u8)
    requires
        n < 16,
    ensures
        r == hex_upper(n),
{
    if n < 10 {
        DIGIT_0 + n
    } else {
        UPPER_A + (n - 10)
    }
}

/// Percent-encode a relative file path: each segment is escaped byte by
/// byte while `/` separators are kept, so the result still names the same
/// path below a server root.
pub fn percent_encode_path(path: &[u8]) -> (r: Vec<u8>)
    ensures
        r@ == encode_path_spec(path@),
{
    let mut out: Vec<u8> = Vec::new();
    let mut i: usize = 0;
    while i < path.len()
        invariant
            i <= path@.len(),
            out@ == encode_path_spec(path@.take(i as int)),
        decreases path@.len() - i,
    {
        let b = path[i];
        if b == SLASH || is_unreserved_byte(b) {
            out.push(b);
        } else {
            out.push(PERCENT);
            out.push(hex_upper_digit(b / 16));
            out.push(hex_upper_digit(b % 16));
        }
        proof {
            let f = |x: u8| path_enc_byte(x);
            lemma_encode_bytes_app(path@.take(i as int), seq![path@[i as int]], f);
            assert(path@.take(i as int) + seq![path@[i as int]] =~= path@.take(i + 1 as int));
            assert(encode_bytes(seq![path@[i as int]].drop_first(), f) =~= Seq::<u8>::empty());
            assert(out@ =~= encode_path_spec(path@.take(i + 1 as int)));
        }
        i = i + 1;
    }
    proof {
        assert(path@.take(path@.len() as int) =~= path@);
    }
    out
}

/// Encode one URL component: unreserved bytes stay, everything else — a
/// space included — is escaped.
pub fn urlencoding_simple(s: &[u8]) -> (r: Vec<u8>)
    ensures
        r@ == query_encode_spec(s@),
{
    let mut out: Vec<u8> = Vec::new();
    let mut i: usize = 0;
    while i < s.len()
        invariant
            i <= s@.len(),
            out@ == query_encode_spec(s@.take(i as int)),
        decreases s@.len() - i,
    {
        let b = s[i];
        if is_unreserved_byte(b) {
            out.push(b);
        } else {
            out.push(PERCENT);
            out.push(hex_upper_digit(b / 16));
            out.push(hex_upper_digit(b % 16));
        }
        proof {
            let f = |x: u8| query_enc_byte(x);
            lemma_encode_bytes_app(s@.take(i as int), seq![s@[i as int]], f);
            assert(s@.take(i as int) + seq![s@[i as int]] =~= s@.take(i + 1 as int));
            assert(encode_bytes(seq![s@[i as int]].drop_first(), f) =~= Seq::<u8>::empty());
            assert(out@ =~= query_encode_spec(s@.take(i + 1 as int)));
        }
        i = i + 1;
    }
    proof {
        assert(s@.take(s@.len() as int) =~= s@);
    }
    out
}

/// Decoding of a path encoding: an escape turns back into its byte, every
/// other byte stays; `None` on a malformed escape.
pub open spec fn decode_path_spec(s: Seq<u8>) -> Option<Seq<u8>>
    decreases s.len(),
{
    if s.len() == 0 {
        Some(Seq::empty())
    } else if s[0] == PERCENT {
        if s.len() >= 3 && is_hex_upper(s[1]) && is_hex_upper(s[2]) {
            match decode_path_spec(s.skip(3)) {
                Some(rest) => Some(seq![(hex_val(s[1]) * 16 + hex_val(s[2])) as u8] + rest),
                None => None,
            }
        } else {
            None
        }
    } else {
        match decode_path_spec(s.drop_first()) {
            Some(rest) => Some(seq![s[0]] + rest),
            None => None,
        }
    }
}

/// An upper-case hexadecimal digit carries its value.
pub proof fn lemma_hex_roundtrip(n: u8)
    requires
        n < 16,
    ensures
        is_hex_upper(hex_upper(n)),
        hex_val(hex_upper(n)) == n,
{
}

/// Decoding undoes path encoding: the encoded form of any byte string
/// decodes back to exactly that byte string, so a served file keeps its
/// name through the encoder.
pub proof fn lemma_encode_path_roundtrip(s: Seq<u8>)
    ensures
        decode_path_spec(encode_path_spec(s)) == Some(s),
    decreases s.len(),
{
    let f = |x: u8| path_enc_byte(x);
    if s.len() == 0 {
    } else {
        let b = s[0];
        let rest = s.drop_first();
        lemma_encode_path_roundtrip(rest);
        let e = encode_path_spec(s);
        assert(e == f(b) + encode_bytes(rest, f));
        if b == SLASH || is_unreserved(b) {
            assert(b != PERCENT);
            assert(e[0] == b);
            assert(e.drop_first() =~= encode_path_spec(rest));
            assert(seq![b] + rest =~= s);
        } else {
            lemma_hex_roundtrip(b / 16);
            lemma_hex_roundtrip(b % 16);
            assert(e[0] == PERCENT);
            assert(e.len() >= 3);
            assert(e[1] == hex_upper(b / 16));
            assert(e[2] == hex_upper(b % 16));
            assert(e.skip(3) =~= encode_path_spec(rest));
            assert((hex_val(e[1]) * 16 + hex_val(e[2])) as u8 == b);
            assert(seq![b] + rest =~= s);
        }
    }
}

/// Every byte a path encoding writes is unreserved, the separator `/`, or
/// the escape mark `%`: a space, a `#`, or a non-ASCII byte never survives
/// unescaped, and `/` is the only separator kept.
pub proof fn lemma_encode_path_output_bytes(s: Seq<u8>, i: int)
    requires
        0 <= i < encode_path_spec(s).len(),
    ensures
        is_unreserved(encode_path_spec(s)[i]) || encode_path_spec(s)[i] == SLASH
            || encode_path_spec(s)[i] == PERCENT,
    decreases s.len(),
{
    let f = |x: u8| path_enc_byte(x);
    if s.len() == 0 {
    } else {
        let b = s[0];
        let head = f(b);
        assert(encode_path_spec(s) == head + encode_bytes(s.drop_first(), f));
        if i < head.len() {
            if !(b == SLASH || is_unreserved(b)) {
                assert(head == enc_byte(b));
                assert(is_hex_upper(hex_upper(b / 16))) by {
                    lemma_hex_roundtrip(b / 16);
                }
                assert(is_hex_upper(hex_upper(b % 16))) by {
                    lemma_hex_roundtrip(b % 16);
                }
            }
        } else {
            lemma_encode_path_output_bytes(s.drop_first(), i - head.len());
        }
    }
}

} // verus!
