//! Content encodings: base64 for encoded-word headers, quoted-printable for
//! body re-encoding, both with proved decode round trips.
use vstd::prelude::*;
use vstd::string::StringSliceAdditionalSpecFns;

verus! {

/// The base64 alphabet, as a byte per six-bit value.
pub open spec fn sextet_char(v: int) -> u8 {
    if v < 26 {
        (65 + v) as u8  // 'A'..'Z'
    } else if v < 52 {
        (97 + v - 26) as u8  // 'a'..'z'
    } else if v < 62 {
        (48 + v - 52) as u8  // '0'..'9'
    } else if v == 62 {
        43  // '+'
    } else {
        47  // '/'
    }
}

/// The six-bit value of a base64 alphabet byte, or -1.
pub open spec fn sextet_val(c: u8) -> int {
    if 65 <= c <= 90 {
        c - 65
    } else if 97 <= c <= 122 {
        c - 97 + 26
    } else if 48 <= c <= 57 {
        c - 48 + 52
    } else if c == 43 {
        62
    } else if c == 47 {
        63
    } else {
        -1
    }
}

/// Base64 encoding: three input bytes become four alphabet bytes; a final
/// group of one or two bytes is padded with `=`.
pub open spec fn b64_encode(s: Seq<u8>) -> Seq<u8>
    decreases s.len(),
{
    if s.len() == 0 {
        Seq::empty()
    } else if s.len() == 1 {
        seq![
            sextet_char(s[0] as int / 4),
            sextet_char((s[0] as int % 4) * 16),
            61,
            61,
        ]
    } else if s.len() == 2 {
        seq![
            sextet_char(s[0] as int / 4),
            sextet_char((s[0] as int % 4) * 16 + s[1] as int / 16),
            sextet_char((s[1] as int % 16) * 4),
            61,
        ]
    } else {
        seq![
            sextet_char(s[0] as int / 4),
            sextet_char((s[0] as int % 4) * 16 + s[1] as int / 16),
            sextet_char((s[1] as int % 16) * 4 + s[2] as int / 64),
            sextet_char(s[2] as int % 64),
        ] + b64_encode(s.skip(3))
    }
}

/// Base64 decoding of well-formed groups of four; anything malformed decodes
/// to the empty sequence.
pub open spec fn b64_decode(s: Seq<u8>) -> Seq<u8>
    decreases s.len(),
{
    if s.len() < 4 {
        Seq::empty()
    } else {
        let v0 = sextet_val(s[0]);
        let v1 = sextet_val(s[1]);
        if v0 < 0 || v1 < 0 {
            Seq::empty()
        } else if s[2] == 61 {
            seq![(v0 * 4 + v1 / 16) as u8]
        } else {
            let v2 = sextet_val(s[2]);
            if v2 < 0 {
                Seq::empty()
            } else if s[3] == 61 {
                seq![(v0 * 4 + v1 / 16) as u8, ((v1 % 16) * 16 + v2 / 4) as u8]
            } else {
                let v3 = sextet_val(s[3]);
                if v3 < 0 {
                    Seq::empty()
                } else {
                    seq![
                        (v0 * 4 + v1 / 16) as u8,
                        ((v1 % 16) * 16 + v2 / 4) as u8,
                        ((v2 % 4) * 64 + v3) as u8,
                    ] + b64_decode(s.skip(4))
                }
            }
        }
    }
}

/// The alphabet and its value function are mutual inverses.
proof fn lemma_sextet_inverse(v: int)
    requires
        0 <= v < 64,
    ensures
        sextet_val(sextet_char(v)) == v,
        sextet_char(v) != 61,
{
}

/// Base64 decode undoes base64 encode.
pub proof fn lemma_b64_round_trip(s: Seq<u8>)
    ensures
        b64_decode(b64_encode(s)) == s,
    decreases s.len(),
{
    if s.len() == 0 {
        assert(b64_encode(s) =~= Seq::<u8>::empty());
        assert(s =~= Seq::<u8>::empty());
    } else if s.len() == 1 {
        let b0 = s[0] as int;
        lemma_sextet_inverse(b0 / 4);
        lemma_sextet_inverse((b0 % 4) * 16);
        assert(((b0 % 4) * 16) < 64);
        assert((b0 / 4) * 4 + ((b0 % 4) * 16) / 16 == b0) by (nonlinear_arith)
            requires
                0 <= b0 < 256,
        ;
        assert(seq![(((b0 / 4) * 4 + ((b0 % 4) * 16) / 16)) as u8] =~= s);
    } else if s.len() == 2 {
        let b0 = s[0] as int;
        let b1 = s[1] as int;
        let v0 = b0 / 4;
        let v1 = (b0 % 4) * 16 + b1 / 16;
        let v2 = (b1 % 16) * 4;
        lemma_sextet_inverse(v0);
        lemma_sextet_inverse(v1);
        lemma_sextet_inverse(v2);
        assert(v0 * 4 + v1 / 16 == b0 && (v1 % 16) * 16 + v2 / 4 == b1) by (nonlinear_arith)
            requires
                v0 == b0 / 4,
                v1 == (b0 % 4) * 16 + b1 / 16,
                v2 == (b1 % 16) * 4,
                0 <= b0 < 256,
                0 <= b1 < 256,
        ;
        assert(seq![(v0 * 4 + v1 / 16) as u8, ((v1 % 16) * 16 + v2 / 4) as u8] =~= s);
    } else {
        let b0 = s[0] as int;
        let b1 = s[1] as int;
        let b2 = s[2] as int;
        let v0 = b0 / 4;
        let v1 = (b0 % 4) * 16 + b1 / 16;
        let v2 = (b1 % 16) * 4 + b2 / 64;
        let v3 = b2 % 64;
        lemma_sextet_inverse(v0);
        lemma_sextet_inverse(v1);
        lemma_sextet_inverse(v2);
        lemma_sextet_inverse(v3);
        lemma_b64_round_trip(s.skip(3));
        let e = b64_encode(s);
        let head = seq![sextet_char(v0), sextet_char(v1), sextet_char(v2), sextet_char(v3)];
        assert(e == head + b64_encode(s.skip(3)));
        assert(e[0] == sextet_char(v0) && e[1] == sextet_char(v1) && e[2] == sextet_char(v2)
            && e[3] == sextet_char(v3));
        assert(v0 * 4 + v1 / 16 == b0 && (v1 % 16) * 16 + v2 / 4 == b1 && (v2 % 4) * 64 + v3
            == b2) by (nonlinear_arith)
            requires
                v0 == b0 / 4,
                v1 == (b0 % 4) * 16 + b1 / 16,
                v2 == (b1 % 16) * 4 + b2 / 64,
                v3 == b2 % 64,
                0 <= b0 < 256,
                0 <= b1 < 256,
                0 <= b2 < 256,
        ;
        assert(e.skip(4) =~= b64_encode(s.skip(3)));
        assert(seq![b0 as u8, b1 as u8, b2 as u8] + s.skip(3) =~= s);
    }
}

/// Every byte of a base64 encoding is printable ASCII, and never `?`.
pub proof fn lemma_b64_ascii(s: Seq<u8>)
    ensures
        forall|i: int|
            0 <= i < b64_encode(s).len() ==> (42 < #[trigger] b64_encode(s)[i] < 0x80
                && b64_encode(s)[i] != 63),
    decreases s.len(),
{
    if s.len() == 0 {
    } else if s.len() <= 2 {
        assert forall|i: int| 0 <= i < b64_encode(s).len() implies (42 < #[trigger] b64_encode(
            s,
        )[i] < 0x80 && b64_encode(s)[i] != 63) by {
            assert(b64_encode(s).len() == 4);
        }
    } else {
        lemma_b64_ascii(s.skip(3));
        assert forall|i: int| 0 <= i < b64_encode(s).len() implies (42 < #[trigger] b64_encode(
            s,
        )[i] < 0x80 && b64_encode(s)[i] != 63) by {
            if i >= 4 {
                assert(b64_encode(s)[i] == b64_encode(s.skip(3))[i - 4]);
            }
        }
    }
}

/// The base64 alphabet byte for a six-bit value, executable form.
fn sextet_byte(v: u8) -> (r: u8)
    requires
        v < 64,
    ensures
        r == sextet_char(v as int),
{
    if v < 26 {
        65 + v
    } else if v < 52 {
        97 + v - 26
    } else if v < 62 {
        48 + v - 52
    } else if v == 62 {
        43
    } else {
        47
    }
}

/// Base64-encodes a byte slice.
pub fn base64_encode(data: &[u8]) -> (r: Vec<u8>)
    ensures
        r@ == b64_encode(data@),
{
    let n = data.len();
    let mut out: Vec<u8> = Vec::new();
    let mut i: usize = 0;
    proof {
        assert(data@.skip(0) =~= data@);
    }
    while i < n
        invariant
            i <= n == data@.len(),
            b64_encode(data@) == out@ + b64_encode(data@.skip(i as int)),
        decreases n - i,
    {
        let ghost rest = data@.skip(i as int);
        let b0 = data[i];
        if i + 1 == n {
            out.push(sextet_byte(b0 / 4));
            out.push(sextet_byte((b0 % 4) * 16));
            out.push(61);
            out.push(61);
            proof {
                assert(rest.len() == 1 && rest[0] == b0);
            }
            i = i + 1;
        } else if i + 2 == n {
            let b1 = data[i + 1];
            out.push(sextet_byte(b0 / 4));
            out.push(sextet_byte((b0 % 4) * 16 + b1 / 16));
            out.push(sextet_byte((b1 % 16) * 4));
            out.push(61);
            proof {
                assert(rest.len() == 2 && rest[0] == b0 && rest[1] == b1);
            }
            i = i + 2;
        } else {
            let b1 = data[i + 1];
            let b2 = data[i + 2];
            out.push(sextet_byte(b0 / 4));
            out.push(sextet_byte((b0 % 4) * 16 + b1 / 16));
            out.push(sextet_byte((b1 % 16) * 4 + b2 / 64));
            out.push(sextet_byte(b2 % 64));
            proof {
                assert(rest.len() >= 3 && rest[0] == b0 && rest[1] == b1 && rest[2] == b2);
                assert(rest.skip(3) =~= data@.skip(i as int + 3));
            }
            i = i + 3;
        }
    }
    proof {
        assert(b64_encode(data@.skip(n as int)) =~= Seq::<u8>::empty());
        assert(out@ =~= out@ + b64_encode(data@.skip(n as int)));
    }
    out
}

/// A byte that quoted-printable may carry literally: printable ASCII except
/// the escape character `=`.
pub open spec fn qp_literal(b: u8) -> bool {
    33 <= b <= 126 && b != 61
}

/// An uppercase hexadecimal digit byte.
pub open spec fn hex_char(v: int) -> u8 {
    if v < 10 {
        (48 + v) as u8
    } else {
        (65 + v - 10) as u8
    }
}

/// The value of a hexadecimal digit byte, or -1. Only the uppercase letters
/// this crate emits are recognized.
pub open spec fn hex_val(c: u8) -> int {
    if 48 <= c <= 57 {
        c - 48
    } else if 65 <= c <= 70 {
        c - 65 + 10
    } else {
        -1
    }
}

/// Quoted-printable encoding: literal bytes pass through, every other byte
/// becomes `=` and two uppercase hex digits.
pub open spec fn qp_encode(s: Seq<u8>) -> Seq<u8>
    decreases s.len(),
{
    if s.len() == 0 {
        Seq::empty()
    } else if qp_literal(s[0]) {
        seq![s[0]] + qp_encode(s.drop_first())
    } else {
        seq![61, hex_char(s[0] as int / 16), hex_char(s[0] as int % 16)] + qp_encode(
            s.drop_first(),
        )
    }
}

/// Quoted-printable decoding: `=` followed by two hex digits yields that
/// byte, anything else passes through.
pub open spec fn qp_decode(s: Seq<u8>) -> Seq<u8>
    decreases s.len(),
{
    if s.len() == 0 {
        Seq::empty()
    } else if s[0] == 61 && s.len() >= 3 && hex_val(s[1]) >= 0 && hex_val(s[2]) >= 0 {
        seq![(hex_val(s[1]) * 16 + hex_val(s[2])) as u8] + qp_decode(s.skip(3))
    } else {
        seq![s[0]] + qp_decode(s.drop_first())
    }
}

/// Quoted-printable decode undoes quoted-printable encode.
pub proof fn lemma_qp_round_trip(s: Seq<u8>)
    ensures
        qp_decode(qp_encode(s)) == s,
    decreases s.len(),
{
    if s.len() == 0 {
        assert(s =~= Seq::<u8>::empty());
    } else {
        let c = s[0];
        let tail = s.drop_first();
        lemma_qp_round_trip(tail);
        if qp_literal(c) {
            let e = seq![c] + qp_encode(tail);
            assert(qp_encode(s) == e);
            assert(e[0] == c && c != 61);
            assert(e.drop_first() =~= qp_encode(tail));
            assert(seq![c] + tail =~= s);
        } else {
            let h1 = hex_char(c as int / 16);
            let h2 = hex_char(c as int % 16);
            let e = seq![61, h1, h2] + qp_encode(tail);
            assert(qp_encode(s) == e);
            assert(e[0] == 61 && e[1] == h1 && e[2] == h2);
            assert(hex_val(h1) == c as int / 16 && hex_val(h2) == c as int % 16);
            assert(hex_val(h1) * 16 + hex_val(h2) == c as int);
            assert(e.skip(3) =~= qp_encode(tail));
            assert(seq![c] + tail =~= s);
        }
    }
}

/// The uppercase hexadecimal digit byte for a value below 16, executable form.
fn hex_byte(v: u8) -> (r: u8)
    requires
        v < 16,
    ensures
        r == hex_char(v as int),
{
    if v < 10 {
        48 + v
    } else {
        65 + v - 10
    }
}

/// Quoted-printable-encodes a byte slice.
pub fn quoted_printable_encode(data: &[u8]) -> (r: Vec<u8>)
    ensures
        r@ == qp_encode(data@),
{
    let n = data.len();
    let mut out: Vec<u8> = Vec::new();
    let mut i: usize = 0;
    proof {
        assert(data@.skip(0) =~= data@);
    }
    while i < n
        invariant
            i <= n == data@.len(),
            qp_encode(data@) == out@ + qp_encode(data@.skip(i as int)),
        decreases n - i,
    {
        proof {
            assert(data@.skip(i as int).drop_first() =~= data@.skip(i as int + 1));
        }
        let b = data[i];
        if 33 <= b && b <= 126 && b != 61 {
            out.push(b);
        } else {
            out.push(61);
            out.push(hex_byte(b / 16));
            out.push(hex_byte(b % 16));
        }
        i = i + 1;
    }
    proof {
        assert(qp_encode(data@.skip(n as int)) =~= Seq::<u8>::empty());
        assert(out@ =~= out@ + qp_encode(data@.skip(n as int)));
    }
    out
}

/// Quoted-printable-decodes a byte slice, as the round-trip law reads it.
pub fn quoted_printable_decode(data: &[u8]) -> (r: Vec<u8>)
    ensures
        r@ == qp_decode(data@),
{
    let n = data.len();
    let mut out: Vec<u8> = Vec::new();
    let mut i: usize = 0;
    proof {
        assert(data@.skip(0) =~= data@);
    }
    while i < n
        invariant
            i <= n == data@.len(),
            qp_decode(data@) == out@ + qp_decode(data@.skip(i as int)),
        decreases n - i,
    {
        let ghost rest = data@.skip(i as int);
        let b = data[i];
        let mut taken = false;
        if b == 61 && n - i > 2 {
            let c1 = data[i + 1];
            let c2 = data[i + 2];
            let v1: i32 = if 48 <= c1 && c1 <= 57 {
                (c1 - 48) as i32
            } else if 65 <= c1 && c1 <= 70 {
                (c1 - 65 + 10) as i32
            } else {
                -1
            };
            let v2: i32 = if 48 <= c2 && c2 <= 57 {
                (c2 - 48) as i32
            } else if 65 <= c2 && c2 <= 70 {
                (c2 - 65 + 10) as i32
            } else {
                -1
            };
            proof {
                assert(rest[1] == c1 && rest[2] == c2);
                assert(v1 == hex_val(c1) && v2 == hex_val(c2));
            }
            if v1 >= 0 && v2 >= 0 {
                out.push((v1 * 16 + v2) as u8);
                proof {
                    assert(rest.skip(3) =~= data@.skip(i as int + 3));
                }
                i = i + 3;
                taken = true;
            }
        }
        if !taken {
            proof {
                assert(rest.drop_first() =~= data@.skip(i as int + 1));
                if rest[0] == 61 && rest.len() >= 3 {
                    assert(rest[1] == data@[i as int + 1] && rest[2] == data@[i as int + 2]);
                }
            }
            out.push(b);
            i = i + 1;
        }
    }
    proof {
        assert(qp_decode(data@.skip(n as int)) =~= Seq::<u8>::empty());
        assert(out@ =~= out@ + qp_decode(data@.skip(n as int)));
    }
    out
}

/// The bytes of the encoded-word opener `=?utf-8?B?`.
pub open spec fn word_prefix() -> Seq<u8> {
    seq![61, 63, 117, 116, 102, 45, 56, 63, 66, 63]
}

/// The bytes of the encoded-word closer `?=`.
pub open spec fn word_suffix() -> Seq<u8> {
    seq![63, 61]
}

/// The folding-whitespace separator between encoded words: CRLF and a space.
pub open spec fn word_sep() -> Seq<u8> {
    seq![13, 10, 32]
}

/// A header value's raw UTF-8 bytes cut into chunks of at most 48 bytes.
pub open spec fn chunk48(bytes: Seq<u8>) -> Seq<Seq<u8>>
    decreases bytes.len(),
{
    if bytes.len() <= 48 {
        seq![bytes]
    } else {
        seq![bytes.take(48)] + chunk48(bytes.skip(48))
    }
}

/// One encoded word: the opener, the base64 of the chunk, the closer.
pub open spec fn encoded_word(chunk: Seq<u8>) -> Seq<u8> {
    word_prefix() + b64_encode(chunk) + word_suffix()
}

/// Encoded words joined by folding whitespace.
pub open spec fn words_wire(chunks: Seq<Seq<u8>>) -> Seq<u8>
    decreases chunks.len(),
{
    if chunks.len() == 0 {
        Seq::empty()
    } else if chunks.len() == 1 {
        encoded_word(chunks[0])
    } else {
        encoded_word(chunks[0]) + word_sep() + words_wire(chunks.drop_first())
    }
}

/// The full encoding of a non-ASCII header value's UTF-8 bytes.
pub open spec fn encode_header_bytes(bytes: Seq<u8>) -> Seq<u8> {
    words_wire(chunk48(bytes))
}

/// Index of the first occurrence of `b` in `s`, or -1.
pub open spec fn find_byte(s: Seq<u8>, b: u8) -> int
    decreases s.len(),
{
    if s.len() == 0 {
        -1
    } else if s[0] == b {
        0
    } else {
        let r = find_byte(s.drop_first(), b);
        if r < 0 {
            -1
        } else {
            r + 1
        }
    }
}

pub proof fn lemma_find_byte_bound(s: Seq<u8>, b: u8)
    ensures
        -1 <= find_byte(s, b) < s.len(),
        find_byte(s, b) >= 0 ==> s[find_byte(s, b)] == b,
        forall|i: int| 0 <= i < find_byte(s, b) ==> s[i] != b,
        find_byte(s, b) == -1 ==> forall|i: int| 0 <= i < s.len() ==> s[i] != b,
    decreases s.len(),
{
    if s.len() > 0 && s[0] != b {
        lemma_find_byte_bound(s.drop_first(), b);
        assert forall|i: int| 1 <= i < s.len() implies s[i] == s.drop_first()[i - 1] by {}
    }
}

proof fn lemma_find_byte_at(s: Seq<u8>, b: u8, k: int)
    requires
        0 <= k < s.len(),
        s[k] == b,
        forall|i: int| 0 <= i < k ==> s[i] != b,
    ensures
        find_byte(s, b) == k,
    decreases s.len(),
{
    if k > 0 {
        lemma_find_byte_at(s.drop_first(), b, k - 1);
    }
}

/// Decoding a sequence of encoded words: each word's base64 payload, all
/// payloads concatenated. Anything not of that exact shape decodes to `None`.
pub open spec fn decode_words(s: Seq<u8>) -> Option<Seq<u8>>
    decreases s.len(),
    via decode_words_dec
{
    if s.len() < 12 {
        None
    } else if s.subrange(0, 10) != word_prefix() {
        None
    } else if find_byte(s.skip(10), 63) < 0 {
        None
    } else {
        let k = 10 + find_byte(s.skip(10), 63);
        if k + 1 >= s.len() || s[k + 1] != 61 {
            None
        } else {
            let payload = b64_decode(s.subrange(10, k));
            if k + 2 == s.len() {
                Some(payload)
            } else if k + 5 <= s.len() && s[k + 2] == 13 && s[k + 3] == 10 && s[k + 4] == 32 {
                match decode_words(s.skip(k + 5)) {
                    None => None,
                    Some(rest) => Some(payload + rest),
                }
            } else {
                None
            }
        }
    }
}

#[via_fn]
proof fn decode_words_dec(s: Seq<u8>) {
    lemma_find_byte_bound(s.skip(10), 63);
}

/// Decoding an encoded header value back to characters: the word payloads,
/// concatenated and read as UTF-8.
pub open spec fn decode_header(s: Seq<u8>) -> Option<Seq<char>> {
    match decode_words(s) {
        None => None,
        Some(b) => {
            if vstd::utf8::valid_utf8(b) {
                Some(vstd::utf8::decode_utf8(b))
            } else {
                None
            }
        },
    }
}

/// One encoded word followed by arbitrary trailing bytes starts with no `?`
/// until the closer.
proof fn lemma_decode_one_word(chunk: Seq<u8>, rest: Seq<u8>)
    requires
        rest.len() == 0 || (rest.len() >= 3 && rest[0] == 13 && rest[1] == 10 && rest[2] == 32),
    ensures
        ({
            let s = encoded_word(chunk) + rest;
            let k = 10 + b64_encode(chunk).len();
            &&& find_byte(s.skip(10), 63) == b64_encode(chunk).len()
            &&& s.subrange(0, 10) == word_prefix()
            &&& s.subrange(10, k as int) == b64_encode(chunk)
            &&& k + 1 < s.len() && s[k as int + 1] == 61
            &&& s.skip(k as int + 2) == rest
        }),
{
    let s = encoded_word(chunk) + rest;
    let e = b64_encode(chunk);
    let k: int = 10 + e.len() as int;
    lemma_b64_ascii(chunk);
    assert(s.subrange(0, 10) =~= word_prefix());
    assert(s.subrange(10, k) =~= e);
    assert(s[k] == 63 && s[k + 1] == 61);
    let t = s.skip(10);
    assert(t[e.len() as int] == 63);
    assert forall|i: int| 0 <= i < e.len() implies t[i] != 63 by {
        assert(t[i] == e[i]);
        assert(42 < e[i] < 0x80 && e[i] != 63);
    }
    lemma_find_byte_at(t, 63, e.len() as int);
    assert(s.skip(k + 2) =~= rest);
}

/// Joined encoded words decode back to the concatenation of their chunks.
proof fn lemma_decode_words_wire(chunks: Seq<Seq<u8>>)
    requires
        chunks.len() >= 1,
    ensures
        decode_words(words_wire(chunks)) == Some(chunks.flatten()),
    decreases chunks.len(),
{
    let w = words_wire(chunks);
    let chunk = chunks[0];
    let e = b64_encode(chunk);
    let k: int = 10 + e.len() as int;
    lemma_b64_round_trip(chunk);
    if chunks.len() == 1 {
        lemma_decode_one_word(chunk, Seq::empty());
        assert(encoded_word(chunk) + Seq::<u8>::empty() =~= encoded_word(chunk));
        assert(w.len() == k + 2);
        assert(chunks.flatten() =~= chunk) by {
            assert(chunks.drop_first() =~= Seq::<Seq<u8>>::empty());
            assert(chunks.drop_first().flatten() =~= Seq::<u8>::empty());
            assert(chunk + Seq::<u8>::empty() =~= chunk);
        }
    } else {
        let tail = words_wire(chunks.drop_first());
        let rest = word_sep() + tail;
        assert(w =~= encoded_word(chunk) + rest);
        assert(rest[0] == 13 && rest[1] == 10 && rest[2] == 32);
        lemma_decode_one_word(chunk, rest);
        lemma_decode_words_wire(chunks.drop_first());
        assert(w.len() >= 12);
        assert(w[k + 2] == 13 && w[k + 3] == 10 && w[k + 4] == 32) by {
            assert(w.skip(k + 2) == rest);
            assert(rest[0] == w[k + 2] && rest[1] == w[k + 3] && rest[2] == w[k + 4]);
        }
        assert(w.skip(k + 5) =~= tail);
        assert(chunks.flatten() == chunk + chunks.drop_first().flatten());
    }
}

/// The chunks of a byte sequence concatenate back to it.
proof fn lemma_chunk48_flatten(bytes: Seq<u8>)
    ensures
        chunk48(bytes).flatten() == bytes,
    decreases bytes.len(),
{
    if bytes.len() <= 48 {
        assert(chunk48(bytes).drop_first() =~= Seq::<Seq<u8>>::empty());
        assert(chunk48(bytes).flatten() =~= bytes) by {
            assert(chunk48(bytes).drop_first().flatten() =~= Seq::<u8>::empty());
            assert(bytes + Seq::<u8>::empty() =~= bytes);
        }
    } else {
        lemma_chunk48_flatten(bytes.skip(48));
        let c = chunk48(bytes);
        assert(c.drop_first() =~= chunk48(bytes.skip(48)));
        assert(c.flatten() == bytes.take(48) + c.drop_first().flatten());
        assert(bytes.take(48) + bytes.skip(48) =~= bytes);
    }
}

/// Header encoding round trip: a non-ASCII header value, encoded to encoded
/// words, decodes back to exactly the original characters.
pub proof fn lemma_encode_header_round_trip(h: Seq<char>)
    ensures
        decode_header(encode_header_bytes(vstd::utf8::encode_utf8(h))) == Some(h),
{
    let bytes = vstd::utf8::encode_utf8(h);
    lemma_decode_words_wire(chunk48(bytes));
    lemma_chunk48_flatten(bytes);
    vstd::utf8::encode_utf8_valid_utf8(h);
    vstd::utf8::encode_utf8_decode_utf8(h);
}

/// ASCII bytes read as characters, one per byte.
pub open spec fn bytes_as_chars(s: Seq<u8>) -> Seq<char> {
    s.map_values(|b: u8| b as char)
}

/// Every byte of an encoded header is ASCII.
proof fn lemma_words_wire_ascii(chunks: Seq<Seq<u8>>)
    ensures
        forall|i: int| 0 <= i < words_wire(chunks).len() ==> #[trigger] words_wire(chunks)[i]
            < 0x80,
    decreases chunks.len(),
{
    if chunks.len() == 0 {
    } else if chunks.len() == 1 {
        lemma_b64_ascii(chunks[0]);
        assert forall|i: int| 0 <= i < words_wire(chunks).len() implies #[trigger] words_wire(
            chunks,
        )[i] < 0x80 by {
            let e = b64_encode(chunks[0]);
            if 10 <= i < 10 + e.len() {
                assert(words_wire(chunks)[i] == e[i - 10]);
            }
        }
    } else {
        lemma_b64_ascii(chunks[0]);
        lemma_words_wire_ascii(chunks.drop_first());
        assert forall|i: int| 0 <= i < words_wire(chunks).len() implies #[trigger] words_wire(
            chunks,
        )[i] < 0x80 by {
            let e = b64_encode(chunks[0]);
            let head_len = 12 + e.len() as int + 3;
            if 10 <= i < 10 + e.len() {
                assert(words_wire(chunks)[i] == e[i - 10]);
            } else if i >= head_len {
                assert(words_wire(chunks)[i] == words_wire(chunks.drop_first())[i - head_len]);
            }
        }
    }
}

/// Appends one encoded word for `chunk` to `out`.
fn push_encoded_word(out: &mut Vec<u8>, chunk: &[u8])
    ensures
        final(out)@ == old(out)@ + encoded_word(chunk@),
{
    let mut prefix: Vec<u8> = vec![61, 63, 117, 116, 102, 45, 56, 63, 66, 63];
    proof {
        assert(prefix@ =~= word_prefix());
    }
    out.append(&mut prefix);
    let mut enc = base64_encode(chunk);
    out.append(&mut enc);
    out.push(63);
    out.push(61);
    proof {
        assert(final(out)@ =~= old(out)@ + encoded_word(chunk@));
    }
}

/// A header value as it goes on the wire: its UTF-8 bytes when pure ASCII,
/// its encoded words otherwise.
pub open spec fn encoded_value_bytes(v: Seq<char>) -> Seq<u8> {
    if vstd::utf8::is_ascii_chars(v) {
        vstd::utf8::encode_utf8(v)
    } else {
        encode_header_bytes(vstd::utf8::encode_utf8(v))
    }
}

/// Encodes a header value: pure ASCII values are emitted verbatim, any other
/// value becomes base64 encoded words over 48-byte chunks of its UTF-8
/// bytes, joined by folding whitespace.
pub fn encode_header(header: &str) -> (r: String)
    ensures
        vstd::string::is_ascii(header) ==> r@ == header@,
        !vstd::string::is_ascii(header) ==> r@ == bytes_as_chars(
            encode_header_bytes(header.spec_bytes()),
        ),
{
    if header.is_ascii() {
        return header.to_owned();
    }
    let wire = encode_header_wire(header);
    let r = crate::codec::ascii_to_string(wire);
    proof {
        assert(r@ =~= bytes_as_chars(encode_header_bytes(header.spec_bytes())));
    }
    r
}

/// Encodes a header value to its wire bytes; every byte of the result is
/// ASCII.
pub fn encode_header_wire(header: &str) -> (r: Vec<u8>)
    ensures
        r@ == encoded_value_bytes(header@),
        forall|i: int| 0 <= i < r@.len() ==> r@[i] < 0x80,
{
    if header.is_ascii() {
        let r = header.as_bytes_vec();
        proof {
            vstd::string::is_ascii_spec_bytes(header);
            assert(r@ =~= Seq::new(header@.len(), |k: int| header@[k] as u8));
        }
        return r;
    }
    let bytes = header.as_bytes();
    let ghost all = header.spec_bytes();
    let n = bytes.len();
    let mut out: Vec<u8> = Vec::new();
    let mut i: usize = 0;
    let mut first = true;
    proof {
        assert(all.skip(0) =~= all);
    }
    while i < n
        invariant
            i <= n == all.len(),
            bytes@ == all,
            first <==> i == 0,
            first ==> out@.len() == 0,
            i < n ==> encode_header_bytes(all) == out@ + (if first {
                Seq::<u8>::empty()
            } else {
                word_sep()
            }) + words_wire(chunk48(all.skip(i as int))),
            i == n && n > 0 ==> encode_header_bytes(all) == out@,
            forall|j: int| 0 <= j < out@.len() ==> out@[j] < 0x80,
        decreases n - i,
    {
        if !first {
            out.push(13);
            out.push(10);
            out.push(32);
        }
        let ghost rest = all.skip(i as int);
        let ghost pre_word = out@;
        if n - i > 48 {
            let chunk = vstd::slice::slice_subrange(bytes, i, i + 48);
            push_encoded_word(&mut out, chunk);
            proof {
                assert(chunk@ =~= rest.take(48));
                assert(chunk48(rest) == seq![rest.take(48)] + chunk48(rest.skip(48)));
                let cons = chunk48(rest);
                assert(cons[0] == rest.take(48));
                assert(cons.len() >= 2) by {
                    assert(chunk48(rest.skip(48)).len() >= 1);
                }
                assert(cons.drop_first() =~= chunk48(rest.skip(48)));
                assert(words_wire(cons) == encoded_word(rest.take(48)) + word_sep() + words_wire(
                    cons.drop_first(),
                ));
                assert(rest.skip(48) =~= all.skip(i as int + 48));
                lemma_words_wire_ascii(chunk48(all));
                lemma_words_wire_ascii(chunk48(rest));
                assert forall|j: int| 0 <= j < out@.len() implies out@[j] < 0x80 by {
                    if j >= pre_word.len() {
                        assert(out@[j] == encoded_word(rest.take(48))[j - pre_word.len()]);
                        let w1 = words_wire(chunk48(rest));
                        assert(w1[j - pre_word.len()] == encoded_word(rest.take(48))[j
                            - pre_word.len()]);
                    }
                }
            }
            i = i + 48;
        } else {
            let chunk = vstd::slice::slice_subrange(bytes, i, n);
            push_encoded_word(&mut out, chunk);
            proof {
                assert(chunk@ =~= rest);
                assert(chunk48(rest) == seq![rest]);
                assert(chunk48(rest)[0] == rest);
                assert(words_wire(chunk48(rest)) == encoded_word(rest));
                lemma_words_wire_ascii(chunk48(rest));
                assert forall|j: int| 0 <= j < out@.len() implies out@[j] < 0x80 by {
                    if j >= pre_word.len() {
                        assert(out@[j] == encoded_word(rest)[j - pre_word.len()]);
                        let w1 = words_wire(chunk48(rest));
                        assert(w1[j - pre_word.len()] == encoded_word(rest)[j - pre_word.len()]);
                    }
                }
            }
            i = n;
        }
        first = false;
    }
    proof {
        if n == 0 {
            // a non-empty header value has at least one UTF-8 byte, so the
            // value is empty here, which is ASCII: a contradiction, since
            // the ASCII case returned above
            if header@.len() > 0 {
                assert(vstd::utf8::encode_utf8(header@).len() > 0);
            }
            assert(vstd::utf8::is_ascii_chars(header@));
        }
    }
    out
}



} // verus!
