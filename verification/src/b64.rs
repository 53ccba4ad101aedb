//! Base64url without padding, the textual carrier for JWT segments and for
//! the revocation service payload.
//!
//! The decoder is strict: it accepts exactly the strings the encoder
//! produces, which makes encoding and decoding mutually inverse
//! (`lemma_b64_round_trip`, `lemma_b64_decode_sound`).

use vstd::prelude::*;

verus! {

/// The base64url alphabet, by sextet value.
pub open spec fn b64_char(x: u8) -> u8
    recommends
        x < 64,
{
    if x < 26 {
        (x + 65) as u8  // 'A'..='Z'
    } else if x < 52 {
        (x + 71) as u8  // 'a'..='z'
    } else if x < 62 {
        (x - 4) as u8  // '0'..='9'
    } else if x == 62 {
        45u8  // '-'
    } else {
        95u8  // '_'
    }
}

/// The sextet value of an alphabet byte, or -1 for a byte outside it.
pub open spec fn b64_val(c: u8) -> int {
    if 65 <= c <= 90 {
        c - 65
    } else if 97 <= c <= 122 {
        c - 71
    } else if 48 <= c <= 57 {
        c + 4
    } else if c == 45 {
        62
    } else if c == 95 {
        63
    } else {
        -1
    }
}

/// Whether a byte belongs to the base64url alphabet.
pub open spec fn is_b64(c: u8) -> bool {
    b64_val(c) >= 0
}

/// The sextet value of an alphabet byte.
pub open spec fn sex(c: u8) -> u8
    recommends
        is_b64(c),
{
    b64_val(c) as u8
}

/// First decoded byte of a group.
pub open spec fn dec_b0(v0: u8, v1: u8) -> u8 {
    (v0 << 2) | (v1 >> 4)
}

/// Second decoded byte of a group.
pub open spec fn dec_b1(v1: u8, v2: u8) -> u8 {
    ((v1 & 15) << 4) | (v2 >> 2)
}

/// Third decoded byte of a group.
pub open spec fn dec_b2(v2: u8, v3: u8) -> u8 {
    ((v2 & 3) << 6) | v3
}

/// Encoding of a final group of one byte.
pub open spec fn enc1(b0: u8) -> Seq<u8> {
    seq![b64_char(b0 >> 2), b64_char((b0 & 3) << 4)]
}

/// Encoding of a final group of two bytes.
pub open spec fn enc2(b0: u8, b1: u8) -> Seq<u8> {
    seq![
        b64_char(b0 >> 2),
        b64_char(((b0 & 3) << 4) | (b1 >> 4)),
        b64_char((b1 & 15) << 2),
    ]
}

/// Encoding of a full group of three bytes.
pub open spec fn enc3(b0: u8, b1: u8, b2: u8) -> Seq<u8> {
    seq![
        b64_char(b0 >> 2),
        b64_char(((b0 & 3) << 4) | (b1 >> 4)),
        b64_char(((b1 & 15) << 2) | (b2 >> 6)),
        b64_char(b2 & 63),
    ]
}

/// Base64url encoding of a byte string, without padding.
pub open spec fn b64_encode(s: Seq<u8>) -> Seq<u8>
    decreases s.len(),
{
    if s.len() >= 3 {
        enc3(s[0], s[1], s[2]) + b64_encode(s.skip(3))
    } else if s.len() == 2 {
        enc2(s[0], s[1])
    } else if s.len() == 1 {
        enc1(s[0])
    } else {
        Seq::empty()
    }
}

/// Strict base64url decoding: accepts exactly the image of `b64_encode`.
pub open spec fn b64_decode(s: Seq<u8>) -> Option<Seq<u8>>
    decreases s.len(),
{
    if s.len() == 0 {
        Some(Seq::empty())
    } else if s.len() == 2 {
        if is_b64(s[0]) && is_b64(s[1]) && sex(s[1]) & 15 == 0 {
            Some(seq![dec_b0(sex(s[0]), sex(s[1]))])
        } else {
            None
        }
    } else if s.len() == 3 {
        if is_b64(s[0]) && is_b64(s[1]) && is_b64(s[2]) && sex(s[2]) & 3 == 0 {
            Some(seq![dec_b0(sex(s[0]), sex(s[1])), dec_b1(sex(s[1]), sex(s[2]))])
        } else {
            None
        }
    } else if s.len() >= 4 {
        if is_b64(s[0]) && is_b64(s[1]) && is_b64(s[2]) && is_b64(s[3]) {
            match b64_decode(s.skip(4)) {
                Some(rest) => Some(
                    seq![
                        dec_b0(sex(s[0]), sex(s[1])),
                        dec_b1(sex(s[1]), sex(s[2])),
                        dec_b2(sex(s[2]), sex(s[3])),
                    ] + rest,
                ),
                None => None,
            }
        } else {
            None
        }
    } else {
        None
    }
}

/// The alphabet map and its inverse cancel on sextets.
pub proof fn lemma_b64_char_val(x: u8)
    requires
        x < 64,
    ensures
        b64_val(b64_char(x)) == x,
        is_b64(b64_char(x)),
{
}

/// The alphabet map and its inverse cancel on alphabet bytes.
pub proof fn lemma_b64_val_char(c: u8)
    requires
        is_b64(c),
    ensures
        b64_val(c) < 64,
        b64_char(sex(c)) == c,
{
}

/// Splitting three bytes yields sextets, and reassembling them restores the bytes.
proof fn lemma_split3(b0: u8, b1: u8, b2: u8)
    ensures
        b0 >> 2 < 64,
        ((b0 & 3) << 4) | (b1 >> 4) < 64,
        ((b1 & 15) << 2) | (b2 >> 6) < 64,
        b2 & 63 < 64,
        dec_b0(b0 >> 2, ((b0 & 3) << 4) | (b1 >> 4)) == b0,
        dec_b1(((b0 & 3) << 4) | (b1 >> 4), ((b1 & 15) << 2) | (b2 >> 6)) == b1,
        dec_b2(((b1 & 15) << 2) | (b2 >> 6), b2 & 63) == b2,
{
    assert(b0 >> 2 < 64 && ((b0 & 3) << 4) | (b1 >> 4) < 64 && ((b1 & 15) << 2) | (b2 >> 6) < 64
        && b2 & 63 < 64) by (bit_vector);
    assert((((b0 >> 2) << 2) | ((((b0 & 3) << 4) | (b1 >> 4)) >> 4)) == b0) by (bit_vector);
    assert((((((b0 & 3) << 4) | (b1 >> 4)) & 15) << 4) | ((((b1 & 15) << 2) | (b2 >> 6)) >> 2)
        == b1) by (bit_vector);
    assert((((((b1 & 15) << 2) | (b2 >> 6)) & 3) << 6) | (b2 & 63) == b2) by (bit_vector);
}

/// Splitting two bytes yields sextets whose reassembly restores the bytes,
/// with the trailing sextet's low bits clear.
proof fn lemma_split2(b0: u8, b1: u8)
    ensures
        b0 >> 2 < 64,
        ((b0 & 3) << 4) | (b1 >> 4) < 64,
        (b1 & 15) << 2 < 64,
        ((b1 & 15) << 2) & 3 == 0,
        dec_b0(b0 >> 2, ((b0 & 3) << 4) | (b1 >> 4)) == b0,
        dec_b1(((b0 & 3) << 4) | (b1 >> 4), (b1 & 15) << 2) == b1,
{
    assert(b0 >> 2 < 64 && ((b0 & 3) << 4) | (b1 >> 4) < 64 && (b1 & 15) << 2 < 64 && ((b1 & 15)
        << 2) & 3 == 0) by (bit_vector);
    assert((((b0 >> 2) << 2) | ((((b0 & 3) << 4) | (b1 >> 4)) >> 4)) == b0) by (bit_vector);
    assert((((((b0 & 3) << 4) | (b1 >> 4)) & 15) << 4) | (((b1 & 15) << 2) >> 2) == b1)
        by (bit_vector);
}

/// Splitting one byte yields sextets whose reassembly restores the byte,
/// with the trailing sextet's low bits clear.
proof fn lemma_split1(b0: u8)
    ensures
        b0 >> 2 < 64,
        (b0 & 3) << 4 < 64,
        ((b0 & 3) << 4) & 15 == 0,
        dec_b0(b0 >> 2, (b0 & 3) << 4) == b0,
{
    assert(b0 >> 2 < 64 && (b0 & 3) << 4 < 64 && ((b0 & 3) << 4) & 15 == 0) by (bit_vector);
    assert((((b0 >> 2) << 2) | (((b0 & 3) << 4) >> 4)) == b0) by (bit_vector);
}

/// Reassembling three bytes from sextets and splitting them again restores
/// the sextets.
proof fn lemma_merge3(v0: u8, v1: u8, v2: u8, v3: u8)
    requires
        v0 < 64,
        v1 < 64,
        v2 < 64,
        v3 < 64,
    ensures
        dec_b0(v0, v1) >> 2 == v0,
        ((dec_b0(v0, v1) & 3) << 4) | (dec_b1(v1, v2) >> 4) == v1,
        ((dec_b1(v1, v2) & 15) << 2) | (dec_b2(v2, v3) >> 6) == v2,
        dec_b2(v2, v3) & 63 == v3,
{
    let b0 = dec_b0(v0, v1);
    let b1 = dec_b1(v1, v2);
    let b2 = dec_b2(v2, v3);
    assert(((v0 << 2) | (v1 >> 4)) >> 2 == v0) by (bit_vector)
        requires
            v0 < 64,
            v1 < 64,
    ;
    assert(((((v0 << 2) | (v1 >> 4)) & 3) << 4) | ((((v1 & 15) << 4) | (v2 >> 2)) >> 4) == v1)
        by (bit_vector)
        requires
            v1 < 64,
            v2 < 64,
    ;
    assert((((((v1 & 15) << 4) | (v2 >> 2)) & 15) << 2) | ((((v2 & 3) << 6) | v3) >> 6) == v2)
        by (bit_vector)
        requires
            v2 < 64,
            v3 < 64,
    ;
    assert((((v2 & 3) << 6) | v3) & 63 == v3) by (bit_vector)
        requires
            v3 < 64,
    ;
}

/// Reassembling two bytes from sextets and splitting them again restores
/// the sextets.
proof fn lemma_merge2(v0: u8, v1: u8, v2: u8)
    requires
        v0 < 64,
        v1 < 64,
        v2 < 64,
        v2 & 3 == 0,
    ensures
        dec_b0(v0, v1) >> 2 == v0,
        ((dec_b0(v0, v1) & 3) << 4) | (dec_b1(v1, v2) >> 4) == v1,
        (dec_b1(v1, v2) & 15) << 2 == v2,
{
    assert(((v0 << 2) | (v1 >> 4)) >> 2 == v0) by (bit_vector)
        requires
            v0 < 64,
            v1 < 64,
    ;
    assert(((((v0 << 2) | (v1 >> 4)) & 3) << 4) | ((((v1 & 15) << 4) | (v2 >> 2)) >> 4) == v1)
        by (bit_vector)
        requires
            v1 < 64,
            v2 < 64,
    ;
    assert(((((v1 & 15) << 4) | (v2 >> 2)) & 15) << 2 == v2) by (bit_vector)
        requires
            v2 < 64,
            v2 & 3 == 0,
    ;
}

/// Reassembling one byte from sextets and splitting it again restores
/// the sextets.
proof fn lemma_merge1(v0: u8, v1: u8)
    requires
        v0 < 64,
        v1 < 64,
        v1 & 15 == 0,
    ensures
        dec_b0(v0, v1) >> 2 == v0,
        (dec_b0(v0, v1) & 3) << 4 == v1,
{
    assert(((v0 << 2) | (v1 >> 4)) >> 2 == v0) by (bit_vector)
        requires
            v0 < 64,
            v1 < 64,
    ;
    assert((((v0 << 2) | (v1 >> 4)) & 3) << 4 == v1) by (bit_vector)
        requires
            v1 < 64,
            v1 & 15 == 0,
    ;
}

/// Decoding inverts encoding.
pub proof fn lemma_b64_round_trip(s: Seq<u8>)
    ensures
        b64_decode(b64_encode(s)) == Some(s),
    decreases s.len(),
{
    let e = b64_encode(s);
    if s.len() == 0 {
        assert(e =~= Seq::<u8>::empty());
        assert(s =~= Seq::<u8>::empty());
    } else if s.len() == 1 {
        lemma_split1(s[0]);
        lemma_b64_char_val(s[0] >> 2);
        lemma_b64_char_val((s[0] & 3) << 4);
        assert(b64_decode(e) == Some(seq![dec_b0(s[0] >> 2, (s[0] & 3) << 4)]));
        assert(seq![dec_b0(s[0] >> 2, (s[0] & 3) << 4)] =~= s);
    } else if s.len() == 2 {
        lemma_split2(s[0], s[1]);
        lemma_b64_char_val(s[0] >> 2);
        lemma_b64_char_val(((s[0] & 3) << 4) | (s[1] >> 4));
        lemma_b64_char_val((s[1] & 15) << 2);
        assert(b64_decode(e) == Some(
            seq![
                dec_b0(s[0] >> 2, ((s[0] & 3) << 4) | (s[1] >> 4)),
                dec_b1(((s[0] & 3) << 4) | (s[1] >> 4), (s[1] & 15) << 2),
            ],
        ));
        assert(seq![s[0], s[1]] =~= s);
    } else {
        let v0 = s[0] >> 2;
        let v1 = ((s[0] & 3) << 4) | (s[1] >> 4);
        let v2 = ((s[1] & 15) << 2) | (s[2] >> 6);
        let v3 = s[2] & 63;
        lemma_split3(s[0], s[1], s[2]);
        lemma_b64_char_val(v0);
        lemma_b64_char_val(v1);
        lemma_b64_char_val(v2);
        lemma_b64_char_val(v3);
        let head = enc3(s[0], s[1], s[2]);
        let tail = b64_encode(s.skip(3));
        assert(e == head + tail);
        assert(e.len() >= 4);
        assert(e[0] == head[0] && e[1] == head[1] && e[2] == head[2] && e[3] == head[3]);
        assert(e.skip(4) =~= tail);
        lemma_b64_round_trip(s.skip(3));
        assert(b64_decode(e) == Some(
            seq![dec_b0(v0, v1), dec_b1(v1, v2), dec_b2(v2, v3)] + s.skip(3),
        ));
        assert(seq![s[0], s[1], s[2]] + s.skip(3) =~= s);
    }
}

/// Only encodings decode: a successful decode pins the input to the
/// encoder's image.
pub proof fn lemma_b64_decode_sound(s: Seq<u8>, x: Seq<u8>)
    requires
        b64_decode(s) == Some(x),
    ensures
        b64_encode(x) == s,
    decreases s.len(),
{
    if s.len() == 0 {
        assert(x =~= Seq::<u8>::empty());
        assert(b64_encode(x) =~= s);
    } else if s.len() == 2 {
        let v0 = sex(s[0]);
        let v1 = sex(s[1]);
        lemma_b64_val_char(s[0]);
        lemma_b64_val_char(s[1]);
        lemma_merge1(v0, v1);
        assert(x == seq![dec_b0(v0, v1)]);
        assert(x.len() == 1);
        assert(b64_encode(x) == enc1(x[0]));
        assert(enc1(dec_b0(v0, v1)) =~= s);
    } else if s.len() == 3 {
        let v0 = sex(s[0]);
        let v1 = sex(s[1]);
        let v2 = sex(s[2]);
        lemma_b64_val_char(s[0]);
        lemma_b64_val_char(s[1]);
        lemma_b64_val_char(s[2]);
        lemma_merge2(v0, v1, v2);
        assert(x == seq![dec_b0(v0, v1), dec_b1(v1, v2)]);
        assert(b64_encode(x) == enc2(x[0], x[1]));
        assert(enc2(dec_b0(v0, v1), dec_b1(v1, v2)) =~= s);
    } else {
        assert(s.len() >= 4);
        let v0 = sex(s[0]);
        let v1 = sex(s[1]);
        let v2 = sex(s[2]);
        let v3 = sex(s[3]);
        lemma_b64_val_char(s[0]);
        lemma_b64_val_char(s[1]);
        lemma_b64_val_char(s[2]);
        lemma_b64_val_char(s[3]);
        lemma_merge3(v0, v1, v2, v3);
        let rest = b64_decode(s.skip(4)).unwrap();
        assert(x == seq![dec_b0(v0, v1), dec_b1(v1, v2), dec_b2(v2, v3)] + rest);
        lemma_b64_decode_sound(s.skip(4), rest);
        assert(x.len() >= 3);
        assert(b64_encode(x) == enc3(x[0], x[1], x[2]) + b64_encode(x.skip(3)));
        assert(x.skip(3) =~= rest);
        assert(enc3(x[0], x[1], x[2]) =~= s.take(4));
        assert(enc3(x[0], x[1], x[2]) + b64_encode(x.skip(3)) =~= s);
    }
}

/// Every byte an encoding produces lies in the alphabet; in particular no
/// encoding contains the JWT segment separator `.`.
pub proof fn lemma_b64_encode_alphabet(s: Seq<u8>)
    ensures
        forall|i: int| 0 <= i < b64_encode(s).len() ==> is_b64(#[trigger] b64_encode(s)[i]),
    decreases s.len(),
{
    if s.len() == 0 {
    } else if s.len() == 1 {
        lemma_split1(s[0]);
        lemma_b64_char_val(s[0] >> 2);
        lemma_b64_char_val((s[0] & 3) << 4);
    } else if s.len() == 2 {
        lemma_split2(s[0], s[1]);
        lemma_b64_char_val(s[0] >> 2);
        lemma_b64_char_val(((s[0] & 3) << 4) | (s[1] >> 4));
        lemma_b64_char_val((s[1] & 15) << 2);
    } else {
        lemma_split3(s[0], s[1], s[2]);
        lemma_b64_char_val(s[0] >> 2);
        lemma_b64_char_val(((s[0] & 3) << 4) | (s[1] >> 4));
        lemma_b64_char_val(((s[1] & 15) << 2) | (s[2] >> 6));
        lemma_b64_char_val(s[2] & 63);
        lemma_b64_encode_alphabet(s.skip(3));
        let head = enc3(s[0], s[1], s[2]);
        let tail = b64_encode(s.skip(3));
        assert forall|i: int| 0 <= i < b64_encode(s).len() implies is_b64(
            #[trigger] b64_encode(s)[i],
        ) by {
            if i < 4 {
                assert(b64_encode(s)[i] == head[i]);
            } else {
                assert(b64_encode(s)[i] == tail[i - 4]);
            }
        }
    }
}

/// Encoding is injective.
pub proof fn lemma_b64_encode_injective(a: Seq<u8>, b: Seq<u8>)
    requires
        b64_encode(a) == b64_encode(b),
    ensures
        a == b,
{
    lemma_b64_round_trip(a);
    lemma_b64_round_trip(b);
}

/// The exec alphabet map.
fn b64_char_x(x: u8) -> (r: u8)
    requires
        x < 64,
    ensures
        r == b64_char(x),
{
    if x < 26 {
        x + 65
    } else if x < 52 {
        x + 71
    } else if x < 62 {
        x - 4
    } else if x == 62 {
        45
    } else {
        95
    }
}

/// The exec inverse alphabet map: the sextet of an alphabet byte, or `None`.
fn b64_val_x(c: u8) -> (r: Option<u8>)
    ensures
        match r {
            Some(v) => is_b64(c) && v == sex(c) && v < 64,
            None => !is_b64(c),
        },
{
    if 65 <= c && c <= 90 {
        Some(c - 65)
    } else if 97 <= c && c <= 122 {
        Some(c - 71)
    } else if 48 <= c && c <= 57 {
        Some(c + 4)
    } else if c == 45 {
        Some(62)
    } else if c == 95 {
        Some(63)
    } else {
        None
    }
}

/// Encodes a byte string as base64url without padding.
pub fn base64url_encode(s: &Vec<u8>) -> (r: Vec<u8>)
    ensures
        r@ == b64_encode(s@),
{
    let n = s.len();
    let mut out: Vec<u8> = Vec::new();
    let mut i: usize = 0;
    proof {
        assert(s@.skip(0) =~= s@);
        assert(Seq::<u8>::empty() + b64_encode(s@) =~= b64_encode(s@));
    }
    while n - i >= 3
        invariant
            i <= n,
            n == s@.len(),
            out@ + b64_encode(s@.skip(i as int)) == b64_encode(s@),
        decreases n - i,
    {
        let b0 = s[i];
        let b1 = s[i + 1];
        let b2 = s[i + 2];
        proof {
            lemma_split3(b0, b1, b2);
            assert(s@.skip(i as int)[0] == b0);
            assert(s@.skip(i as int)[1] == b1);
            assert(s@.skip(i as int)[2] == b2);
            assert(s@.skip(i as int).skip(3) =~= s@.skip(i + 3));
        }
        out.push(b64_char_x(b0 >> 2));
        out.push(b64_char_x(((b0 & 3) << 4) | (b1 >> 4)));
        out.push(b64_char_x(((b1 & 15) << 2) | (b2 >> 6)));
        out.push(b64_char_x(b2 & 63));
        proof {
            assert(b64_encode(s@.skip(i as int)) == enc3(b0, b1, b2) + b64_encode(s@.skip(i + 3)));
            assert(out@ + b64_encode(s@.skip(i + 3)) =~= b64_encode(s@));
        }
        i += 3;
    }
    if n - i == 2 {
        let b0 = s[i];
        let b1 = s[i + 1];
        proof {
            lemma_split2(b0, b1);
            assert(s@.skip(i as int)[0] == b0);
            assert(s@.skip(i as int)[1] == b1);
            assert(s@.skip(i as int).len() == 2);
        }
        out.push(b64_char_x(b0 >> 2));
        out.push(b64_char_x(((b0 & 3) << 4) | (b1 >> 4)));
        out.push(b64_char_x((b1 & 15) << 2));
        proof {
            assert(b64_encode(s@.skip(i as int)) == enc2(b0, b1));
            assert(out@ =~= (out@.subrange(0, out@.len() - 3) + enc2(b0, b1)));
            assert(out@ =~= b64_encode(s@));
        }
    } else if n - i == 1 {
        let b0 = s[i];
        proof {
            lemma_split1(b0);
            assert(s@.skip(i as int)[0] == b0);
            assert(s@.skip(i as int).len() == 1);
        }
        out.push(b64_char_x(b0 >> 2));
        out.push(b64_char_x((b0 & 3) << 4));
        proof {
            assert(b64_encode(s@.skip(i as int)) == enc1(b0));
            assert(out@ =~= (out@.subrange(0, out@.len() - 2) + enc1(b0)));
            assert(out@ =~= b64_encode(s@));
        }
    } else {
        proof {
            assert(s@.skip(i as int).len() == 0);
            assert(b64_encode(s@.skip(i as int)) =~= Seq::<u8>::empty());
            assert(out@ =~= b64_encode(s@));
        }
    }
    out
}

/// Decodes a base64url string, strictly: exactly the encoder's image is
/// accepted, so corrupt or non-canonical input is rejected.
pub fn base64url_decode(s: &Vec<u8>) -> (r: Option<Vec<u8>>)
    ensures
        match r {
            Some(v) => b64_decode(s@) == Some(v@),
            None => b64_decode(s@) is None,
        },
{
    let n = s.len();
    let mut out: Vec<u8> = Vec::new();
    let mut i: usize = 0;
    proof {
        assert(s@.skip(0) =~= s@);
        if b64_decode(s@) is Some {
            assert(Seq::<u8>::empty() + b64_decode(s@).unwrap() =~= b64_decode(s@).unwrap());
        }
    }
    while n - i >= 4
        invariant
            i <= n,
            n == s@.len(),
            b64_decode(s@.skip(i as int)) matches Some(rest) ==> b64_decode(s@) == Some(
                out@ + rest,
            ),
            b64_decode(s@.skip(i as int)) is None ==> b64_decode(s@) is None,
        decreases n - i,
    {
        proof {
            assert(s@.skip(i as int)[0] == s@[i as int]);
            assert(s@.skip(i as int)[1] == s@[i as int + 1]);
            assert(s@.skip(i as int)[2] == s@[i as int + 2]);
            assert(s@.skip(i as int)[3] == s@[i as int + 3]);
            assert(s@.skip(i as int).skip(4) =~= s@.skip(i + 4));
        }
        let r0 = b64_val_x(s[i]);
        let r1 = b64_val_x(s[i + 1]);
        let r2 = b64_val_x(s[i + 2]);
        let r3 = b64_val_x(s[i + 3]);
        match (r0, r1, r2, r3) {
            (Some(v0), Some(v1), Some(v2), Some(v3)) => {
                out.push((v0 << 2) | (v1 >> 4));
                out.push(((v1 & 15) << 4) | (v2 >> 2));
                out.push(((v2 & 3) << 6) | v3);
                proof {
                    let grp = seq![
                        dec_b0(sex(s@[i as int]), sex(s@[i as int + 1])),
                        dec_b1(sex(s@[i as int + 1]), sex(s@[i as int + 2])),
                        dec_b2(sex(s@[i as int + 2]), sex(s@[i as int + 3])),
                    ];
                    assert(out@ =~= old_out_plus(out@, grp));
                    assert forall|rest: Seq<u8>|
                        b64_decode(s@.skip(i + 4)) == Some(rest) implies b64_decode(
                        s@.skip(i as int),
                    ) == Some(grp + rest) by {}
                    if b64_decode(s@.skip(i + 4)) is Some {
                        let rest = b64_decode(s@.skip(i + 4)).unwrap();
                        assert(b64_decode(s@.skip(i as int)) == Some(grp + rest));
                        assert((out@.subrange(0, out@.len() - 3) + (grp + rest)) =~= (out@ + rest));
                    }
                }
                i += 4;
            },
            _ => {
                proof {
                    assert(b64_decode(s@.skip(i as int)) is None);
                }
                return None;
            },
        }
    }
    let rem = n - i;
    if rem == 0 {
        proof {
            assert(s@.skip(i as int).len() == 0);
            assert(b64_decode(s@.skip(i as int)) == Some(Seq::<u8>::empty()));
            assert(out@ + Seq::<u8>::empty() =~= out@);
        }
        Some(out)
    } else if rem == 2 {
        proof {
            assert(s@.skip(i as int)[0] == s@[i as int]);
            assert(s@.skip(i as int)[1] == s@[i as int + 1]);
            assert(s@.skip(i as int).len() == 2);
        }
        let r0 = b64_val_x(s[i]);
        let r1 = b64_val_x(s[i + 1]);
        match (r0, r1) {
            (Some(v0), Some(v1)) => {
                if v1 & 15 == 0 {
                    out.push((v0 << 2) | (v1 >> 4));
                    proof {
                        assert(b64_decode(s@.skip(i as int)) == Some(
                            seq![dec_b0(sex(s@[i as int]), sex(s@[i as int + 1]))],
                        ));
                        assert(out@ =~= (out@.subrange(0, out@.len() - 1) + seq![
                            dec_b0(sex(s@[i as int]), sex(s@[i as int + 1])),
                        ]));
                    }
                    Some(out)
                } else {
                    None
                }
            },
            _ => None,
        }
    } else if rem == 3 {
        proof {
            assert(s@.skip(i as int)[0] == s@[i as int]);
            assert(s@.skip(i as int)[1] == s@[i as int + 1]);
            assert(s@.skip(i as int)[2] == s@[i as int + 2]);
            assert(s@.skip(i as int).len() == 3);
        }
        let r0 = b64_val_x(s[i]);
        let r1 = b64_val_x(s[i + 1]);
        let r2 = b64_val_x(s[i + 2]);
        match (r0, r1, r2) {
            (Some(v0), Some(v1), Some(v2)) => {
                if v2 & 3 == 0 {
                    out.push((v0 << 2) | (v1 >> 4));
                    out.push(((v1 & 15) << 4) | (v2 >> 2));
                    proof {
                        let grp = seq![
                            dec_b0(sex(s@[i as int]), sex(s@[i as int + 1])),
                            dec_b1(sex(s@[i as int + 1]), sex(s@[i as int + 2])),
                        ];
                        assert(b64_decode(s@.skip(i as int)) == Some(grp));
                        assert(out@ =~= (out@.subrange(0, out@.len() - 2) + grp));
                    }
                    Some(out)
                } else {
                    None
                }
            },
            _ => None,
        }
    } else {
        proof {
            assert(s@.skip(i as int).len() == 1);
        }
        None
    }
}

/// Helper naming for the three bytes a full group appends.
spec fn old_out_plus(cur: Seq<u8>, grp: Seq<u8>) -> Seq<u8> {
    cur.subrange(0, cur.len() - grp.len()) + grp
}

} // verus!
