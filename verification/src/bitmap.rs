//! The revocation registry: a growable bit vector addressed by credential
//! index, with a compact base64url serialization for transport inside a
//! document service.
//!
//! The compression chosen for this core is trailing-zero trimming: a
//! bit-indexed revocation vector is sparse at its tail, so dropping the
//! zero bytes after the last set bit is the compact form, and the decoder
//! accepts exactly that canonical form.

use crate::b64::{b64_decode, b64_encode, base64url_encode, lemma_b64_round_trip};
use crate::document::Service;
use crate::errors::Error;
use vstd::prelude::*;

verus! {

/// Whether bit `index` is set in a byte string, least significant bit of
/// the first byte being index zero.
pub open spec fn bit_at(bytes: Seq<u8>, index: u32) -> bool {
    let w = index as int / 8;
    w < bytes.len() && (bytes[w] >> (index as u32 % 8) as u8) & 1 == 1
}

/// A byte string with no trailing zero byte: the canonical transport form.
pub open spec fn compact(bytes: Seq<u8>) -> bool {
    bytes.len() == 0 || bytes[bytes.len() - 1] != 0
}

/// Whether a payload is the canonical serialization of some bitmap.
pub open spec fn canonical_bitmap_payload(endpoint: Seq<u8>) -> bool {
    b64_decode(endpoint) matches Some(c) && compact(c)
}

/// A growable bit vector marking revoked credential indices.
///
/// Once an index is set it stays set until the symmetric `set_unrevoked`
/// clears it; nothing un-sets bits on its own.
pub struct RevocationBitmap {
    bytes: Vec<u8>,
}

impl View for RevocationBitmap {
    type V = Seq<u8>;

    closed spec fn view(&self) -> Seq<u8> {
        self.bytes@
    }
}

/// Bits beyond the stored bytes read as zero after growth.
proof fn lemma_bit_zero(b: u8, r: u8)
    requires
        b == 0,
        r < 8,
    ensures
        (b >> r) & 1 != 1,
{
    assert(b == 0 ==> (b >> r) & 1 == 0) by (bit_vector);
}

impl RevocationBitmap {
    /// A fresh bitmap with no bit set.
    pub fn new() -> (r: RevocationBitmap)
        ensures
            forall|i: u32| !bit_at(r@, i),
            r@.len() == 0,
    {
        RevocationBitmap { bytes: Vec::new() }
    }

    /// Whether the credential at `index` is marked revoked.
    pub fn is_revoked(&self, index: u32) -> (r: bool)
        ensures
            r == bit_at(self@, index),
    {
        let w = (index / 8) as usize;
        if w >= self.bytes.len() {
            return false;
        }
        let b = self.bytes[w];
        let r = (index % 8) as u8;
        proof {
            assert(r < 8);
        }
        ((b >> r) & 1) == 1
    }

    /// Marks the credential at `index` as revoked, growing the backing
    /// storage if needed; every other index keeps its state.
    pub fn set_revoked(&mut self, index: u32)
        ensures
            bit_at(final(self)@, index),
            forall|j: u32| j != index ==> bit_at(final(self)@, j) == bit_at(old(self)@, j),
    {
        let w = (index / 8) as usize;
        while self.bytes.len() <= w
            invariant
                forall|j: u32| bit_at(self.bytes@, j) == bit_at(old(self)@, j),
            decreases w + 1 - self.bytes.len(),
        {
            let ghost before = self.bytes@;
            self.bytes.push(0);
            proof {
                assert forall|j: u32| bit_at(self.bytes@, j) == bit_at(before, j) by {
                    let wj = j as int / 8;
                    if wj == before.len() {
                        lemma_bit_zero(0, (j % 8) as u8);
                        assert(self.bytes@[wj] == 0);
                    }
                }
            }
        }
        let r = (index % 8) as u8;
        let b = self.bytes[w];
        let nb = b | (1u8 << r);
        self.bytes.set(w, nb);
        proof {
            let ghost mid = old(self)@;
            assert(r < 8);
            assert((b | (1u8 << r)) >> r & 1 == 1) by (bit_vector)
                requires
                    r < 8,
            ;
            assert forall|q: u8, bb: u8| q < 8 && r < 8 && q != r implies ((bb | (1u8 << r)) >> q)
                & 1 == (bb >> q) & 1 by {
                assert(q < 8 && r < 8 && q != r ==> ((bb | (1u8 << r)) >> q) & 1 == (bb >> q) & 1)
                    by (bit_vector);
            }
            assert(bit_at(self.bytes@, index));
        }
    }

    /// Clears the revoked mark at `index`; every other index keeps its
    /// state. The explicit inverse of `set_revoked`.
    pub fn set_unrevoked(&mut self, index: u32)
        ensures
            !bit_at(final(self)@, index),
            forall|j: u32| j != index ==> bit_at(final(self)@, j) == bit_at(old(self)@, j),
    {
        let w = (index / 8) as usize;
        if w >= self.bytes.len() {
            return ;
        }
        let r = (index % 8) as u8;
        let b = self.bytes[w];
        let nb = b & !(1u8 << r);
        self.bytes.set(w, nb);
        proof {
            assert(r < 8);
            assert((b & !(1u8 << r)) >> r & 1 == 0) by (bit_vector)
                requires
                    r < 8,
            ;
            assert forall|q: u8, bb: u8| q < 8 && r < 8 && q != r implies ((bb & !(1u8 << r)) >> q)
                & 1 == (bb >> q) & 1 by {
                assert(q < 8 && r < 8 && q != r ==> ((bb & !(1u8 << r)) >> q) & 1 == (bb >> q) & 1)
                    by (bit_vector);
            }
        }
    }

    /// Serializes the bitmap: compressed by dropping the trailing zero
    /// bytes, then base64url-encoded.
    pub fn serialize(&self) -> (r: Vec<u8>)
        ensures
            exists|c: Seq<u8>|
                {
                    &&& r@ == b64_encode(c)
                    &&& compact(c)
                    &&& forall|i: u32| bit_at(c, i) == bit_at(self@, i)
                },
    {
        let mut end = self.bytes.len();
        while end > 0 && self.bytes[end - 1] == 0
            invariant
                end <= self.bytes@.len(),
                forall|q: int| end <= q < self.bytes@.len() ==> self.bytes@[q] == 0,
            decreases end,
        {
            end -= 1;
        }
        let trimmed = crate::bytes::subvec(&self.bytes, 0, end);
        proof {
            let c = trimmed@;
            assert(compact(c));
            assert forall|i: u32| bit_at(c, i) == bit_at(self@, i) by {
                let w = i as int / 8;
                if w >= end && w < self.bytes@.len() {
                    lemma_bit_zero(0, (i % 8) as u8);
                    assert(self.bytes@[w] == 0);
                }
                if w < end {
                    assert(c[w] == self.bytes@[w]);
                }
            }
        }
        base64url_encode(&trimmed)
    }

    /// Deserializes a bitmap; fails with `InvalidEncoding` on input that is
    /// not the canonical serialization of any bitmap.
    pub fn deserialize(data: &Vec<u8>) -> (r: Result<RevocationBitmap, Error>)
        ensures
            r is Ok <==> canonical_bitmap_payload(data@),
            match r {
                Ok(bm) => b64_decode(data@) == Some(bm@) && compact(bm@),
                Err(e) => e == Error::InvalidEncoding,
            },
    {
        match crate::b64::base64url_decode(data) {
            Some(bytes) => {
                if bytes.len() > 0 && bytes[bytes.len() - 1] == 0 {
                    Err(Error::InvalidEncoding)
                } else {
                    Ok(RevocationBitmap { bytes })
                }
            },
            None => Err(Error::InvalidEncoding),
        }
    }
}

/// Serialization round-trips: a bitmap read back from its serialized form
/// marks exactly the indices the original marks.
pub proof fn lemma_bitmap_round_trip(bm: Seq<u8>, c: Seq<u8>)
    requires
        compact(c),
        forall|i: u32| bit_at(c, i) == bit_at(bm, i),
    ensures
        b64_decode(b64_encode(c)) == Some(c),
        forall|i: u32| bit_at(c, i) == bit_at(bm, i),
{
    lemma_b64_round_trip(c);
}


/// The service type tag identifying a revocation bitmap service.
pub open spec fn revocation_service_type() -> Seq<u8> {
    seq![
        82u8,
        101u8,
        118u8,
        111u8,
        99u8,
        97u8,
        116u8,
        105u8,
        111u8,
        110u8,
        66u8,
        105u8,
        116u8,
        109u8,
        97u8,
        112u8,
        50u8,
        48u8,
        50u8,
        50u8,
    ]
}

impl RevocationBitmap {
    /// Serializes the bitmap (trailing-zero compression, then base64url)
    /// into a service entry addressable by the fragment.
    pub fn to_service(&self, fragment: Vec<u8>) -> (r: Service)
        ensures
            r@.fragment == fragment@,
            r@.service_type == revocation_service_type(),
            exists|c: Seq<u8>|
                {
                    &&& r@.endpoint == b64_encode(c)
                    &&& compact(c)
                    &&& forall|i: u32| bit_at(c, i) == bit_at(self@, i)
                },
    {
        let service_type: Vec<u8> = vec![
            82,
            101,
            118,
            111,
            99,
            97,
            116,
            105,
            111,
            110,
            66,
            105,
            116,
            109,
            97,
            112,
            50,
            48,
            50,
            50,
        ];
        proof {
            assert(service_type@ =~= revocation_service_type());
        }
        Service { fragment, service_type, endpoint: self.serialize() }
    }

    /// Reads a bitmap back out of a service entry; fails with
    /// `InvalidEncoding` when the type tag or payload is not a canonical
    /// revocation service.
    pub fn from_service(s: &Service) -> (r: Result<RevocationBitmap, Error>)
        ensures
            r is Ok <==> (s@.service_type == revocation_service_type()
                && canonical_bitmap_payload(s@.endpoint)),
            r matches Ok(bm) ==> b64_decode(s@.endpoint) == Some(bm@) && compact(bm@),
            r matches Err(e) ==> e == Error::InvalidEncoding,
    {
        let service_type: Vec<u8> = vec![
            82,
            101,
            118,
            111,
            99,
            97,
            116,
            105,
            111,
            110,
            66,
            105,
            116,
            109,
            97,
            112,
            50,
            48,
            50,
            50,
        ];
        proof {
            assert(service_type@ =~= revocation_service_type());
        }
        if !crate::bytes::bytes_eq(&s.service_type, &service_type) {
            return Err(Error::InvalidEncoding);
        }
        RevocationBitmap::deserialize(&s.endpoint)
    }
}

} // verus!
