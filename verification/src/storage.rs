//! The key/signer abstraction: an in-memory key store that generates
//! Ed25519 key material and signs payloads by key identifier.

use crate::crypto::{ed25519_pk_of, ed25519_public_key, ed25519_sig_of, ed25519_sign,
    ed25519_verifies, random_seed};
use crate::errors::Error;
use vstd::prelude::*;

verus! {

/// The kind of key material a store can hold.
#[derive(Clone, Copy, Debug, PartialEq, Eq, Structural)]
pub enum KeyType {
    /// An Ed25519 signing key.
    Ed25519,
    /// An X25519 agreement key; not implemented by this store.
    X25519,
}

/// The signature algorithm a key is generated for.
#[derive(Clone, Copy, Debug, PartialEq, Eq, Structural)]
pub enum JwsAlgorithm {
    /// Edwards-curve digital signatures; the only algorithm this engine
    /// implements.
    EdDSA,
    /// ECDSA over P-256; not implemented by this store.
    ES256,
}

/// An in-memory key store. Key identifiers are dense indices: the key
/// generated n-th has identifier n.
pub struct MemStorage {
    keys: Vec<[u8; 32]>,
}

impl MemStorage {
    /// How many keys the store holds.
    pub closed spec fn key_count(&self) -> nat {
        self.keys@.len()
    }

    /// The secret bytes of the stored key with the given identifier.
    pub closed spec fn sk_at(&self, key_id: u64) -> Seq<u8> {
        self.keys@[key_id as int]@
    }

    /// How many keys the store holds, as a runtime value.
    pub fn len(&self) -> (r: usize)
        ensures
            r == self.key_count(),
    {
        self.keys.len()
    }

    /// Generates and persists a new key, returning its identifier and
    /// public key. Fails with `UnsupportedAlgorithm` for any pair other
    /// than Ed25519/EdDSA, and with `KeyGenerationFailed` when no entropy
    /// is available; on failure the store is unchanged.
    pub fn generate(&mut self, key_type: KeyType, algorithm: JwsAlgorithm) -> (r: Result<
        (u64, [u8; 32]),
        Error,
    >)
        ensures
            (r == Result::<(u64, [u8; 32]), Error>::Err(Error::UnsupportedAlgorithm)) <==> !(
            key_type == KeyType::Ed25519 && algorithm == JwsAlgorithm::EdDSA),
            r matches Err(e) ==> *final(self) == *old(self) && (e == Error::UnsupportedAlgorithm
                || e == Error::KeyGenerationFailed),
            r matches Ok((id, pk)) ==> {
                &&& id == old(self).key_count()
                &&& final(self).key_count() == old(self).key_count() + 1
                &&& forall|q: u64|
                    q < old(self).key_count() ==> final(self).sk_at(q) == old(self).sk_at(q)
                &&& pk@ == ed25519_pk_of(final(self).sk_at(id))
            },
    {
        if !(key_type == KeyType::Ed25519 && algorithm == JwsAlgorithm::EdDSA) {
            return Err(Error::UnsupportedAlgorithm);
        }
        if self.keys.len() >= usize::MAX {
            return Err(Error::KeyGenerationFailed);
        }
        match random_seed() {
            Some(sk) => {
                let pk = ed25519_public_key(&sk);
                let id = self.keys.len() as u64;
                self.keys.push(sk);
                Ok((id, pk))
            },
            None => Err(Error::KeyGenerationFailed),
        }
    }

    /// Signs a payload with the stored key; fails with `KeyNotFound` when
    /// the identifier is unknown. The signature verifies under the key's
    /// public key.
    pub fn sign(&self, key_id: u64, msg: &Vec<u8>) -> (r: Result<Vec<u8>, Error>)
        ensures
            r is Ok <==> key_id < self.key_count(),
            r matches Err(e) ==> e == Error::KeyNotFound,
            r matches Ok(sig) ==> {
                &&& sig@ == ed25519_sig_of(self.sk_at(key_id), msg@)
                &&& sig@.len() == 64
                &&& ed25519_verifies(ed25519_pk_of(self.sk_at(key_id)), msg@, sig@)
            },
    {
        if key_id >= self.keys.len() as u64 {
            return Err(Error::KeyNotFound);
        }
        let sk = &self.keys[key_id as usize];
        Ok(ed25519_sign(sk, msg))
    }

    /// The public key of the stored key; fails with `KeyNotFound` when the
    /// identifier is unknown.
    pub fn public_key(&self, key_id: u64) -> (r: Result<[u8; 32], Error>)
        ensures
            r is Ok <==> key_id < self.key_count(),
            r matches Err(e) ==> e == Error::KeyNotFound,
            r matches Ok(pk) ==> pk@ == ed25519_pk_of(self.sk_at(key_id)),
    {
        if key_id >= self.keys.len() as u64 {
            return Err(Error::KeyNotFound);
        }
        Ok(ed25519_public_key(&self.keys[key_id as usize]))
    }
}

/// A fresh, empty in-memory key store.
pub fn get_memstorage() -> (r: MemStorage)
    ensures
        r.key_count() == 0,
{
    MemStorage { keys: Vec::new() }
}

} // verus!
