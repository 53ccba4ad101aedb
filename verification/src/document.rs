//! The DID document model: an identifier, verification methods unique by
//! fragment, services unique by fragment, and opaque metadata.

use crate::bytes::{bytes_eq, push_all};
use crate::crypto::ed25519_pk_of;
use crate::errors::Error;
use crate::json::{jmembers_of, JVal, JsonValue};
use crate::storage::{JwsAlgorithm, KeyType, MemStorage};
use vstd::prelude::*;

verus! {

/// A capability relationship a verification method can be attached to.
#[derive(Clone, Copy, Debug, PartialEq, Eq, Structural)]
pub enum MethodRelationship {
    /// Proving control of the DID for authentication.
    Authentication,
    /// Asserting claims, e.g. signing credentials.
    AssertionMethod,
    /// Key agreement; never available to Ed25519 signing keys here.
    KeyAgreement,
    /// Invoking capabilities.
    CapabilityInvocation,
    /// Delegating capabilities.
    CapabilityDelegation,
}

/// The scope a verification method is created under.
#[derive(Clone, Copy, Debug, PartialEq, Eq, Structural)]
pub enum MethodScope {
    /// A plain verification method with no initial relationship.
    VerificationMethod,
    /// Created directly under a relationship.
    Relationship(MethodRelationship),
}

/// A public-key entry of a document.
pub struct VerificationMethod {
    /// The fragment that addresses this method within its document.
    pub fragment: Vec<u8>,
    /// The key-store identifier of the backing key.
    pub key_id: u64,
    /// The Ed25519 public key bytes.
    pub public_key: [u8; 32],
    /// The relationships the method is attached to.
    pub relationships: Vec<MethodRelationship>,
}

/// A fragment-addressable service endpoint entry.
pub struct Service {
    /// The fragment that addresses this service within its document.
    pub fragment: Vec<u8>,
    /// The service type tag.
    pub service_type: Vec<u8>,
    /// The type-specific payload.
    pub endpoint: Vec<u8>,
}

/// The mathematical mirror of a verification method.
#[verifier::ext_equal]
pub struct MethodV {
    /// The addressing fragment.
    pub fragment: Seq<u8>,
    /// The key-store identifier.
    pub key_id: u64,
    /// The public key bytes.
    pub public_key: Seq<u8>,
    /// The attached relationships.
    pub relationships: Seq<MethodRelationship>,
}

/// The mathematical mirror of a service.
#[verifier::ext_equal]
pub struct ServiceV {
    /// The addressing fragment.
    pub fragment: Seq<u8>,
    /// The service type tag.
    pub service_type: Seq<u8>,
    /// The type-specific payload.
    pub endpoint: Seq<u8>,
}

impl View for VerificationMethod {
    type V = MethodV;

    open spec fn view(&self) -> MethodV {
        MethodV {
            fragment: self.fragment@,
            key_id: self.key_id,
            public_key: self.public_key@,
            relationships: self.relationships@,
        }
    }
}

impl View for Service {
    type V = ServiceV;

    open spec fn view(&self) -> ServiceV {
        ServiceV {
            fragment: self.fragment@,
            service_type: self.service_type@,
            endpoint: self.endpoint@,
        }
    }
}

/// An in-memory DID document.
pub struct Document {
    /// The document's DID; a placeholder until published.
    pub did: Vec<u8>,
    /// The verification methods, unique by fragment.
    pub methods: Vec<VerificationMethod>,
    /// The services, unique by fragment.
    pub services: Vec<Service>,
    /// Opaque metadata properties.
    pub metadata: Vec<(Vec<u8>, JsonValue)>,
}

/// The mathematical mirror of a document.
#[verifier::ext_equal]
pub struct DocumentV {
    /// The document's DID.
    pub did: Seq<u8>,
    /// The verification methods.
    pub methods: Seq<MethodV>,
    /// The services.
    pub services: Seq<ServiceV>,
    /// Opaque metadata properties.
    pub metadata: Seq<(Seq<u8>, JVal)>,
}

impl View for Document {
    type V = DocumentV;

    open spec fn view(&self) -> DocumentV {
        DocumentV {
            did: self.did@,
            methods: Seq::new(self.methods@.len(), |i: int| self.methods@[i]@),
            services: Seq::new(self.services@.len(), |i: int| self.services@[i]@),
            metadata: jmembers_of(self.metadata@),
        }
    }
}

/// The first method with the given fragment, if any.
pub open spec fn find_method(ms: Seq<MethodV>, fragment: Seq<u8>) -> Option<MethodV>
    decreases ms.len(),
{
    if ms.len() == 0 {
        None
    } else if ms[0].fragment == fragment {
        Some(ms[0])
    } else {
        find_method(ms.skip(1), fragment)
    }
}

/// The first service with the given fragment, if any.
pub open spec fn find_service(ss: Seq<ServiceV>, fragment: Seq<u8>) -> Option<ServiceV>
    decreases ss.len(),
{
    if ss.len() == 0 {
        None
    } else if ss[0].fragment == fragment {
        Some(ss[0])
    } else {
        find_service(ss.skip(1), fragment)
    }
}

/// Fragment uniqueness across methods and services: the document's
/// well-formedness invariant.
pub open spec fn doc_wf(d: DocumentV) -> bool {
    &&& forall|i: int, j: int|
        0 <= i < j < d.methods.len() ==> (#[trigger] d.methods[i]).fragment != (
        #[trigger] d.methods[j]).fragment
    &&& forall|i: int, j: int|
        0 <= i < j < d.services.len() ==> (#[trigger] d.services[i]).fragment != (
        #[trigger] d.services[j]).fragment
}

/// Finding commutes with indexing: the found method is the unique one with
/// that fragment.
pub proof fn lemma_find_method_index(ms: Seq<MethodV>, fragment: Seq<u8>)
    ensures
        find_method(ms, fragment) matches Some(m) ==> exists|i: int|
            0 <= i < ms.len() && ms[i] == m && (#[trigger] ms[i]).fragment == fragment,
        find_method(ms, fragment) is None ==> forall|i: int|
            0 <= i < ms.len() ==> (#[trigger] ms[i]).fragment != fragment,
    decreases ms.len(),
{
    if ms.len() > 0 {
        if ms[0].fragment == fragment {
        } else {
            lemma_find_method_index(ms.skip(1), fragment);
            if find_method(ms, fragment) is Some {
                let m = find_method(ms.skip(1), fragment).unwrap();
                let i = choose|i: int|
                    0 <= i < ms.skip(1).len() && ms.skip(1)[i] == m && (
                    #[trigger] ms.skip(1)[i]).fragment == fragment;
                assert(ms[i + 1] == m && ms[i + 1].fragment == fragment);
            } else {
                assert forall|i: int| 0 <= i < ms.len() implies (#[trigger] ms[i]).fragment
                    != fragment by {
                    if i > 0 {
                        assert(ms.skip(1)[i - 1] == ms[i]);
                    }
                }
            }
        }
    }
}

/// The service-level analogue of `lemma_find_method_index`.
pub proof fn lemma_find_service_index(ss: Seq<ServiceV>, fragment: Seq<u8>)
    ensures
        find_service(ss, fragment) matches Some(s) ==> exists|i: int|
            0 <= i < ss.len() && ss[i] == s && (#[trigger] ss[i]).fragment == fragment,
        find_service(ss, fragment) is None ==> forall|i: int|
            0 <= i < ss.len() ==> (#[trigger] ss[i]).fragment != fragment,
    decreases ss.len(),
{
    if ss.len() > 0 {
        if ss[0].fragment == fragment {
        } else {
            lemma_find_service_index(ss.skip(1), fragment);
            if find_service(ss, fragment) is Some {
                let s = find_service(ss.skip(1), fragment).unwrap();
                let i = choose|i: int|
                    0 <= i < ss.skip(1).len() && ss.skip(1)[i] == s && (
                    #[trigger] ss.skip(1)[i]).fragment == fragment;
                assert(ss[i + 1] == s && ss[i + 1].fragment == fragment);
            } else {
                assert forall|i: int| 0 <= i < ss.len() implies (#[trigger] ss[i]).fragment
                    != fragment by {
                    if i > 0 {
                        assert(ss.skip(1)[i - 1] == ss[i]);
                    }
                }
            }
        }
    }
}

impl Document {
    /// A fresh, unpublished document with a placeholder DID on the given
    /// network: `did:<network>:0`.
    pub fn new(network: &Vec<u8>) -> (r: Document)
        ensures
            r@.did == seq![100u8, 105u8, 100u8, 58u8] + network@ + seq![58u8, 48u8],
            r@.methods.len() == 0,
            r@.services.len() == 0,
            r@.metadata.len() == 0,
            doc_wf(r@),
    {
        let mut did: Vec<u8> = Vec::new();
        did.push(100);
        did.push(105);
        did.push(100);
        did.push(58);
        push_all(&mut did, network);
        did.push(58);
        did.push(48);
        proof {
            assert(did@ =~= seq![100u8, 105u8, 100u8, 58u8] + network@ + seq![58u8, 48u8]);
        }
        let r = Document { did, methods: Vec::new(), services: Vec::new(), metadata: Vec::new() };
        proof {
            assert(r@.methods =~= Seq::<MethodV>::empty());
            assert(r@.services =~= Seq::<ServiceV>::empty());
            assert(r@.metadata.len() == 0);
        }
        r
    }

    /// The index of the method with the given fragment.
    pub fn resolve_method(&self, fragment: &Vec<u8>) -> (r: Result<usize, Error>)
        ensures
            r matches Ok(ix) ==> ix < self@.methods.len() && self@.methods[ix as int].fragment
                == fragment@ && find_method(self@.methods, fragment@) == Some(
                self@.methods[ix as int],
            ),
            r matches Err(e) ==> e == Error::MethodNotFound && find_method(
                self@.methods,
                fragment@,
            ) is None,
    {
        let n = self.methods.len();
        let mut i: usize = 0;
        while i < n
            invariant
                i <= n,
                n == self@.methods.len(),
                forall|k: int| 0 <= k < i ==> (#[trigger] self@.methods[k]).fragment != fragment@,
            decreases n - i,
        {
            if bytes_eq(&self.methods[i].fragment, fragment) {
                proof {
                    lemma_find_first_method(self@.methods, fragment@, i as int);
                }
                return Ok(i);
            }
            i += 1;
        }
        proof {
            lemma_find_none_method(self@.methods, fragment@);
        }
        Err(Error::MethodNotFound)
    }

    /// The index of the service with the given fragment.
    pub fn resolve_service(&self, fragment: &Vec<u8>) -> (r: Result<usize, Error>)
        ensures
            r matches Ok(ix) ==> ix < self@.services.len() && self@.services[ix as int].fragment
                == fragment@ && find_service(self@.services, fragment@) == Some(
                self@.services[ix as int],
            ),
            r matches Err(e) ==> e == Error::ServiceNotFound && find_service(
                self@.services,
                fragment@,
            ) is None,
    {
        let n = self.services.len();
        let mut i: usize = 0;
        while i < n
            invariant
                i <= n,
                n == self@.services.len(),
                forall|k: int| 0 <= k < i ==> (#[trigger] self@.services[k]).fragment != fragment@,
            decreases n - i,
        {
            if bytes_eq(&self.services[i].fragment, fragment) {
                proof {
                    lemma_find_first_service(self@.services, fragment@, i as int);
                }
                return Ok(i);
            }
            i += 1;
        }
        proof {
            lemma_find_none_service(self@.services, fragment@);
        }
        Err(Error::ServiceNotFound)
    }

    /// Generates a key in the store and inserts a verification method
    /// referencing it, returning the method's fragment.
    ///
    /// Fails with `InvalidScope` when an Ed25519 signing key is requested
    /// under a key-agreement relationship, `UnsupportedAlgorithm` or
    /// `KeyGenerationFailed` from the store, and `DuplicateFragment` when
    /// the fragment is already taken; on failure the document is
    /// unchanged.
    pub fn generate_method(
        &mut self,
        storage: &mut MemStorage,
        key_type: KeyType,
        algorithm: JwsAlgorithm,
        fragment: &Vec<u8>,
        scope: MethodScope,
    ) -> (r: Result<Vec<u8>, Error>)
        requires
            doc_wf(old(self)@),
        ensures
            doc_wf(final(self)@),
            r matches Err(e) ==> *final(self) == *old(self) && *final(storage) == *old(storage)
                && (e == Error::InvalidScope || e == Error::UnsupportedAlgorithm || e
                == Error::KeyGenerationFailed || e == Error::DuplicateFragment),
            scope == MethodScope::Relationship(MethodRelationship::KeyAgreement) <==> (r == Result::<
                Vec<u8>,
                Error,
            >::Err(Error::InvalidScope)),
            (scope != MethodScope::Relationship(MethodRelationship::KeyAgreement) && find_method(
                old(self)@.methods,
                fragment@,
            ) is Some) <==> (r == Result::<Vec<u8>, Error>::Err(Error::DuplicateFragment)),
            (scope != MethodScope::Relationship(MethodRelationship::KeyAgreement) && find_method(
                old(self)@.methods,
                fragment@,
            ) is None && !(key_type == KeyType::Ed25519 && algorithm == JwsAlgorithm::EdDSA)) <==> (
            r == Result::<Vec<u8>, Error>::Err(Error::UnsupportedAlgorithm)),
            r matches Ok(frag) ==> {
                &&& frag@ == fragment@
                &&& find_method(old(self)@.methods, fragment@) is None
                &&& final(self)@.methods.len() == old(self)@.methods.len() + 1
                &&& final(storage).key_count() == old(storage).key_count() + 1
                &&& forall|q: u64|
                    q < old(storage).key_count() ==> final(storage).sk_at(q) == old(
                        storage,
                    ).sk_at(q)
                &&& final(self)@.methods.last().fragment == fragment@
                &&& final(self)@.methods.last().public_key == ed25519_pk_of(
                    final(storage).sk_at(final(self)@.methods.last().key_id),
                )
                &&& final(self)@.methods.last().key_id < final(storage).key_count()
                &&& forall|q: int|
                    0 <= q < old(self)@.methods.len() ==> final(self)@.methods[q] == old(
                        self,
                    )@.methods[q]
                &&& final(self)@.did == old(self)@.did
                &&& final(self)@.services == old(self)@.services
                &&& final(self)@.metadata == old(self)@.metadata
            },
    {
        if scope == MethodScope::Relationship(MethodRelationship::KeyAgreement) {
            return Err(Error::InvalidScope);
        }
        match self.resolve_method(fragment) {
            Ok(_) => {
                return Err(Error::DuplicateFragment);
            },
            Err(_) => {},
        }
        let (key_id, public_key) = match storage.generate(key_type, algorithm) {
            Ok(pair) => pair,
            Err(e) => {
                return Err(e);
            },
        };
        let mut relationships: Vec<MethodRelationship> = Vec::new();
        match scope {
            MethodScope::Relationship(rel) => {
                relationships.push(rel);
            },
            MethodScope::VerificationMethod => {},
        }
        let frag_copy = crate::bytes::subvec(fragment, 0, fragment.len());
        let frag_ret = crate::bytes::subvec(fragment, 0, fragment.len());
        let ghost before = self@.methods;
        self.methods.push(
            VerificationMethod { fragment: frag_copy, key_id, public_key, relationships },
        );
        proof {
            assert(frag_ret@ =~= fragment@);
            assert(final(self)@.methods =~= before + seq![final(self)@.methods.last()]);
            lemma_find_method_index(before, fragment@);
            assert(self@.services =~= old(self)@.services);
            assert(self@.metadata == old(self)@.metadata);
            assert(doc_wf(self@)) by {
                assert forall|i: int, j: int| 0 <= i < j < self@.methods.len() implies (
                #[trigger] self@.methods[i]).fragment != (#[trigger] self@.methods[j]).fragment by {
                    if j == self@.methods.len() - 1 {
                        assert(self@.methods[i] == before[i]);
                    }
                }
            }
        }
        Ok(frag_ret)
    }

    /// Attaches a relationship to an existing method; fails with
    /// `MethodNotFound` when no method has the fragment.
    pub fn attach_method_relationship(&mut self, fragment: &Vec<u8>, rel: MethodRelationship) -> (r:
        Result<(), Error>)
        requires
            doc_wf(old(self)@),
        ensures
            doc_wf(final(self)@),
            r matches Err(e) ==> e == Error::MethodNotFound && *final(self) == *old(self)
                && find_method(old(self)@.methods, fragment@) is None,
            r is Ok ==> {
                &&& find_method(old(self)@.methods, fragment@) is Some
                &&& final(self)@.methods.len() == old(self)@.methods.len()
                &&& exists|ix: int|
                    {
                        &&& 0 <= ix < old(self)@.methods.len()
                        &&& (#[trigger] final(self)@.methods[ix]).fragment == fragment@
                        &&& final(self)@.methods[ix].relationships
                            == old(self)@.methods[ix].relationships + seq![rel]
                        &&& forall|q: int|
                            0 <= q < old(self)@.methods.len() && q != ix
                                ==> final(self)@.methods[q] == old(self)@.methods[q]
                    }
                &&& final(self)@.did == old(self)@.did
                &&& final(self)@.services == old(self)@.services
            },
    {
        let ix = match self.resolve_method(fragment) {
            Ok(ix) => ix,
            Err(e) => {
                return Err(e);
            },
        };
        let ghost before = self@;
        let m = &mut self.methods[ix];
        m.relationships.push(rel);
        proof {
            assert((#[trigger] final(self)@.methods[ix as int]).fragment == fragment@);
            assert(final(self)@.methods[ix as int].relationships == before.methods[
                ix as int
            ].relationships + seq![rel]);
            assert forall|q: int|
                0 <= q < before.methods.len() && q != ix implies final(self)@.methods[q]
                    == before.methods[q] by {}
            assert(self@.services =~= before.services);
            assert(doc_wf(self@)) by {
                assert forall|i: int, j: int| 0 <= i < j < self@.methods.len() implies (
                #[trigger] self@.methods[i]).fragment != (#[trigger] self@.methods[j]).fragment by {
                    assert(self@.methods[i].fragment == before.methods[i].fragment);
                    assert(self@.methods[j].fragment == before.methods[j].fragment);
                }
            }
        }
        Ok(())
    }

    /// Inserts a service; fails with `DuplicateFragment` when one with the
    /// same fragment exists.
    pub fn insert_service(&mut self, service: Service) -> (r: Result<(), Error>)
        requires
            doc_wf(old(self)@),
        ensures
            doc_wf(final(self)@),
            r matches Err(e) ==> e == Error::DuplicateFragment && *final(self) == *old(self)
                && find_service(old(self)@.services, service@.fragment) is Some,
            r is Ok ==> {
                &&& find_service(old(self)@.services, service@.fragment) is None
                &&& final(self)@.services == old(self)@.services + seq![service@]
                &&& final(self)@.did == old(self)@.did
                &&& final(self)@.methods == old(self)@.methods
            },
    {
        match self.resolve_service(&service.fragment) {
            Ok(_) => {
                return Err(Error::DuplicateFragment);
            },
            Err(_) => {},
        }
        let ghost before = self@;
        let ghost sv = service@;
        proof {
            lemma_find_service_index(before.services, sv.fragment);
        }
        self.services.push(service);
        proof {
            assert(final(self)@.services =~= before.services + seq![sv]);
            assert(self@.methods =~= before.methods);
            assert(doc_wf(self@)) by {
                assert forall|i: int, j: int| 0 <= i < j < self@.services.len() implies (
                #[trigger] self@.services[i]).fragment != (#[trigger] self@.services[j]).fragment
                    by {
                    if j == self@.services.len() - 1 {
                        assert(self@.services[i] == before.services[i]);
                    }
                }
            }
        }
        Ok(())
    }
}

/// A match at the first position scanned equals the recursive find.
proof fn lemma_find_first_method(ms: Seq<MethodV>, fragment: Seq<u8>, i: int)
    requires
        0 <= i < ms.len(),
        ms[i].fragment == fragment,
        forall|k: int| 0 <= k < i ==> (#[trigger] ms[k]).fragment != fragment,
    ensures
        find_method(ms, fragment) == Some(ms[i]),
    decreases ms.len(),
{
    if i > 0 {
        assert(forall|k: int|
            0 <= k < i - 1 ==> #[trigger] ms.skip(1)[k] == ms[k + 1]);
        assert(ms.skip(1)[i - 1] == ms[i]);
        lemma_find_first_method(ms.skip(1), fragment, i - 1);
    }
}

/// No scanned position matches: the recursive find is empty.
proof fn lemma_find_none_method(ms: Seq<MethodV>, fragment: Seq<u8>)
    requires
        forall|k: int| 0 <= k < ms.len() ==> (#[trigger] ms[k]).fragment != fragment,
    ensures
        find_method(ms, fragment) is None,
    decreases ms.len(),
{
    if ms.len() > 0 {
        assert(forall|k: int|
            0 <= k < ms.len() - 1 ==> #[trigger] ms.skip(1)[k] == ms[k + 1]);
        lemma_find_none_method(ms.skip(1), fragment);
    }
}

/// The service analogue of `lemma_find_first_method`.
proof fn lemma_find_first_service(ss: Seq<ServiceV>, fragment: Seq<u8>, i: int)
    requires
        0 <= i < ss.len(),
        ss[i].fragment == fragment,
        forall|k: int| 0 <= k < i ==> (#[trigger] ss[k]).fragment != fragment,
    ensures
        find_service(ss, fragment) == Some(ss[i]),
    decreases ss.len(),
{
    if i > 0 {
        assert(forall|k: int|
            0 <= k < i - 1 ==> #[trigger] ss.skip(1)[k] == ss[k + 1]);
        assert(ss.skip(1)[i - 1] == ss[i]);
        lemma_find_first_service(ss.skip(1), fragment, i - 1);
    }
}

/// The service analogue of `lemma_find_none_method`.
proof fn lemma_find_none_service(ss: Seq<ServiceV>, fragment: Seq<u8>)
    requires
        forall|k: int| 0 <= k < ss.len() ==> (#[trigger] ss[k]).fragment != fragment,
    ensures
        find_service(ss, fragment) is None,
    decreases ss.len(),
{
    if ss.len() > 0 {
        assert(forall|k: int|
            0 <= k < ss.len() - 1 ==> #[trigger] ss.skip(1)[k] == ss[k + 1]);
        lemma_find_none_service(ss.skip(1), fragment);
    }
}

} // verus!
