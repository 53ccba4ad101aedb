//! The publish/resolve collaborator, in memory: publishing assigns the
//! final DID and persists a snapshot; resolution returns read snapshots;
//! batch resolution reports per-DID success or failure.

use crate::bytes::{bytes_eq, subvec};
use crate::document::{doc_wf, Document, DocumentV, Service, VerificationMethod};
use crate::errors::Error;
use crate::json::{clone_json, dec_of, write_dec, JsonValue};
use crate::storage::{JwsAlgorithm, KeyType, MemStorage};
use vstd::prelude::*;

verus! {

/// The DID assigned to the n-th published document.
pub open spec fn mem_did(n: u64) -> Seq<u8> {
    seq![100u8, 105u8, 100u8, 58u8, 109u8, 101u8, 109u8, 58u8] + dec_of(n)
}

/// Assigned DIDs are unique: distinct publication positions get distinct
/// DIDs, so snapshots published at different times never shadow each
/// other in the registry.
pub proof fn lemma_mem_did_injective(a: u64, b: u64)
    requires
        mem_did(a) == mem_did(b),
    ensures
        a == b,
{
    crate::json::lemma_seq_cancel(
        seq![100u8, 105u8, 100u8, 58u8, 109u8, 101u8, 109u8, 58u8],
        dec_of(a),
        dec_of(b),
    );
    crate::json::lemma_dec_injective(a, b);
}

/// The first stored document with the given DID.
pub open spec fn lookup_doc(ds: Seq<DocumentV>, did: Seq<u8>) -> Option<DocumentV>
    decreases ds.len(),
{
    if ds.len() == 0 {
        None
    } else if ds[0].did == did {
        Some(ds[0])
    } else {
        lookup_doc(ds.skip(1), did)
    }
}

/// A deep copy of a verification method.
fn clone_method(m: &VerificationMethod) -> (r: VerificationMethod)
    ensures
        r@ == m@,
{
    let mut rels: Vec<crate::document::MethodRelationship> = Vec::new();
    let n = m.relationships.len();
    let mut i: usize = 0;
    while i < n
        invariant
            i <= n,
            n == m.relationships@.len(),
            rels@ =~= m.relationships@.take(i as int),
        decreases n - i,
    {
        rels.push(m.relationships[i]);
        proof {
            assert(rels@ =~= m.relationships@.take(i + 1));
        }
        i += 1;
    }
    proof {
        assert(rels@ =~= m.relationships@);
    }
    VerificationMethod {
        fragment: subvec(&m.fragment, 0, m.fragment.len()),
        key_id: m.key_id,
        public_key: m.public_key,
        relationships: rels,
    }
}

/// A deep copy of a service.
fn clone_service(s: &Service) -> (r: Service)
    ensures
        r@ == s@,
{
    Service {
        fragment: subvec(&s.fragment, 0, s.fragment.len()),
        service_type: subvec(&s.service_type, 0, s.service_type.len()),
        endpoint: subvec(&s.endpoint, 0, s.endpoint.len()),
    }
}

/// A deep copy of a document: the read snapshot handed to resolvers.
pub fn clone_document(d: &Document) -> (r: Document)
    ensures
        r@ == d@,
{
    let mut methods: Vec<VerificationMethod> = Vec::new();
    let mn = d.methods.len();
    let mut i: usize = 0;
    while i < mn
        invariant
            i <= mn,
            mn == d.methods@.len(),
            methods@.len() == i,
            forall|q: int| 0 <= q < i ==> (#[trigger] methods@[q])@ == d.methods@[q]@,
        decreases mn - i,
    {
        methods.push(clone_method(&d.methods[i]));
        i += 1;
    }
    let mut services: Vec<Service> = Vec::new();
    let sn = d.services.len();
    let mut j: usize = 0;
    while j < sn
        invariant
            j <= sn,
            sn == d.services@.len(),
            services@.len() == j,
            forall|q: int| 0 <= q < j ==> (#[trigger] services@[q])@ == d.services@[q]@,
        decreases sn - j,
    {
        services.push(clone_service(&d.services[j]));
        j += 1;
    }
    let mut metadata: Vec<(Vec<u8>, JsonValue)> = Vec::new();
    let kn = d.metadata.len();
    let mut k: usize = 0;
    while k < kn
        invariant
            k <= kn,
            kn == d.metadata@.len(),
            metadata@.len() == k,
            forall|q: int|
                0 <= q < k ==> (#[trigger] metadata@[q]).0@ == d.metadata@[q].0@
                    && metadata@[q].1@ == d.metadata@[q].1@,
        decreases kn - k,
    {
        let key = subvec(&d.metadata[k].0, 0, d.metadata[k].0.len());
        let val = clone_json(&d.metadata[k].1);
        metadata.push((key, val));
        k += 1;
    }
    let r = Document { did: subvec(&d.did, 0, d.did.len()), methods, services, metadata };
    proof {
        assert(r@.methods =~= d@.methods);
        assert(r@.services =~= d@.services);
        crate::json::lemma_jmembers_index(r.metadata@);
        crate::json::lemma_jmembers_index(d.metadata@);
        assert(r@.metadata =~~= d@.metadata);
        assert(r@ =~~= d@);
    }
    r
}

/// The external ledger collaborator, in memory: a registry of published
/// document snapshots keyed by DID.
pub struct Ledger {
    /// The published snapshots, in publication order.
    pub entries: Vec<Document>,
}

impl Ledger {
    /// The views of the stored snapshots.
    pub open spec fn docs(&self) -> Seq<DocumentV> {
        Seq::new(self.entries@.len(), |i: int| self.entries@[i]@)
    }

    /// A fresh, empty ledger.
    pub fn new() -> (r: Ledger)
        ensures
            r.docs().len() == 0,
    {
        Ledger { entries: Vec::new() }
    }

    /// Publishes a document: assigns the final DID `did:mem:<n>` and
    /// persists a snapshot; the returned document is the authoritative
    /// new state.
    pub fn publish(&mut self, doc: Document) -> (r: Document)
        ensures
            r@.did == mem_did(old(self).docs().len() as u64),
            r@.methods == doc@.methods,
            r@.services == doc@.services,
            r@.metadata == doc@.metadata,
            final(self).docs() == old(self).docs() + seq![r@],
    {
        let mut did: Vec<u8> = Vec::new();
        did.push(100);
        did.push(105);
        did.push(100);
        did.push(58);
        did.push(109);
        did.push(101);
        did.push(109);
        did.push(58);
        write_dec(&mut did, self.entries.len() as u64);
        proof {
            assert(did@ =~= mem_did(old(self).docs().len() as u64));
        }
        let updated = Document {
            did,
            methods: doc.methods,
            services: doc.services,
            metadata: doc.metadata,
        };
        let snapshot = clone_document(&updated);
        let ghost before = self.docs();
        self.entries.push(snapshot);
        proof {
            assert(final(self).docs() =~= before + seq![updated@]);
            assert(updated@.methods =~= doc@.methods);
            assert(updated@.services =~= doc@.services);
        }
        updated
    }

    /// Replaces the stored snapshot with the same DID; fails with
    /// `NotFound` when no document with that DID was published.
    pub fn publish_update(&mut self, doc: Document) -> (r: Result<Document, Error>)
        ensures
            r matches Err(e) ==> e == Error::NotFound && *final(self) == *old(self) && lookup_doc(
                old(self).docs(),
                doc@.did,
            ) is None,
            r matches Ok(d) ==> d@ == doc@ && lookup_doc(old(self).docs(), doc@.did) is Some
                && final(self).docs().len() == old(self).docs().len() && lookup_doc(
                final(self).docs(),
                doc@.did,
            ) == Some(doc@),
    {
        let n = self.entries.len();
        let mut i: usize = 0;
        while i < n
            invariant
                i <= n,
                n == self.entries@.len(),
                *self == *old(self),
                forall|k: int| 0 <= k < i ==> (#[trigger] self.docs()[k]).did != doc@.did,
            decreases n - i,
        {
            if bytes_eq(&self.entries[i].did, &doc.did) {
                let snapshot = clone_document(&doc);
                let ghost before = self.docs();
                self.entries.set(i, snapshot);
                proof {
                    lemma_lookup_first(before, doc@.did, i as int);
                    lemma_lookup_set(before, self.docs(), doc@.did, i as int, doc@);
                }
                return Ok(doc);
            }
            i += 1;
        }
        proof {
            lemma_lookup_none(self.docs(), doc@.did);
        }
        Err(Error::NotFound)
    }

    /// Resolves a DID to a read snapshot of its document; fails with
    /// `NotFound` when no document with that DID was published.
    pub fn resolve(&self, did: &Vec<u8>) -> (r: Result<Document, Error>)
        ensures
            r matches Ok(d) ==> lookup_doc(self.docs(), did@) == Some(d@),
            r matches Err(e) ==> e == Error::NotFound && lookup_doc(self.docs(), did@) is None,
    {
        let n = self.entries.len();
        let mut i: usize = 0;
        while i < n
            invariant
                i <= n,
                n == self.entries@.len(),
                forall|k: int| 0 <= k < i ==> (#[trigger] self.docs()[k]).did != did@,
            decreases n - i,
        {
            if bytes_eq(&self.entries[i].did, did) {
                proof {
                    lemma_lookup_first(self.docs(), did@, i as int);
                }
                return Ok(clone_document(&self.entries[i]));
            }
            i += 1;
        }
        proof {
            lemma_lookup_none(self.docs(), did@);
        }
        Err(Error::NotFound)
    }

    /// Resolves a batch of DIDs; each entry reports its own outcome, so
    /// one missing DID does not abort the rest.
    pub fn resolve_multiple(&self, dids: &Vec<Vec<u8>>) -> (r: Vec<(Vec<u8>, Result<
        Document,
        Error,
    >)>)
        ensures
            r@.len() == dids@.len(),
            forall|i: int|
                0 <= i < r@.len() ==> (#[trigger] r@[i]).0@ == dids@[i]@ && (match r@[i].1 {
                    Ok(d) => lookup_doc(self.docs(), dids@[i]@) == Some(d@),
                    Err(e) => e == Error::NotFound && lookup_doc(self.docs(), dids@[i]@) is None,
                }),
    {
        let n = dids.len();
        let mut out: Vec<(Vec<u8>, Result<Document, Error>)> = Vec::new();
        let mut i: usize = 0;
        while i < n
            invariant
                i <= n,
                n == dids@.len(),
                out@.len() == i,
                forall|k: int|
                    0 <= k < i ==> (#[trigger] out@[k]).0@ == dids@[k]@ && (match out@[k].1 {
                        Ok(d) => lookup_doc(self.docs(), dids@[k]@) == Some(d@),
                        Err(e) => e == Error::NotFound && lookup_doc(
                            self.docs(),
                            dids@[k]@,
                        ) is None,
                    }),
            decreases n - i,
        {
            let did = subvec(&dids[i], 0, dids[i].len());
            proof {
                assert(did@ =~= dids@[i as int]@);
            }
            let outcome = self.resolve(&did);
            out.push((did, outcome));
            i += 1;
        }
        out
    }
}

/// A hit at the first matching position equals the recursive lookup.
proof fn lemma_lookup_first(ds: Seq<DocumentV>, did: Seq<u8>, i: int)
    requires
        0 <= i < ds.len(),
        ds[i].did == did,
        forall|k: int| 0 <= k < i ==> (#[trigger] ds[k]).did != did,
    ensures
        lookup_doc(ds, did) == Some(ds[i]),
    decreases ds.len(),
{
    if i > 0 {
        assert(forall|k: int| 0 <= k < i - 1 ==> #[trigger] ds.skip(1)[k] == ds[k + 1]);
        assert(ds.skip(1)[i - 1] == ds[i]);
        lemma_lookup_first(ds.skip(1), did, i - 1);
    }
}

/// No position matches: the recursive lookup is empty.
proof fn lemma_lookup_none(ds: Seq<DocumentV>, did: Seq<u8>)
    requires
        forall|k: int| 0 <= k < ds.len() ==> (#[trigger] ds[k]).did != did,
    ensures
        lookup_doc(ds, did) is None,
    decreases ds.len(),
{
    if ds.len() > 0 {
        assert(forall|k: int|
            0 <= k < ds.len() - 1 ==> #[trigger] ds.skip(1)[k] == ds[k + 1]);
        lemma_lookup_none(ds.skip(1), did);
    }
}

/// Replacing the first match updates what the lookup returns.
proof fn lemma_lookup_set(
    before: Seq<DocumentV>,
    after: Seq<DocumentV>,
    did: Seq<u8>,
    i: int,
    d: DocumentV,
)
    requires
        0 <= i < before.len(),
        after.len() == before.len(),
        after[i] == d,
        d.did == did,
        forall|k: int| 0 <= k < after.len() && k != i ==> after[k] == before[k],
        forall|k: int| 0 <= k < i ==> (#[trigger] before[k]).did != did,
    ensures
        lookup_doc(after, did) == Some(d),
{
    assert(forall|k: int| 0 <= k < i ==> (#[trigger] after[k]).did != did);
    lemma_lookup_first(after, did, i);
}

/// Creates a fresh, method-less document and publishes it: the placeholder
/// DID is replaced by the final one and the returned document is the
/// authoritative published state. The key store plays no part in this
/// call.
pub fn create_did_document(ledger: &mut Ledger) -> (r: Document)
    ensures
        r@.did == mem_did(old(ledger).docs().len() as u64),
        r@.methods.len() == 0,
        r@.services.len() == 0,
        r@.metadata.len() == 0,
        doc_wf(r@),
        final(ledger).docs() == old(ledger).docs() + seq![r@],
        lookup_doc(final(ledger).docs(), r@.did) is Some,
{
    let network: Vec<u8> = vec![109, 101, 109];
    let doc = Document::new(&network);
    let published = ledger.publish(doc);
    proof {
        let ds = final(ledger).docs();
        assert(ds[ds.len() - 1] == published@);
        lemma_lookup_somewhere(ds, published@.did, ds.len() - 1);
    }
    published
}

/// Creates a fresh document with one Ed25519 verification method under
/// the fragment `key-1` (generating and persisting its key), publishes
/// it, and returns the published document with the fragment to sign by.
pub fn create_did_document_with_method(ledger: &mut Ledger, storage: &mut MemStorage) -> (r:
    Result<
    (Document, Vec<u8>),
    Error,
>)
    ensures
        r matches Err(e) ==> e == Error::KeyGenerationFailed && *final(ledger) == *old(ledger)
            && *final(storage) == *old(storage),
        r matches Ok(t) ==> {
            &&& doc_wf(t.0@)
            &&& t.0@.did == mem_did(old(ledger).docs().len() as u64)
            &&& t.0@.methods.len() == 1
            &&& t.0@.methods[0].fragment == t.1@
            &&& t.0@.methods[0].public_key == crate::crypto::ed25519_pk_of(
                final(storage).sk_at(t.0@.methods[0].key_id),
            )
            &&& t.0@.methods[0].key_id < final(storage).key_count()
            &&& final(storage).key_count() == old(storage).key_count() + 1
            &&& forall|q: u64|
                q < old(storage).key_count() ==> final(storage).sk_at(q) == old(storage).sk_at(q)
            &&& t.0@.services.len() == 0
            &&& t.0@.metadata.len() == 0
            &&& final(ledger).docs() == old(ledger).docs() + seq![t.0@]
            &&& lookup_doc(final(ledger).docs(), t.0@.did) is Some
        },
{
    let network: Vec<u8> = vec![109, 101, 109];
    let mut doc = Document::new(&network);
    let fragment: Vec<u8> = vec![107, 101, 121, 45, 49];
    let frag_ret = match doc.generate_method(
        storage,
        KeyType::Ed25519,
        JwsAlgorithm::EdDSA,
        &fragment,
        crate::document::MethodScope::VerificationMethod,
    ) {
        Ok(f) => f,
        Err(_) => {
            return Err(Error::KeyGenerationFailed);
        },
    };
    let published = ledger.publish(doc);
    proof {
        let ds = final(ledger).docs();
        assert(ds[ds.len() - 1] == published@);
        lemma_lookup_somewhere(ds, published@.did, ds.len() - 1);
    }
    Ok((published, frag_ret))
}

/// A match anywhere makes the lookup succeed.
proof fn lemma_lookup_somewhere(ds: Seq<DocumentV>, did: Seq<u8>, i: int)
    requires
        0 <= i < ds.len(),
        ds[i].did == did,
    ensures
        lookup_doc(ds, did) is Some,
    decreases ds.len(),
{
    if ds[0].did != did {
        assert(i > 0);
        assert(ds.skip(1)[i - 1] == ds[i]);
        lemma_lookup_somewhere(ds.skip(1), did, i - 1);
    }
}

} // verus!
