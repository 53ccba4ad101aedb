//! The validation pipeline: structural, temporal, signature, revocation
//! and relationship checks for credentials and presentations, under a
//! shared failure policy.
//!
//! Presentation validation never implicitly validates the embedded
//! credentials: callers resolve each embedded credential's issuer and run
//! credential validation separately, so a batch can proceed in parallel.

use crate::b64::b64_decode;
use crate::bitmap::{bit_at, compact, RevocationBitmap};
use crate::bytes::{bytes_eq, push_all, subvec};
use crate::credential::{cred_wf, Credential, CredentialV};
use crate::crypto::{ed25519_verifies, ed25519_verify};
use crate::document::{doc_wf, find_method, find_service, Document, DocumentV, MethodV};
use crate::errors::{Error, FailFast};
use crate::json::pr_val;
use crate::jwt::{cred_jwt_bytes, decode_credential_jwt, header_jval, jws_signing_input, kid_of,
    Jwt};
use crate::presentation::{decode_presentation_jwt, pres_jwt_bytes, pres_payload_jval, pres_wf,
    DecodedPresentation, PresentationV};
use vstd::prelude::*;

verus! {

/// What a credential validation call checks, and against which instant.
pub struct CredentialValidationOptions {
    /// The validation instant, seconds since the epoch.
    pub now: u64,
    /// Whether to require the issuance timestamp not in the future.
    pub check_issuance_date: bool,
    /// Whether to require the expiration timestamp not in the past.
    pub check_expiration_date: bool,
    /// When set, every subject must carry exactly this holder as its id.
    pub subject_holder: Option<Vec<u8>>,
}

/// The mathematical mirror of credential validation options.
#[verifier::ext_equal]
pub struct CredOptsV {
    /// The validation instant.
    pub now: u64,
    /// Whether issuance is checked.
    pub check_issuance_date: bool,
    /// Whether expiration is checked.
    pub check_expiration_date: bool,
    /// The holder every subject must name, if any.
    pub subject_holder: Option<Seq<u8>>,
}

impl View for CredentialValidationOptions {
    type V = CredOptsV;

    open spec fn view(&self) -> CredOptsV {
        CredOptsV {
            now: self.now,
            check_issuance_date: self.check_issuance_date,
            check_expiration_date: self.check_expiration_date,
            subject_holder: match self.subject_holder {
                Some(h) => Some(h@),
                None => None,
            },
        }
    }
}

/// What a presentation validation call checks.
pub struct PresentationValidationOptions {
    /// The validation instant, seconds since the epoch.
    pub now: u64,
    /// The expected challenge the embedded nonce must equal.
    pub challenge: Vec<u8>,
}

/// The first method whose DID URL equals the token's key reference.
pub open spec fn method_matching_kid(doc: DocumentV, kid: Seq<u8>) -> Option<MethodV> {
    match_kid_in(doc.methods, doc.did, kid)
}

/// The recursive scan behind `method_matching_kid`.
pub open spec fn match_kid_in(ms: Seq<MethodV>, did: Seq<u8>, kid: Seq<u8>) -> Option<MethodV>
    decreases ms.len(),
{
    if ms.len() == 0 {
        None
    } else if kid == kid_of(did, ms[0].fragment) {
        Some(ms[0])
    } else {
        match_kid_in(ms.skip(1), did, kid)
    }
}

/// The signature check: a method must match the key reference and the
/// signature must verify under its public key.
pub open spec fn sig_errors(kid: Seq<u8>, si: Seq<u8>, sig: Seq<u8>, doc: DocumentV) -> Seq<
    Error,
> {
    match method_matching_kid(doc, kid) {
        Some(m) => if ed25519_verifies(m.public_key, si, sig) {
            Seq::empty()
        } else {
            seq![Error::SignatureInvalid]
        },
        None => seq![Error::SignatureInvalid],
    }
}

/// The issuer check: the credential's issuer must be the issuer
/// document's DID.
pub open spec fn iss_errors(c: CredentialV, doc: DocumentV) -> Seq<Error> {
    if c.issuer == doc.did {
        Seq::empty()
    } else {
        seq![Error::IssuerMismatch]
    }
}

/// The subject-holder relationship check: when a holder is designated,
/// every subject must carry exactly that holder as its id.
pub open spec fn rel_errors(c: CredentialV, opts: CredOptsV) -> Seq<Error> {
    match opts.subject_holder {
        Some(h) => if forall|i: int|
            0 <= i < c.subjects.len() ==> (#[trigger] c.subjects[i]).id == Some(h) {
            Seq::empty()
        } else {
            seq![Error::SubjectHolderRelationshipViolation]
        },
        None => Seq::empty(),
    }
}

/// The temporal checks: issuance not in the future, expiration not in the
/// past, each only when present and required.
pub open spec fn time_errors(c: CredentialV, opts: CredOptsV) -> Seq<Error> {
    (match c.issuance_date {
        Some(t) => if opts.check_issuance_date && t > opts.now {
            seq![Error::IssuanceDateInFuture]
        } else {
            Seq::empty()
        },
        None => Seq::empty(),
    }) + (match c.expiration_date {
        Some(t) => if opts.check_expiration_date && t < opts.now {
            seq![Error::CredentialExpired]
        } else {
            Seq::empty()
        },
        None => Seq::empty(),
    })
}

/// The revocation check: when the credential carries a status pointer,
/// the indicated bitmap service is read and the credential's bit tested.
pub open spec fn status_errors(c: CredentialV, doc: DocumentV) -> Seq<Error> {
    match c.status {
        Some(st) => {
            match find_service(doc.services, st.service_fragment) {
                Some(sv) => {
                    match b64_decode(sv.endpoint) {
                        Some(bits) => if !compact(bits) {
                            seq![Error::InvalidEncoding]
                        } else if bit_at(bits, st.index) {
                            seq![Error::Revoked]
                        } else {
                            Seq::empty()
                        },
                        None => seq![Error::InvalidEncoding],
                    }
                },
                None => seq![Error::ServiceNotFound],
            }
        },
        None => Seq::empty(),
    }
}

/// Every failing check of the credential pipeline, in pipeline order.
pub open spec fn cred_errors(
    kid: Seq<u8>,
    c: CredentialV,
    sig: Seq<u8>,
    doc: DocumentV,
    opts: CredOptsV,
) -> Seq<Error> {
    sig_errors(
        kid,
        jws_signing_input(
            pr_val(header_jval(kid)),
            pr_val(crate::credential::cred_payload_jval(c)),
        ),
        sig,
        doc,
    ) + iss_errors(c, doc) + rel_errors(c, opts) + time_errors(c, opts) + status_errors(c, doc)
}

/// Whether a token is a canonical credential token at all.
pub open spec fn is_cred_token(j: Seq<u8>) -> bool {
    exists|kid: Seq<u8>, c: CredentialV, sig: Seq<u8>|
        j == cred_jwt_bytes(kid, c, sig) && cred_wf(c)
}

/// A scan hit at the first matching position equals the recursive scan.
proof fn lemma_match_kid_first(ms: Seq<MethodV>, did: Seq<u8>, kid: Seq<u8>, i: int)
    requires
        0 <= i < ms.len(),
        kid == kid_of(did, ms[i].fragment),
        forall|k: int| 0 <= k < i ==> kid != kid_of(did, (#[trigger] ms[k]).fragment),
    ensures
        match_kid_in(ms, did, kid) == Some(ms[i]),
    decreases ms.len(),
{
    if i > 0 {
        assert(forall|k: int|
            0 <= k < i - 1 ==> #[trigger] ms.skip(1)[k] == ms[k + 1]);
        assert(ms.skip(1)[i - 1] == ms[i]);
        lemma_match_kid_first(ms.skip(1), did, kid, i - 1);
    }
}

/// No scanned position matches: the recursive scan is empty.
proof fn lemma_match_kid_none(ms: Seq<MethodV>, did: Seq<u8>, kid: Seq<u8>)
    requires
        forall|k: int| 0 <= k < ms.len() ==> kid != kid_of(did, (#[trigger] ms[k]).fragment),
    ensures
        match_kid_in(ms, did, kid) is None,
    decreases ms.len(),
{
    if ms.len() > 0 {
        assert(forall|k: int|
            0 <= k < ms.len() - 1 ==> #[trigger] ms.skip(1)[k] == ms[k + 1]);
        lemma_match_kid_none(ms.skip(1), did, kid);
    }
}

/// Finds the method whose DID URL is the key reference.
#[verifier::loop_isolation(false)]
fn resolve_kid_method(doc: &Document, kid: &Vec<u8>) -> (r: Option<usize>)
    ensures
        r matches Some(ix) ==> ix < doc@.methods.len() && method_matching_kid(doc@, kid@) == Some(
            doc@.methods[ix as int],
        ),
        r is None ==> method_matching_kid(doc@, kid@) is None,
{
    let n = doc.methods.len();
    let mut i: usize = 0;
    while i < n
        invariant
            i <= n,
            forall|k: int|
                0 <= k < i ==> kid@ != kid_of(doc@.did, (#[trigger] doc@.methods[k]).fragment),
        decreases n - i,
    {
        let mut expected = subvec(&doc.did, 0, doc.did.len());
        expected.push(35);
        push_all(&mut expected, &doc.methods[i].fragment);
        proof {
            assert(expected@ =~= kid_of(doc@.did, doc@.methods[i as int].fragment));
        }
        if bytes_eq(kid, &expected) {
            proof {
                lemma_match_kid_first(doc@.methods, doc@.did, kid@, i as int);
            }
            return Some(i);
        }
        i += 1;
    }
    proof {
        lemma_match_kid_none(doc@.methods, doc@.did, kid@);
    }
    None
}

/// Validates a credential token against its issuer's document.
///
/// Decodes the token (`MalformedJwt` when it is not a canonical
/// credential token), then runs the signature, issuer, relationship,
/// temporal and revocation checks; under `FirstError` only the first
/// failing check is reported, under `AllErrors` all of them, in pipeline
/// order.
#[verifier::loop_isolation(false)]
#[verifier::rlimit(100)]
#[verifier::spinoff_prover]
pub fn validate_credential(
    jwt: &Jwt,
    issuer_doc: &Document,
    options: &CredentialValidationOptions,
    fail_fast: FailFast,
) -> (r: Result<Credential, Vec<Error>>)
    ensures
        !is_cred_token(jwt@) ==> (r matches Err(es) && es@ == seq![Error::MalformedJwt]),
        forall|kid: Seq<u8>, c: CredentialV, sig: Seq<u8>|
            jwt@ == cred_jwt_bytes(kid, c, sig) && cred_wf(c) ==> {
                let errs = cred_errors(kid, c, sig, issuer_doc@, options@);
                &&& (errs.len() == 0 ==> (r matches Ok(rc) && rc@ == c))
                &&& (errs.len() > 0 && fail_fast == FailFast::FirstError ==> (r matches Err(es)
                    && es@ == seq![errs[0]]))
                &&& (errs.len() > 0 && fail_fast == FailFast::AllErrors ==> (r matches Err(es)
                    && es@ == errs))
            },
{
    let d = match decode_credential_jwt(jwt) {
        Ok(d) => d,
        Err(_) => {
            proof {
                if is_cred_token(jwt@) {
                    let (kid, c, sig): (Seq<u8>, CredentialV, Seq<u8>) = choose|
                        kid: Seq<u8>,
                        c: CredentialV,
                        sig: Seq<u8>,
                    | jwt@ == cred_jwt_bytes(kid, c, sig) && cred_wf(c);
                    assert(false);
                }
            }
            let mut es: Vec<Error> = Vec::new();
            es.push(Error::MalformedJwt);
            proof {
                assert(es@ =~= seq![Error::MalformedJwt]);
            }
            return Err(es);
        },
    };
    let ghost gkid = d.kid@;
    let ghost gc = d.credential@;
    let ghost gsig = d.signature@;
    let ghost errs_spec = cred_errors(gkid, gc, gsig, issuer_doc@, options@);
    let mut errs: Vec<Error> = Vec::new();
    // Signature check.
    match resolve_kid_method(issuer_doc, &d.kid) {
        Some(ix) => {
            let ok = ed25519_verify(
                &issuer_doc.methods[ix].public_key,
                &d.signing_input,
                &d.signature,
            );
            if !ok {
                errs.push(Error::SignatureInvalid);
            }
        },
        None => {
            errs.push(Error::SignatureInvalid);
        },
    }
    let ghost e_sig = sig_errors(
        gkid,
        jws_signing_input(
            pr_val(header_jval(gkid)),
            pr_val(crate::credential::cred_payload_jval(gc)),
        ),
        gsig,
        issuer_doc@,
    );
    proof {
        assert(errs@ =~= e_sig);
    }
    // Issuer check.
    if !bytes_eq(&d.credential.issuer, &issuer_doc.did) {
        errs.push(Error::IssuerMismatch);
    }
    proof {
        assert(errs@ =~= e_sig + iss_errors(gc, issuer_doc@));
    }
    // Subject-holder relationship check.
    match &options.subject_holder {
        Some(h) => {
            let sn = d.credential.subjects.len();
            let mut q: usize = 0;
            let mut all_match = true;
            while q < sn
                invariant
                    q <= sn,
                    sn == d.credential.subjects@.len(),
                    all_match <==> forall|k: int|
                        0 <= k < q ==> (#[trigger] gc.subjects[k]).id == Some(h@),
                decreases sn - q,
            {
                match &d.credential.subjects[q].id {
                    Some(sid) => {
                        if !bytes_eq(sid, h) {
                            proof {
                                assert(gc.subjects[q as int].id != Some(h@));
                            }
                            all_match = false;
                        }
                    },
                    None => {
                        proof {
                            assert(gc.subjects[q as int].id is None);
                        }
                        all_match = false;
                    },
                }
                q += 1;
            }
            if !all_match {
                errs.push(Error::SubjectHolderRelationshipViolation);
            }
        },
        None => {},
    }
    proof {
        assert(errs@ =~= e_sig + iss_errors(gc, issuer_doc@) + rel_errors(gc, options@));
    }
    // Temporal checks.
    match d.credential.issuance_date {
        Some(t) => {
            if options.check_issuance_date && t > options.now {
                errs.push(Error::IssuanceDateInFuture);
            }
        },
        None => {},
    }
    match d.credential.expiration_date {
        Some(t) => {
            if options.check_expiration_date && t < options.now {
                errs.push(Error::CredentialExpired);
            }
        },
        None => {},
    }
    proof {
        assert(errs@ =~= e_sig + iss_errors(gc, issuer_doc@) + rel_errors(gc, options@)
            + time_errors(gc, options@));
    }
    // Revocation check.
    match &d.credential.status {
        Some(st) => {
            match issuer_doc.resolve_service(&st.service_fragment) {
                Ok(six) => {
                    match RevocationBitmap::deserialize(&issuer_doc.services[six].endpoint) {
                        Ok(bm) => {
                            if bm.is_revoked(st.index) {
                                errs.push(Error::Revoked);
                            }
                        },
                        Err(_) => {
                            errs.push(Error::InvalidEncoding);
                        },
                    }
                },
                Err(_) => {
                    errs.push(Error::ServiceNotFound);
                },
            }
        },
        None => {},
    }
    proof {
        assert(errs@ =~= errs_spec);
    }
    if errs.len() == 0 {
        Ok(d.credential)
    } else if fail_fast == FailFast::FirstError {
        let first = errs[0];
        let mut es: Vec<Error> = Vec::new();
        es.push(first);
        proof {
            assert(es@ =~= seq![errs_spec[0]]);
        }
        Err(es)
    } else {
        Err(errs)
    }
}

/// Every failing check of the presentation pipeline, in pipeline order:
/// the holder's signature, the expected challenge, the expiry.
pub open spec fn pres_errors(
    kid: Seq<u8>,
    p: PresentationV,
    nonce: Seq<u8>,
    exp: Option<u64>,
    sig: Seq<u8>,
    doc: DocumentV,
    now: u64,
    challenge: Seq<u8>,
) -> Seq<Error> {
    sig_errors(
        kid,
        jws_signing_input(pr_val(header_jval(kid)), pr_val(pres_payload_jval(p, nonce, exp))),
        sig,
        doc,
    ) + (if nonce == challenge {
        Seq::<Error>::empty()
    } else {
        seq![Error::ChallengeMismatch]
    }) + (match exp {
        Some(t) => if t < now {
            seq![Error::PresentationExpired]
        } else {
            Seq::<Error>::empty()
        },
        None => Seq::<Error>::empty(),
    })
}

/// Whether a token is a canonical presentation token at all.
pub open spec fn is_pres_token(j: Seq<u8>) -> bool {
    exists|kid: Seq<u8>, p: PresentationV, nonce: Seq<u8>, exp: Option<u64>, sig: Seq<u8>|
        j == pres_jwt_bytes(kid, p, nonce, exp, sig) && pres_wf(p)
}

/// Validates a presentation token against the holder's document: its own
/// signature, the expected challenge, and its expiry. The embedded
/// credentials are extracted but deliberately not validated here.
#[verifier::rlimit(100)]
pub fn validate_presentation(
    jwt: &Jwt,
    holder_doc: &Document,
    options: &PresentationValidationOptions,
    fail_fast: FailFast,
) -> (r: Result<DecodedPresentation, Vec<Error>>)
    ensures
        !is_pres_token(jwt@) ==> (r matches Err(es) && es@ == seq![Error::MalformedJwt]),
        forall|kid: Seq<u8>, p: PresentationV, nonce: Seq<u8>, exp: Option<u64>, sig: Seq<u8>|
            jwt@ == pres_jwt_bytes(kid, p, nonce, exp, sig) && pres_wf(p) ==> {
                let errs = pres_errors(
                    kid,
                    p,
                    nonce,
                    exp,
                    sig,
                    holder_doc@,
                    options.now,
                    options.challenge@,
                );
                &&& (errs.len() == 0 ==> (r matches Ok(d) && d.presentation@ == p && d.nonce@
                    == nonce && d.expiration == exp))
                &&& (errs.len() > 0 && fail_fast == FailFast::FirstError ==> (r matches Err(es)
                    && es@ == seq![errs[0]]))
                &&& (errs.len() > 0 && fail_fast == FailFast::AllErrors ==> (r matches Err(es)
                    && es@ == errs))
            },
{
    let d = match decode_presentation_jwt(jwt) {
        Ok(d) => d,
        Err(_) => {
            proof {
                if is_pres_token(jwt@) {
                    let (kid, p, nonce, exp, sig): (
                        Seq<u8>,
                        PresentationV,
                        Seq<u8>,
                        Option<u64>,
                        Seq<u8>,
                    ) = choose|
                        kid: Seq<u8>,
                        p: PresentationV,
                        nonce: Seq<u8>,
                        exp: Option<u64>,
                        sig: Seq<u8>,
                    | jwt@ == pres_jwt_bytes(kid, p, nonce, exp, sig) && pres_wf(p);
                    assert(false);
                }
            }
            let mut es: Vec<Error> = Vec::new();
            es.push(Error::MalformedJwt);
            proof {
                assert(es@ =~= seq![Error::MalformedJwt]);
            }
            return Err(es);
        },
    };
    let ghost gkid = d.kid@;
    let ghost gp = d.presentation@;
    let ghost gn = d.nonce@;
    let ghost ge = d.expiration;
    let ghost gsig = d.signature@;
    let ghost errs_spec = pres_errors(
        gkid,
        gp,
        gn,
        ge,
        gsig,
        holder_doc@,
        options.now,
        options.challenge@,
    );
    let mut errs: Vec<Error> = Vec::new();
    match resolve_kid_method(holder_doc, &d.kid) {
        Some(ix) => {
            let ok = ed25519_verify(
                &holder_doc.methods[ix].public_key,
                &d.signing_input,
                &d.signature,
            );
            if !ok {
                errs.push(Error::SignatureInvalid);
            }
        },
        None => {
            errs.push(Error::SignatureInvalid);
        },
    }
    let ghost e_sig = sig_errors(
        gkid,
        jws_signing_input(pr_val(header_jval(gkid)), pr_val(pres_payload_jval(gp, gn, ge))),
        gsig,
        holder_doc@,
    );
    proof {
        assert(errs@ =~= e_sig);
    }
    if !bytes_eq(&d.nonce, &options.challenge) {
        errs.push(Error::ChallengeMismatch);
    }
    match d.expiration {
        Some(t) => {
            if t < options.now {
                errs.push(Error::PresentationExpired);
            }
        },
        None => {},
    }
    proof {
        assert(errs@ =~= errs_spec);
    }
    if errs.len() == 0 {
        Ok(d)
    } else if fail_fast == FailFast::FirstError {
        let first = errs[0];
        let mut es: Vec<Error> = Vec::new();
        es.push(first);
        proof {
            assert(es@ =~= seq![errs_spec[0]]);
        }
        Err(es)
    } else {
        Err(errs)
    }
}

/// Signature soundness for issued tokens: a token whose signature
/// verifies under the method its key reference names, validated against
/// the correct issuer document with every remaining check satisfied,
/// produces no error.
pub proof fn lemma_signature_soundness(
    kid: Seq<u8>,
    c: CredentialV,
    sig: Seq<u8>,
    doc: DocumentV,
    fragment: Seq<u8>,
    m: MethodV,
    opts: CredOptsV,
)
    requires
        doc_wf(doc),
        find_method(doc.methods, fragment) == Some(m),
        kid == kid_of(doc.did, fragment),
        ed25519_verifies(
            m.public_key,
            jws_signing_input(
                pr_val(header_jval(kid)),
                pr_val(crate::credential::cred_payload_jval(c)),
            ),
            sig,
        ),
        c.issuer == doc.did,
        rel_errors(c, opts) == Seq::<Error>::empty(),
        time_errors(c, opts) == Seq::<Error>::empty(),
        status_errors(c, doc) == Seq::<Error>::empty(),
    ensures
        cred_errors(kid, c, sig, doc, opts) == Seq::<Error>::empty(),
{
    lemma_matching_method_of_find(doc, fragment, m);
    assert(cred_errors(kid, c, sig, doc, opts) =~= Seq::<Error>::empty());
}

/// A method found by fragment is the one a key reference built from that
/// fragment resolves to.
pub proof fn lemma_matching_method_of_find(doc: DocumentV, fragment: Seq<u8>, m: MethodV)
    requires
        find_method(doc.methods, fragment) == Some(m),
    ensures
        method_matching_kid(doc, kid_of(doc.did, fragment)) == Some(m),
{
    lemma_find_gives_match(doc.methods, doc.did, fragment, m);
}

/// The scan by key reference agrees with the scan by fragment.
proof fn lemma_find_gives_match(ms: Seq<MethodV>, did: Seq<u8>, fragment: Seq<u8>, m: MethodV)
    requires
        find_method(ms, fragment) == Some(m),
    ensures
        match_kid_in(ms, did, fragment_kid(did, fragment)) == Some(m),
    decreases ms.len(),
{
    let kid = fragment_kid(did, fragment);
    if ms.len() > 0 {
        if ms[0].fragment == fragment {
            assert(kid == kid_of(did, ms[0].fragment));
        } else {
            assert(kid != kid_of(did, ms[0].fragment)) by {
                if kid == kid_of(did, ms[0].fragment) {
                    crate::json::lemma_seq_cancel(
                        did + seq![35u8],
                        fragment,
                        ms[0].fragment,
                    );
                    assert((did + seq![35u8]) + fragment =~= kid_of(did, fragment));
                    assert((did + seq![35u8]) + ms[0].fragment =~= kid_of(did, ms[0].fragment));
                }
            }
            lemma_find_gives_match(ms.skip(1), did, fragment, m);
        }
    }
}

/// The key reference built from a DID and fragment; a naming alias used
/// by the scan lemmas.
pub open spec fn fragment_kid(did: Seq<u8>, fragment: Seq<u8>) -> Seq<u8> {
    kid_of(did, fragment)
}

} // verus!
