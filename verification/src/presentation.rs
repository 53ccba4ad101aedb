//! The presentation model: one holder wrapping credential tokens, signed
//! with a caller-supplied replay-protection nonce and an expiry.

use crate::bytes::{push_all, subvec};
use crate::credential::{is_uri, k_exp, k_iss, lemma_types_extract, lemma_types_inverse,
    opt_num_member, types_items, types_of_items, uri_ok};
use crate::document::{find_method, Document};
use crate::errors::Error;
use crate::json::{jmembers_of, lemma_jmembers_index, lemma_pr_val_unique, parse_value, pr_val,
    write_jval, JVal, JsonValue};
use crate::jwt::{header_bytes, header_jval, jws_bytes, jws_signing_input, jws_split, kid_of,
    lemma_header_extract, lemma_header_inverse, value_to_kid, Jwt};
use crate::storage::MemStorage;
use vstd::prelude::*;

verus! {

/// The claim key `nonce`.
pub open spec fn k_nonce() -> Seq<u8> {
    seq![110u8, 111u8, 110u8, 99u8, 101u8]
}

/// The claim key `vp`.
pub open spec fn k_vp() -> Seq<u8> {
    seq![118u8, 112u8]
}

/// The claim key `verifiableCredential`.
pub open spec fn k_vcred() -> Seq<u8> {
    seq![
        118u8,
        101u8,
        114u8,
        105u8,
        102u8,
        105u8,
        97u8,
        98u8,
        108u8,
        101u8,
        67u8,
        114u8,
        101u8,
        100u8,
        101u8,
        110u8,
        116u8,
        105u8,
        97u8,
        108u8,
    ]
}

/// A presentation: a holder and the credential tokens it embeds.
pub struct Presentation {
    /// The holder's DID or URI.
    pub holder: Vec<u8>,
    /// The embedded credential tokens, in order.
    pub credentials: Vec<Jwt>,
}

/// The mathematical mirror of a presentation.
#[verifier::ext_equal]
pub struct PresentationV {
    /// The holder's DID or URI.
    pub holder: Seq<u8>,
    /// The embedded credential tokens' bytes.
    pub credentials: Seq<Seq<u8>>,
}

impl View for Presentation {
    type V = PresentationV;

    open spec fn view(&self) -> PresentationV {
        PresentationV {
            holder: self.holder@,
            credentials: Seq::new(self.credentials@.len(), |i: int| self.credentials@[i]@),
        }
    }
}

/// A well-formed presentation: the holder is a well-formed URI.
pub open spec fn pres_wf(p: PresentationV) -> bool {
    uri_ok(p.holder)
}

/// The JWT claim set of a presentation, with the signing nonce and the
/// optional expiry.
pub open spec fn pres_payload_jval(
    p: PresentationV,
    nonce: Seq<u8>,
    expiration: Option<u64>,
) -> JVal {
    JVal::Obj(
        seq![(k_iss(), JVal::Str(p.holder)), (k_nonce(), JVal::Str(nonce))] + opt_num_member(
            k_exp(),
            expiration,
        ) + seq![
            (
                k_vp(),
                JVal::Obj(seq![(k_vcred(), JVal::Arr(types_items(p.credentials)))]),
            ),
        ],
    )
}

/// The complete token carrying a presentation, signed by the named key.
pub open spec fn pres_jwt_bytes(
    kid: Seq<u8>,
    p: PresentationV,
    nonce: Seq<u8>,
    expiration: Option<u64>,
    sig: Seq<u8>,
) -> Seq<u8> {
    jws_bytes(pr_val(header_jval(kid)), pr_val(pres_payload_jval(p, nonce, expiration)), sig)
}

/// The parts encoded in a presentation claim set, when it has exactly the
/// canonical shape with a well-formed holder.
pub open spec fn pres_of_jval(v: JVal) -> Option<(Seq<u8>, Seq<u8>, Option<u64>, Seq<Seq<u8>>)> {
    match v {
        JVal::Obj(m) => {
            if (m.len() == 3 || m.len() == 4) && m[0].0 == k_iss() && m[1].0 == k_nonce() && m[
                m.len() - 1
            ].0 == k_vp() {
                match (m[0].1, m[1].1, m[m.len() - 1].1) {
                    (JVal::Str(holder), JVal::Str(nonce), JVal::Obj(vpm)) => {
                        if vpm.len() == 1 && vpm[0].0 == k_vcred() {
                            match vpm[0].1 {
                                JVal::Arr(items) => {
                                    match types_of_items(items) {
                                        Some(creds) => {
                                            if m.len() == 4 {
                                                if m[2].0 == k_exp() {
                                                    match m[2].1 {
                                                        JVal::Num(t) => if uri_ok(holder) {
                                                            Some((holder, nonce, Some(t), creds))
                                                        } else {
                                                            None
                                                        },
                                                        _ => None,
                                                    }
                                                } else {
                                                    None
                                                }
                                            } else if uri_ok(holder) {
                                                Some((holder, nonce, None, creds))
                                            } else {
                                                None
                                            }
                                        },
                                        None => None,
                                    }
                                },
                                _ => None,
                            }
                        } else {
                            None
                        }
                    },
                    _ => None,
                }
            } else {
                None
            }
        },
        _ => None,
    }
}

/// Extraction inverts construction for well-formed presentations.
pub proof fn lemma_pres_extract(p: PresentationV, nonce: Seq<u8>, expiration: Option<u64>)
    requires
        pres_wf(p),
    ensures
        pres_of_jval(pres_payload_jval(p, nonce, expiration)) == Some(
            (p.holder, nonce, expiration, p.credentials),
        ),
{
    let m = pres_payload_jval(p, nonce, expiration)->Obj_0;
    lemma_types_extract(p.credentials);
    match expiration {
        Option::Some(t) => {
            assert(m.len() == 4);
            assert(m[0] == (k_iss(), JVal::Str(p.holder)));
            assert(m[1] == (k_nonce(), JVal::Str(nonce)));
            assert(m[2] == (k_exp(), JVal::Num(t)));
            assert(m[3].0 == k_vp());
        },
        Option::None => {
            assert(m.len() == 3);
            assert(m[0] == (k_iss(), JVal::Str(p.holder)));
            assert(m[1] == (k_nonce(), JVal::Str(nonce)));
            assert(m[2].0 == k_vp());
        },
    }
}

/// Extraction pins construction down.
pub proof fn lemma_pres_extract_inverse(
    v: JVal,
    holder: Seq<u8>,
    nonce: Seq<u8>,
    expiration: Option<u64>,
    creds: Seq<Seq<u8>>,
)
    requires
        pres_of_jval(v) == Some((holder, nonce, expiration, creds)),
    ensures
        v == pres_payload_jval(
            PresentationV { holder, credentials: creds },
            nonce,
            expiration,
        ),
        uri_ok(holder),
{
    let m = v->Obj_0;
    let vpm = m[m.len() - 1].1->Obj_0;
    lemma_types_inverse(vpm[0].1->Arr_0, creds);
    assert(vpm =~= seq![(k_vcred(), JVal::Arr(types_items(creds)))]);
    let canon = pres_payload_jval(PresentationV { holder, credentials: creds }, nonce, expiration)
        ->Obj_0;
    assert(m =~= canon) by {
        match expiration {
            Option::Some(t) => {
                assert(m.len() == 4);
                assert(m[2] == (k_exp(), JVal::Num(t)));
            },
            Option::None => {
                assert(m.len() == 3);
            },
        }
    }
}

impl Presentation {
    /// Builds a presentation wrapping the given credential tokens.
    ///
    /// Fails with `InvalidUrl` when the holder is not a well-formed URI,
    /// and with `EmptyCredentialSet` when no credential is supplied and
    /// the caller's policy requires at least one.
    pub fn build(holder: Vec<u8>, credentials: Vec<Jwt>, require_credential: bool) -> (r: Result<
        Presentation,
        Error,
    >)
        ensures
            r matches Ok(p) ==> pres_wf(p@) && p@.holder == holder@ && p@.credentials == Seq::new(
                credentials@.len(),
                |i: int| credentials@[i]@,
            ) && (require_credential ==> credentials@.len() > 0),
            r matches Err(e) ==> (e == Error::InvalidUrl && !uri_ok(holder@)) || (e
                == Error::EmptyCredentialSet && require_credential && credentials@.len() == 0),
    {
        if !is_uri(&holder) {
            return Err(Error::InvalidUrl);
        }
        if require_credential && credentials.len() == 0 {
            return Err(Error::EmptyCredentialSet);
        }
        Ok(Presentation { holder, credentials })
    }
}

/// The claim-set value of a presentation with its nonce and expiry.
pub fn presentation_to_value(p: &Presentation, nonce: &Vec<u8>, expiration: Option<u64>) -> (r:
    JsonValue)
    ensures
        r@ == pres_payload_jval(p@, nonce@, expiration),
{
    let mut items: Vec<JsonValue> = Vec::new();
    let n = p.credentials.len();
    let mut i: usize = 0;
    while i < n
        invariant
            i <= n,
            n == p.credentials@.len(),
            items@.len() == i,
            forall|q: int|
                0 <= q < i ==> (#[trigger] items@[q])@ == JVal::Str(p.credentials@[q]@),
        decreases n - i,
    {
        items.push(JsonValue::Str(subvec(&p.credentials[i].raw, 0, p.credentials[i].raw.len())));
        i += 1;
    }
    proof {
        crate::json::lemma_jitems_index(items@);
        assert(crate::json::jitems_of(items@) =~~= types_items(p@.credentials));
    }
    let vc_k: Vec<u8> = vec![
        118,
        101,
        114,
        105,
        102,
        105,
        97,
        98,
        108,
        101,
        67,
        114,
        101,
        100,
        101,
        110,
        116,
        105,
        97,
        108,
    ];
    let mut vpm: Vec<(Vec<u8>, JsonValue)> = Vec::new();
    vpm.push((vc_k, JsonValue::Arr(items)));
    let vp = JsonValue::Obj(vpm);
    proof {
        lemma_jmembers_index(vp->Obj_0@);
        assert(vp->Obj_0@[0].0@ =~= k_vcred());
        assert(jmembers_of(vp->Obj_0@) =~~= seq![
            (k_vcred(), JVal::Arr(types_items(p@.credentials))),
        ]);
    }
    let mut pm: Vec<(Vec<u8>, JsonValue)> = Vec::new();
    let iss_k: Vec<u8> = vec![105, 115, 115];
    pm.push((iss_k, JsonValue::Str(subvec(&p.holder, 0, p.holder.len()))));
    let nonce_k: Vec<u8> = vec![110, 111, 110, 99, 101];
    pm.push((nonce_k, JsonValue::Str(subvec(nonce, 0, nonce.len()))));
    match expiration {
        Some(t) => {
            let exp_k: Vec<u8> = vec![101, 120, 112];
            pm.push((exp_k, JsonValue::Num(t)));
        },
        None => {},
    }
    let vp_k: Vec<u8> = vec![118, 112];
    pm.push((vp_k, vp));
    let r = JsonValue::Obj(pm);
    proof {
        let m = r->Obj_0;
        lemma_jmembers_index(m@);
        assert(m@[0].0@ =~= k_iss());
        assert(m@[1].0@ =~= k_nonce());
        let canon = seq![(k_iss(), JVal::Str(p@.holder)), (k_nonce(), JVal::Str(nonce@))]
            + opt_num_member(k_exp(), expiration) + seq![
            (
                k_vp(),
                JVal::Obj(seq![(k_vcred(), JVal::Arr(types_items(p@.credentials)))]),
            ),
        ];
        match expiration {
            Option::Some(t) => {
                assert(m@[2].0@ =~= k_exp());
                assert(m@[3].0@ =~= k_vp());
                assert(jmembers_of(m@) =~~= canon);
            },
            Option::None => {
                assert(m@[2].0@ =~= k_vp());
                assert(jmembers_of(m@) =~~= canon);
            },
        }
        assert(r@ == pres_payload_jval(p@, nonce@, expiration));
    }
    r
}


/// A decoded presentation token: the key reference, the reconstructed
/// presentation, its nonce and expiry, the signature, and the signed
/// bytes.
pub struct DecodedPresentation {
    /// The header's key reference (a DID URL).
    pub kid: Vec<u8>,
    /// The presentation: holder and embedded credential tokens.
    pub presentation: Presentation,
    /// The embedded replay-protection nonce.
    pub nonce: Vec<u8>,
    /// The embedded expiration timestamp.
    pub expiration: Option<u64>,
    /// The raw Ed25519 signature bytes.
    pub signature: Vec<u8>,
    /// The signed bytes: both base64url segments joined by a dot.
    pub signing_input: Vec<u8>,
}

/// Issues a presentation as a JWT signed by the holder document's method
/// with the given fragment, embedding the nonce and expiry.
///
/// Fails with `MethodNotFound` when the fragment resolves to no method,
/// and with `SigningFailed` when the method's key is missing from the
/// store.
pub fn issue_presentation_jwt(
    presentation: &Presentation,
    document: &Document,
    storage: &MemStorage,
    fragment: &Vec<u8>,
    nonce: &Vec<u8>,
    expiration: Option<u64>,
) -> (r: Result<Jwt, Error>)
    ensures
        (r matches Err(e) && e == Error::MethodNotFound) <==> find_method(
            document@.methods,
            fragment@,
        ) is None,
        (r matches Err(e) && e == Error::SigningFailed) <==> (find_method(
            document@.methods,
            fragment@,
        ) matches Some(m) && m.key_id >= storage.key_count()),
        r matches Err(e) ==> e == Error::MethodNotFound || e == Error::SigningFailed,
        r matches Ok(j) ==> (find_method(document@.methods, fragment@) matches Some(m) && {
            let kid = kid_of(document@.did, fragment@);
            let si = jws_signing_input(
                pr_val(header_jval(kid)),
                pr_val(pres_payload_jval(presentation@, nonce@, expiration)),
            );
            &&& m.key_id < storage.key_count()
            &&& j@ == pres_jwt_bytes(
                kid,
                presentation@,
                nonce@,
                expiration,
                crate::crypto::ed25519_sig_of(storage.sk_at(m.key_id), si),
            )
            &&& crate::crypto::ed25519_verifies(
                crate::crypto::ed25519_pk_of(storage.sk_at(m.key_id)),
                si,
                crate::crypto::ed25519_sig_of(storage.sk_at(m.key_id), si),
            )
        }),
{
    let ix = match document.resolve_method(fragment) {
        Ok(ix) => ix,
        Err(_) => {
            return Err(Error::MethodNotFound);
        },
    };
    let key_id = document.methods[ix].key_id;
    let mut kid: Vec<u8> = subvec(&document.did, 0, document.did.len());
    kid.push(35);
    push_all(&mut kid, fragment);
    proof {
        assert(kid@ =~= kid_of(document@.did, fragment@));
    }
    let hb = header_bytes(&kid);
    let pv = presentation_to_value(presentation, nonce, expiration);
    let mut pb: Vec<u8> = Vec::new();
    write_jval(&mut pb, &pv);
    proof {
        assert(pb@ =~= pr_val(pres_payload_jval(presentation@, nonce@, expiration)));
    }
    let mut si = crate::b64::base64url_encode(&hb);
    si.push(46);
    let pb64 = crate::b64::base64url_encode(&pb);
    push_all(&mut si, &pb64);
    proof {
        assert(si@ =~= jws_signing_input(pr_val(header_jval(kid@)), pb@));
    }
    let sig = match storage.sign(key_id, &si) {
        Ok(sig) => sig,
        Err(_) => {
            return Err(Error::SigningFailed);
        },
    };
    let mut raw = si;
    raw.push(46);
    let sb64 = crate::b64::base64url_encode(&sig);
    push_all(&mut raw, &sb64);
    proof {
        assert(raw@ =~= pres_jwt_bytes(
            kid_of(document@.did, fragment@),
            presentation@,
            nonce@,
            expiration,
            sig@,
        ));
    }
    Ok(Jwt { raw })
}

/// The presentation parts carried by a decoded claim set.
#[verifier::rlimit(100)]
fn value_to_presentation(v: &JsonValue) -> (r: Option<(Presentation, Vec<u8>, Option<u64>)>)
    ensures
        r matches Some(t) ==> pres_of_jval(v@) == Some(
            (t.0@.holder, t.1@, t.2, t.0@.credentials),
        ),
        r is None ==> pres_of_jval(v@) is None,
{
    let iss_k: Vec<u8> = vec![105, 115, 115];
    let nonce_k: Vec<u8> = vec![110, 111, 110, 99, 101];
    let exp_k: Vec<u8> = vec![101, 120, 112];
    let vp_k: Vec<u8> = vec![118, 112];
    let vc_k: Vec<u8> = vec![
        118,
        101,
        114,
        105,
        102,
        105,
        97,
        98,
        108,
        101,
        67,
        114,
        101,
        100,
        101,
        110,
        116,
        105,
        97,
        108,
    ];
    proof {
        assert(iss_k@ =~= k_iss());
        assert(nonce_k@ =~= k_nonce());
        assert(exp_k@ =~= k_exp());
        assert(vp_k@ =~= k_vp());
        assert(vc_k@ =~= k_vcred());
    }
    let m = match v {
        JsonValue::Obj(m) => m,
        _ => {
            return None;
        },
    };
    proof {
        lemma_jmembers_index(m@);
    }
    let n = m.len();
    if n < 3 || n > 4 {
        return None;
    }
    if !crate::bytes::bytes_eq(&m[0].0, &iss_k) || !crate::bytes::bytes_eq(&m[1].0, &nonce_k)
        || !crate::bytes::bytes_eq(&m[n - 1].0, &vp_k) {
        return None;
    }
    let holder = match &m[0].1 {
        JsonValue::Str(s) => {
            let r = subvec(s, 0, s.len());
            proof {
                assert(r@ =~= s@);
            }
            r
        },
        _ => {
            return None;
        },
    };
    let nonce = match &m[1].1 {
        JsonValue::Str(s) => {
            let r = subvec(s, 0, s.len());
            proof {
                assert(r@ =~= s@);
            }
            r
        },
        _ => {
            return None;
        },
    };
    let expiration: Option<u64> = if n == 4 {
        if !crate::bytes::bytes_eq(&m[2].0, &exp_k) {
            return None;
        }
        match &m[2].1 {
            JsonValue::Num(t) => Some(*t),
            _ => {
                return None;
            },
        }
    } else {
        None
    };
    let vpm = match &m[n - 1].1 {
        JsonValue::Obj(vpm) => vpm,
        _ => {
            return None;
        },
    };
    proof {
        lemma_jmembers_index(vpm@);
    }
    if vpm.len() != 1 || !crate::bytes::bytes_eq(&vpm[0].0, &vc_k) {
        return None;
    }
    let cred_bytes = match &vpm[0].1 {
        JsonValue::Arr(items) => {
            match crate::jwt::items_to_types(items) {
                Some(ts) => ts,
                None => {
                    return None;
                },
            }
        },
        _ => {
            return None;
        },
    };
    let mut credentials: Vec<Jwt> = Vec::new();
    let cn = cred_bytes.len();
    let ghost cred_views = Seq::new(cred_bytes@.len(), |q: int| cred_bytes@[q]@);
    let mut i: usize = 0;
    while i < cn
        invariant
            i <= cn,
            cn == cred_bytes@.len(),
            credentials@.len() == i,
            forall|q: int| 0 <= q < i ==> (#[trigger] credentials@[q])@ == cred_bytes@[q]@,
        decreases cn - i,
    {
        credentials.push(Jwt { raw: subvec(&cred_bytes[i], 0, cred_bytes[i].len()) });
        i += 1;
    }
    if !is_uri(&holder) {
        return None;
    }
    let p = Presentation { holder, credentials };
    proof {
        assert(p@.credentials =~~= cred_views);
        assert(pres_of_jval(v@) == Some((p@.holder, nonce@, expiration, p@.credentials)));
    }
    Some((p, nonce, expiration))
}

/// Decodes a presentation token without verifying anything about it
/// beyond its shape: exactly the canonical tokens over well-formed
/// presentations decode, and they decode to their own parts.
#[verifier::rlimit(100)]
pub fn decode_presentation_jwt(jwt: &Jwt) -> (r: Result<DecodedPresentation, Error>)
    ensures
        r matches Ok(d) ==> jwt@ == pres_jwt_bytes(
            d.kid@,
            d.presentation@,
            d.nonce@,
            d.expiration,
            d.signature@,
        ) && pres_wf(d.presentation@) && d.signing_input@ == jws_signing_input(
            pr_val(header_jval(d.kid@)),
            pr_val(pres_payload_jval(d.presentation@, d.nonce@, d.expiration)),
        ),
        r matches Err(e) ==> e == Error::MalformedJwt,
        forall|kid: Seq<u8>, p: PresentationV, nonce: Seq<u8>, exp: Option<u64>, sig: Seq<u8>|
            jwt@ == pres_jwt_bytes(kid, p, nonce, exp, sig) && pres_wf(p) ==> (r matches Ok(d)
                && d.kid@ == kid && d.presentation@ == p && d.nonce@ == nonce && d.expiration == exp
                && d.signature@ == sig),
{
    let ghost has_w = exists|kid: Seq<u8>, p: PresentationV, nonce: Seq<u8>, exp: Option<u64>, sig: Seq<u8>|
        jwt@ == pres_jwt_bytes(kid, p, nonce, exp, sig) && pres_wf(p);
    let ghost (kw, pw, nw, ew, sw): (Seq<u8>, PresentationV, Seq<u8>, Option<u64>, Seq<u8>) = if has_w {
        choose|kid: Seq<u8>, p: PresentationV, nonce: Seq<u8>, exp: Option<u64>, sig: Seq<u8>|
            jwt@ == pres_jwt_bytes(kid, p, nonce, exp, sig) && pres_wf(p)
    } else {
        arbitrary()
    };
    let parts = match jws_split(&jwt.raw) {
        Some(t) => t,
        None => {
            proof {
                if has_w {
                    assert(false);
                }
            }
            return Err(Error::MalformedJwt);
        },
    };
    let (hb, pb, sig, si) = parts;
    proof {
        if has_w {
            assert(hb@ == pr_val(header_jval(kw)) && pb@ == pr_val(
                pres_payload_jval(pw, nw, ew),
            ) && sig@ == sw);
        }
    }
    let hv = match parse_value(&hb, 0) {
        Some(t) => t,
        None => {
            proof {
                if has_w {
                    assert(hb@.skip(0) =~= pr_val(header_jval(kw)) + Seq::<u8>::empty());
                    assert(false);
                }
            }
            return Err(Error::MalformedJwt);
        },
    };
    if hv.1 != hb.len() {
        proof {
            if has_w {
                assert(hb@.skip(0) =~= pr_val(header_jval(kw)) + Seq::<u8>::empty());
                assert(false);
            }
        }
        return Err(Error::MalformedJwt);
    }
    let kid = match value_to_kid(&hv.0) {
        Some(kid) => kid,
        None => {
            proof {
                if has_w {
                    assert(hb@.skip(0) =~= pr_val(header_jval(kw)) + Seq::<u8>::empty());
                    assert(hv.0@ == header_jval(kw));
                    lemma_header_extract(kw);
                    assert(false);
                }
            }
            return Err(Error::MalformedJwt);
        },
    };
    let pv = match parse_value(&pb, 0) {
        Some(t) => t,
        None => {
            proof {
                if has_w {
                    assert(pb@.skip(0) =~= pr_val(pres_payload_jval(pw, nw, ew))
                        + Seq::<u8>::empty());
                    assert(false);
                }
            }
            return Err(Error::MalformedJwt);
        },
    };
    if pv.1 != pb.len() {
        proof {
            if has_w {
                assert(pb@.skip(0) =~= pr_val(pres_payload_jval(pw, nw, ew)) + Seq::<u8>::empty());
                assert(false);
            }
        }
        return Err(Error::MalformedJwt);
    }
    let (presentation, nonce, expiration) = match value_to_presentation(&pv.0) {
        Some(t) => t,
        None => {
            proof {
                if has_w {
                    assert(pb@.skip(0) =~= pr_val(pres_payload_jval(pw, nw, ew))
                        + Seq::<u8>::empty());
                    assert(pv.0@ == pres_payload_jval(pw, nw, ew));
                    lemma_pres_extract(pw, nw, ew);
                    assert(false);
                }
            }
            return Err(Error::MalformedJwt);
        },
    };
    let d = DecodedPresentation {
        kid,
        presentation,
        nonce,
        expiration,
        signature: sig,
        signing_input: si,
    };
    proof {
        lemma_header_inverse(hv.0@, d.kid@);
        lemma_pres_extract_inverse(
            pv.0@,
            d.presentation@.holder,
            d.nonce@,
            d.expiration,
            d.presentation@.credentials,
        );
        assert(hb@.subrange(0, hv.1 as int) =~= hb@);
        assert(pb@.subrange(0, pv.1 as int) =~= pb@);
        assert(hb@ == pr_val(header_jval(d.kid@)));
        assert(PresentationV {
            holder: d.presentation@.holder,
            credentials: d.presentation@.credentials,
        } =~= d.presentation@);
        assert(pb@ == pr_val(pres_payload_jval(d.presentation@, d.nonce@, d.expiration)));
        assert forall|
            kid2: Seq<u8>,
            p2: PresentationV,
            nonce2: Seq<u8>,
            exp2: Option<u64>,
            sig2: Seq<u8>,
        |
            jwt@ == pres_jwt_bytes(kid2, p2, nonce2, exp2, sig2) && pres_wf(p2) implies (d.kid@
            == kid2 && d.presentation@ == p2 && d.nonce@ == nonce2 && d.expiration == exp2
            && d.signature@ == sig2) by {
            crate::jwt::lemma_jws_unique_pub(
                pr_val(header_jval(kid2)),
                pr_val(pres_payload_jval(p2, nonce2, exp2)),
                sig2,
                hb@,
                pb@,
                sig@,
            );
            lemma_pr_val_unique(
                header_jval(kid2),
                header_jval(d.kid@),
                Seq::empty(),
                Seq::empty(),
            );
            lemma_pr_val_unique(
                pres_payload_jval(p2, nonce2, exp2),
                pres_payload_jval(d.presentation@, d.nonce@, d.expiration),
                Seq::empty(),
                Seq::empty(),
            );
            lemma_pres_extract(p2, nonce2, exp2);
            lemma_pres_extract(d.presentation@, d.nonce@, d.expiration);
            assert(pr_val(header_jval(kid2)) + Seq::<u8>::empty() =~= hb@);
            assert(pr_val(header_jval(d.kid@)) + Seq::<u8>::empty() =~= hb@);
            assert(pr_val(pres_payload_jval(p2, nonce2, exp2)) + Seq::<u8>::empty() =~= pb@);
            assert(pr_val(pres_payload_jval(d.presentation@, d.nonce@, d.expiration))
                + Seq::<u8>::empty() =~= pb@);
            assert(p2 =~= d.presentation@);
        }
    }
    Ok(d)
}

/// The holder DID named inside a presentation token, read without any
/// verification; used to pick the document to resolve before validation.
pub fn extract_holder(jwt: &Jwt) -> (r: Result<Vec<u8>, Error>)
    ensures
        r matches Err(e) ==> e == Error::MalformedJwt,
        r matches Ok(h) ==> exists|
            kid: Seq<u8>,
            p: PresentationV,
            nonce: Seq<u8>,
            exp: Option<u64>,
            sig: Seq<u8>,
        | jwt@ == pres_jwt_bytes(kid, p, nonce, exp, sig) && pres_wf(p) && p.holder == h@,
        forall|kid: Seq<u8>, p: PresentationV, nonce: Seq<u8>, exp: Option<u64>, sig: Seq<u8>|
            jwt@ == pres_jwt_bytes(kid, p, nonce, exp, sig) && pres_wf(p) ==> (r matches Ok(h) && h@
                == p.holder),
{
    match decode_presentation_jwt(jwt) {
        Ok(d) => {
            proof {
                assert(jwt@ == pres_jwt_bytes(
                    d.kid@,
                    d.presentation@,
                    d.nonce@,
                    d.expiration,
                    d.signature@,
                ) && pres_wf(d.presentation@) && d.presentation@.holder
                    == d.presentation.holder@);
            }
            Ok(d.presentation.holder)
        },
        Err(e) => Err(e),
    }
}

} // verus!
