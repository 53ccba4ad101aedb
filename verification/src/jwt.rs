//! JWS compact tokens: issuing a credential as a signed JWT, splitting and
//! decoding tokens, and the exact byte-level form both directions share.

use crate::b64::{b64_encode, base64url_decode, base64url_encode, is_b64, lemma_b64_decode_sound,
    lemma_b64_encode_alphabet, lemma_b64_encode_injective, lemma_b64_round_trip};
use crate::bytes::{find_byte, push_all, subvec};
use crate::credential::{cred_of_jval, cred_payload_jval, cred_wf, k_exp, k_id, k_index, k_iss, k_nbf, k_status,
    k_subject, k_type, k_vc, lemma_cred_extract, lemma_cred_extract_inverse, mid_dates,
    status_of_jval, subject_of_jval, subjects_items, subjects_of_items, types_items,
    types_of_items, vc_jval, vc_of_jval, Credential, CredentialStatus, CredentialV, Subject,
    SubjectV,
};
use crate::document::{find_method, Document};
use crate::errors::Error;
use crate::json::{clone_json, jmembers_of, jitems_of, lemma_jitems_index, lemma_jmembers_index,
    lemma_pr_val_unique, parse_value, pr_val, write_jval, JVal, JsonValue,
};
use crate::storage::MemStorage;
use vstd::prelude::*;

verus! {

/// The header key `alg`.
pub open spec fn k_alg() -> Seq<u8> {
    seq![97u8, 108u8, 103u8]
}

/// The header key `kid`.
pub open spec fn k_kid() -> Seq<u8> {
    seq![107u8, 105u8, 100u8]
}

/// The algorithm tag `EdDSA`.
pub open spec fn lit_eddsa() -> Seq<u8> {
    seq![69u8, 100u8, 68u8, 83u8, 65u8]
}

/// The claim-set form of a JWS header naming the algorithm and the key.
pub open spec fn header_jval(kid: Seq<u8>) -> JVal {
    JVal::Obj(seq![(k_alg(), JVal::Str(lit_eddsa())), (k_kid(), JVal::Str(kid))])
}

/// The key reference encoded in a header value, when the value has exactly
/// that shape.
pub open spec fn kid_of_jval(v: JVal) -> Option<Seq<u8>> {
    match v {
        JVal::Obj(m) => {
            if m.len() == 2 && m[0] == (k_alg(), JVal::Str(lit_eddsa())) && m[1].0 == k_kid() {
                match m[1].1 {
                    JVal::Str(kid) => Some(kid),
                    _ => None,
                }
            } else {
                None
            }
        },
        _ => None,
    }
}

/// Header extraction inverts header construction.
pub proof fn lemma_header_extract(kid: Seq<u8>)
    ensures
        kid_of_jval(header_jval(kid)) == Some(kid),
{
}

/// Header extraction pins the header down.
pub proof fn lemma_header_inverse(v: JVal, kid: Seq<u8>)
    requires
        kid_of_jval(v) == Some(kid),
    ensures
        v == header_jval(kid),
{
    let m = v->Obj_0;
    assert(m =~= seq![(k_alg(), JVal::Str(lit_eddsa())), (k_kid(), JVal::Str(kid))]);
}

/// The DID URL addressing a method: the DID, a `#`, and the fragment.
pub open spec fn kid_of(did: Seq<u8>, fragment: Seq<u8>) -> Seq<u8> {
    did + seq![35u8] + fragment
}

/// The JWS signing input: both base64url segments joined by a dot.
pub open spec fn jws_signing_input(header: Seq<u8>, payload: Seq<u8>) -> Seq<u8> {
    b64_encode(header) + seq![46u8] + b64_encode(payload)
}

/// A complete JWS compact token over the given header, payload and
/// signature bytes.
pub open spec fn jws_bytes(header: Seq<u8>, payload: Seq<u8>, sig: Seq<u8>) -> Seq<u8> {
    jws_signing_input(header, payload) + seq![46u8] + b64_encode(sig)
}

/// The complete token carrying a credential, signed by the named key.
pub open spec fn cred_jwt_bytes(kid: Seq<u8>, c: CredentialV, sig: Seq<u8>) -> Seq<u8> {
    jws_bytes(pr_val(header_jval(kid)), pr_val(cred_payload_jval(c)), sig)
}

/// An opaque encoded token.
pub struct Jwt {
    /// The token's bytes: three base64url segments joined by dots.
    pub raw: Vec<u8>,
}

impl View for Jwt {
    type V = Seq<u8>;

    open spec fn view(&self) -> Seq<u8> {
        self.raw@
    }
}

impl Jwt {
    /// Wraps raw token bytes.
    pub fn new(raw: Vec<u8>) -> (r: Jwt)
        ensures
            r@ == raw@,
    {
        Jwt { raw }
    }

    /// A copy of the token.
    pub fn duplicate(&self) -> (r: Jwt)
        ensures
            r@ == self@,
    {
        Jwt { raw: subvec(&self.raw, 0, self.raw.len()) }
    }
}

/// Two equal tokens split into equal segments.
#[verifier::rlimit(100)]
#[verifier::spinoff_prover]
pub proof fn lemma_jws_unique_pub(
    h1: Seq<u8>,
    p1: Seq<u8>,
    s1: Seq<u8>,
    h2: Seq<u8>,
    p2: Seq<u8>,
    s2: Seq<u8>,
)
    requires
        jws_bytes(h1, p1, s1) == jws_bytes(h2, p2, s2),
    ensures
        h1 == h2,
        p1 == p2,
        s1 == s2,
{
    let x = jws_bytes(h1, p1, s1);
    let a1 = b64_encode(h1);
    let b1 = b64_encode(p1);
    let c1 = b64_encode(s1);
    let a2 = b64_encode(h2);
    let b2 = b64_encode(p2);
    let c2 = b64_encode(s2);
    lemma_b64_encode_alphabet(h1);
    lemma_b64_encode_alphabet(h2);
    lemma_b64_encode_alphabet(p1);
    lemma_b64_encode_alphabet(p2);
    assert(x =~= a1 + (seq![46u8] + b1 + seq![46u8] + c1));
    assert(x =~= a2 + (seq![46u8] + b2 + seq![46u8] + c2));
    assert(a1 =~= a2) by {
        if a1.len() < a2.len() {
            assert(x[a1.len() as int] == 46);
            assert(x[a1.len() as int] == a2[a1.len() as int]);
            assert(is_b64(a2[a1.len() as int]));
            assert(false);
        }
        if a2.len() < a1.len() {
            assert(x[a2.len() as int] == 46);
            assert(x[a2.len() as int] == a1[a2.len() as int]);
            assert(is_b64(a1[a2.len() as int]));
            assert(false);
        }
        assert(forall|q: int| 0 <= q < a1.len() ==> x[q] == a1[q] && x[q] == #[trigger] a2[q]);
    }
    lemma_b64_encode_injective(h1, h2);
    crate::json::lemma_seq_cancel(
        a1,
        seq![46u8] + b1 + seq![46u8] + c1,
        seq![46u8] + b2 + seq![46u8] + c2,
    );
    let y1 = seq![46u8] + b1 + seq![46u8] + c1;
    assert(b1 =~= b2) by {
        if b1.len() < b2.len() {
            assert(y1[b1.len() as int + 1] == 46);
            assert((seq![46u8] + b2 + seq![46u8] + c2)[b1.len() as int + 1] == b2[b1.len() as int]);
            assert(is_b64(b2[b1.len() as int]));
            assert(false);
        }
        if b2.len() < b1.len() {
            assert(y1[b2.len() as int + 1] == 46);
            assert(y1[b2.len() as int + 1] == b1[b2.len() as int]);
            assert(is_b64(b1[b2.len() as int]));
            assert(false);
        }
        assert(forall|q: int|
            0 <= q < b1.len() ==> #[trigger] b1[q] == y1[q + 1] && #[trigger] b2[q] == y1[q + 1]);
    }
    lemma_b64_encode_injective(p1, p2);
    assert(c1 =~= c2) by {
        assert(y1.len() == 1 + b1.len() + 1 + c1.len());
        assert(forall|q: int|
            0 <= q < c1.len() ==> #[trigger] c1[q] == y1[q + 2 + b1.len()] && #[trigger] c2[q]
                == y1[q + 2 + b1.len()]);
    }
    lemma_b64_encode_injective(s1, s2);
}

/// Splits a token into decoded header, payload and signature bytes, and
/// the signing input; exactly the three-segment tokens split.
#[verifier::loop_isolation(false)]
#[verifier::rlimit(100)]
pub fn jws_split(raw: &Vec<u8>) -> (r: Option<(Vec<u8>, Vec<u8>, Vec<u8>, Vec<u8>)>)
    ensures
        r matches Some(t) ==> raw@ == jws_bytes(t.0@, t.1@, t.2@) && t.3@ == jws_signing_input(
            t.0@,
            t.1@,
        ),
        forall|h: Seq<u8>, p: Seq<u8>, sg: Seq<u8>|
            raw@ == jws_bytes(h, p, sg) ==> (r matches Some(t) && t.0@ == h && t.1@ == p && t.2@
                == sg),
{
    let ghost has_w = exists|h: Seq<u8>, p: Seq<u8>, sg: Seq<u8>| raw@ == jws_bytes(h, p, sg);
    let ghost (hw, pw, sw): (Seq<u8>, Seq<u8>, Seq<u8>) = if has_w {
        choose|h: Seq<u8>, p: Seq<u8>, sg: Seq<u8>| raw@ == jws_bytes(h, p, sg)
    } else {
        arbitrary()
    };
    proof {
        if has_w {
            lemma_b64_encode_alphabet(hw);
            lemma_b64_encode_alphabet(pw);
            lemma_b64_encode_alphabet(sw);
            assert(raw@ =~= b64_encode(hw) + (seq![46u8] + b64_encode(pw) + seq![46u8]
                + b64_encode(sw)));
        }
    }
    let n = raw.len();
    let ghost la = b64_encode(hw).len() as int;
    let ghost lb = b64_encode(pw).len() as int;
    let d1 = match find_byte(raw, 0, 46) {
        Some(d) => d,
        None => {
            proof {
                if has_w {
                    assert(raw@[la] == 46);
                    assert(false);
                }
            }
            return None;
        },
    };
    proof {
        if has_w {
            assert(forall|q: int| 0 <= q < la ==> is_b64(#[trigger] b64_encode(hw)[q]));
            assert(forall|q: int| 0 <= q < la ==> raw@[q] == b64_encode(hw)[q]);
            assert(forall|q: int| 0 <= q < la ==> raw@[q] != 46);
            assert(raw@[la] == 46);
            assert(d1 == la) by {
                if d1 < la {
                    assert(raw@[d1 as int] != 46);
                }
            }
        }
    }
    let d2 = match find_byte(raw, d1 + 1, 46) {
        Some(d) => d,
        None => {
            proof {
                if has_w {
                    assert(raw@[la + 1 + lb] == 46);
                    assert(false);
                }
            }
            return None;
        },
    };
    proof {
        if has_w {
            assert(forall|q: int| 0 <= q < lb ==> is_b64(#[trigger] b64_encode(pw)[q]));
            assert(forall|q: int| 0 <= q < lb ==> raw@[la + 1 + q] == b64_encode(pw)[q]);
            assert(raw@[la + 1 + lb] == 46);
            assert(d2 == la + 1 + lb) by {
                if d2 < la + 1 + lb {
                    assert(raw@[d2 as int] == b64_encode(pw)[d2 - la - 1]);
                    assert(is_b64(raw@[d2 as int]));
                }
            }
        }
    }
    match find_byte(raw, d2 + 1, 46) {
        Some(d3) => {
            proof {
                if has_w {
                    let lc = b64_encode(sw).len() as int;
                    assert(forall|q: int| 0 <= q < lc ==> is_b64(#[trigger] b64_encode(sw)[q]));
                    assert(raw@.len() == la + 1 + lb + 1 + lc);
                    assert(raw@[d3 as int] == b64_encode(sw)[d3 - la - lb - 2]);
                    assert(is_b64(raw@[d3 as int]));
                    assert(false);
                }
            }
            return None;
        },
        None => {},
    }
    let seg1 = subvec(raw, 0, d1);
    let seg2 = subvec(raw, d1 + 1, d2);
    let seg3 = subvec(raw, d2 + 1, n);
    proof {
        if has_w {
            assert(seg1@ =~= b64_encode(hw));
            assert(seg2@ =~= b64_encode(pw));
            assert(seg3@ =~= b64_encode(sw));
            lemma_b64_round_trip(hw);
            lemma_b64_round_trip(pw);
            lemma_b64_round_trip(sw);
        }
    }
    let h = match base64url_decode(&seg1) {
        Some(v) => v,
        None => {
            proof {
                if has_w {
                    assert(false);
                }
            }
            return None;
        },
    };
    let p = match base64url_decode(&seg2) {
        Some(v) => v,
        None => {
            proof {
                if has_w {
                    assert(false);
                }
            }
            return None;
        },
    };
    let sg = match base64url_decode(&seg3) {
        Some(v) => v,
        None => {
            proof {
                if has_w {
                    assert(false);
                }
            }
            return None;
        },
    };
    let si = subvec(raw, 0, d2);
    proof {
        lemma_b64_decode_sound(seg1@, h@);
        lemma_b64_decode_sound(seg2@, p@);
        lemma_b64_decode_sound(seg3@, sg@);
        assert(raw@ =~= jws_bytes(h@, p@, sg@));
        assert(si@ =~= jws_signing_input(h@, p@));
        assert forall|hx: Seq<u8>, px: Seq<u8>, sx: Seq<u8>| raw@ == jws_bytes(hx, px, sx) implies (
        h@ == hx && p@ == px && sg@ == sx) by {
            lemma_jws_unique_pub(hx, px, sx, h@, p@, sg@);
        }
    }
    Some((h, p, sg, si))
}


/// The canonical header bytes for a key reference.
pub fn header_bytes(kid: &Vec<u8>) -> (r: Vec<u8>)
    ensures
        r@ == pr_val(header_jval(kid@)),
{
    let alg_k: Vec<u8> = vec![97, 108, 103];
    let eddsa: Vec<u8> = vec![69, 100, 68, 83, 65];
    let kid_k: Vec<u8> = vec![107, 105, 100];
    let mut members: Vec<(Vec<u8>, JsonValue)> = Vec::new();
    members.push((alg_k, JsonValue::Str(eddsa)));
    members.push((kid_k, JsonValue::Str(subvec(kid, 0, kid.len()))));
    let v = JsonValue::Obj(members);
    proof {
        let m = v->Obj_0;
        lemma_jmembers_index(m@);
        assert(jmembers_of(m@) =~~= seq![
            (k_alg(), JVal::Str(lit_eddsa())),
            (k_kid(), JVal::Str(kid@)),
        ]) by {
            assert(m@[0].0@ =~= k_alg());
            assert(m@[0].1@ =~= JVal::Str(lit_eddsa()));
            assert(m@[1].0@ =~= k_kid());
        }
        assert(v@ == header_jval(kid@));
    }
    let mut out: Vec<u8> = Vec::new();
    write_jval(&mut out, &v);
    proof {
        assert(out@ =~= pr_val(header_jval(kid@)));
    }
    out
}

/// The key reference carried by a decoded header value.
pub fn value_to_kid(v: &JsonValue) -> (r: Option<Vec<u8>>)
    ensures
        r matches Some(kid) ==> kid_of_jval(v@) == Some(kid@),
        r is None ==> kid_of_jval(v@) is None,
{
    let alg_k: Vec<u8> = vec![97, 108, 103];
    let eddsa: Vec<u8> = vec![69, 100, 68, 83, 65];
    let kid_k: Vec<u8> = vec![107, 105, 100];
    proof {
        assert(alg_k@ =~= k_alg());
        assert(eddsa@ =~= lit_eddsa());
        assert(kid_k@ =~= k_kid());
    }
    match v {
        JsonValue::Obj(m) => {
            proof {
                lemma_jmembers_index(m@);
            }
            if m.len() != 2 {
                return None;
            }
            if !crate::bytes::bytes_eq(&m[0].0, &alg_k) {
                return None;
            }
            match &m[0].1 {
                JsonValue::Str(s) => {
                    if !crate::bytes::bytes_eq(s, &eddsa) {
                        return None;
                    }
                },
                _ => {
                    return None;
                },
            }
            if !crate::bytes::bytes_eq(&m[1].0, &kid_k) {
                return None;
            }
            match &m[1].1 {
                JsonValue::Str(kidv) => {
                    proof {
                        let mm = jmembers_of(m@);
                        assert(mm[0] == (k_alg(), JVal::Str(lit_eddsa())));
                        assert(mm[1].0 == k_kid());
                        assert(mm[1].1 == JVal::Str(kidv@));
                    }
                    Some(subvec(kidv, 0, kidv.len()))
                },
                _ => {
                    None
                },
            }
        },
        _ => None,
    }
}

/// The claim-set value of a subject.
pub fn subject_to_value(s: &Subject) -> (r: JsonValue)
    ensures
        r@ == crate::credential::subject_jval(s@),
{
    let mut members: Vec<(Vec<u8>, JsonValue)> = Vec::new();
    match &s.id {
        Some(id) => {
            let id_k: Vec<u8> = vec![105, 100];
            members.push((id_k, JsonValue::Str(subvec(id, 0, id.len()))));
        },
        None => {},
    }
    let ghost head = members@;
    let n = s.properties.len();
    let mut i: usize = 0;
    while i < n
        invariant
            i <= n,
            n == s.properties@.len(),
            members@.len() == head.len() + i,
            forall|q: int| 0 <= q < head.len() ==> members@[q] == head[q],
            forall|q: int|
                head.len() <= q < members@.len() ==> (#[trigger] members@[q]).0@
                    == s.properties@[q - head.len()].0@ && members@[q].1@ == s.properties@[q
                    - head.len()].1@,
        decreases n - i,
    {
        let key = subvec(&s.properties[i].0, 0, s.properties[i].0.len());
        let val = clone_json(&s.properties[i].1);
        members.push((key, val));
        i += 1;
    }
    let r = JsonValue::Obj(members);
    proof {
        let m = r->Obj_0;
        lemma_jmembers_index(m@);
        lemma_jmembers_index(s.properties@);
        match s@.id {
            Option::Some(id) => {
                assert(head.len() == 1);
                assert(m@ == members@);
                assert(members@[0] == head[0]);
                assert(head[0].0@ == seq![105u8, 100u8]);
                assert(m@[0].0@ =~= k_id());
                assert(jmembers_of(m@) =~~= seq![(k_id(), JVal::Str(id))] + jmembers_of(
                    s.properties@,
                ));
            },
            Option::None => {
                assert(head.len() == 0);
                assert(jmembers_of(m@) =~~= jmembers_of(s.properties@));
            },
        }
        assert(r@ == crate::credential::subject_jval(s@));
    }
    r
}

/// The claim-set value of a credential: its full JWT payload.
#[verifier::rlimit(100)]
pub fn credential_to_value(c: &Credential) -> (r: JsonValue)
    ensures
        r@ == cred_payload_jval(c@),
{
    // The nested vc object.
    let mut vc_m: Vec<(Vec<u8>, JsonValue)> = Vec::new();
    let id_k: Vec<u8> = vec![105, 100];
    vc_m.push((id_k, JsonValue::Str(subvec(&c.id, 0, c.id.len()))));
    let mut titems: Vec<JsonValue> = Vec::new();
    let tn = c.types.len();
    let mut i: usize = 0;
    while i < tn
        invariant
            i <= tn,
            tn == c.types@.len(),
            titems@.len() == i,
            forall|q: int| 0 <= q < i ==> (#[trigger] titems@[q])@ == JVal::Str(c.types@[q]@),
        decreases tn - i,
    {
        titems.push(JsonValue::Str(subvec(&c.types[i], 0, c.types[i].len())));
        i += 1;
    }
    proof {
        lemma_jitems_index(titems@);
        assert(jitems_of(titems@) =~~= types_items(c@.types));
    }
    let ty_k: Vec<u8> = vec![116, 121, 112, 101];
    vc_m.push((ty_k, JsonValue::Arr(titems)));
    let mut sitems: Vec<JsonValue> = Vec::new();
    let sn = c.subjects.len();
    let mut j: usize = 0;
    while j < sn
        invariant
            j <= sn,
            sn == c.subjects@.len(),
            sitems@.len() == j,
            forall|q: int|
                0 <= q < j ==> (#[trigger] sitems@[q])@ == crate::credential::subject_jval(
                    c.subjects@[q]@,
                ),
        decreases sn - j,
    {
        let sv = subject_to_value(&c.subjects[j]);
        sitems.push(sv);
        j += 1;
    }
    proof {
        lemma_jitems_index(sitems@);
        assert(jitems_of(sitems@) =~~= subjects_items(c@.subjects));
    }
    let cs_k: Vec<u8> = vec![
        99,
        114,
        101,
        100,
        101,
        110,
        116,
        105,
        97,
        108,
        83,
        117,
        98,
        106,
        101,
        99,
        116,
    ];
    vc_m.push((cs_k, JsonValue::Arr(sitems)));
    match &c.status {
        Some(st) => {
            let mut st_m: Vec<(Vec<u8>, JsonValue)> = Vec::new();
            let id_k2: Vec<u8> = vec![105, 100];
            st_m.push(
                (id_k2, JsonValue::Str(subvec(&st.service_fragment, 0, st.service_fragment.len()))),
            );
            let ix_k: Vec<u8> = vec![105, 110, 100, 101, 120];
            st_m.push((ix_k, JsonValue::Num(st.index as u64)));
            let stv = JsonValue::Obj(st_m);
            proof {
                lemma_jmembers_index(stv->Obj_0@);
                assert(jmembers_of(stv->Obj_0@) =~~= seq![
                    (k_id(), JVal::Str(st.service_fragment@)),
                    (k_index(), JVal::Num(st.index as u64)),
                ]) by {
                    assert(stv->Obj_0@[0].0@ =~= k_id());
                    assert(stv->Obj_0@[1].0@ =~= k_index());
                }
                assert(stv@ == crate::credential::status_jval(st@));
            }
            let st_k: Vec<u8> = vec![
                99,
                114,
                101,
                100,
                101,
                110,
                116,
                105,
                97,
                108,
                83,
                116,
                97,
                116,
                117,
                115,
            ];
            vc_m.push((st_k, stv));
        },
        None => {},
    }
    let vc = JsonValue::Obj(vc_m);
    proof {
        let m = vc->Obj_0;
        lemma_jmembers_index(m@);
        assert(m@[0].0@ =~= k_id());
        assert(m@[1].0@ =~= k_type());
        assert(m@[2].0@ =~= k_subject());
        match c@.status {
            Option::Some(st) => {
                assert(m@[3].0@ =~= k_status());
                assert(jmembers_of(m@) =~~= seq![
                    (k_id(), JVal::Str(c@.id)),
                    (k_type(), JVal::Arr(types_items(c@.types))),
                    (k_subject(), JVal::Arr(subjects_items(c@.subjects))),
                ] + crate::credential::opt_status_member(c@.status));
            },
            Option::None => {
                assert(jmembers_of(m@) =~~= seq![
                    (k_id(), JVal::Str(c@.id)),
                    (k_type(), JVal::Arr(types_items(c@.types))),
                    (k_subject(), JVal::Arr(subjects_items(c@.subjects))),
                ] + crate::credential::opt_status_member(c@.status));
            },
        }
        assert(vc@ == vc_jval(c@));
    }
    let mut pm: Vec<(Vec<u8>, JsonValue)> = Vec::new();
    let iss_k: Vec<u8> = vec![105, 115, 115];
    pm.push((iss_k, JsonValue::Str(subvec(&c.issuer, 0, c.issuer.len()))));
    match c.issuance_date {
        Some(t) => {
            let nbf_k: Vec<u8> = vec![110, 98, 102];
            pm.push((nbf_k, JsonValue::Num(t)));
        },
        None => {},
    }
    match c.expiration_date {
        Some(t) => {
            let exp_k: Vec<u8> = vec![101, 120, 112];
            pm.push((exp_k, JsonValue::Num(t)));
        },
        None => {},
    }
    let vc_k: Vec<u8> = vec![118, 99];
    pm.push((vc_k, vc));
    let r = JsonValue::Obj(pm);
    proof {
        let m = r->Obj_0;
        lemma_jmembers_index(m@);
        assert(m@[0].0@ =~= k_iss());
        let canon = seq![(k_iss(), JVal::Str(c@.issuer))] + crate::credential::opt_num_member(
            k_nbf(),
            c@.issuance_date,
        ) + crate::credential::opt_num_member(k_exp(), c@.expiration_date) + seq![
            (k_vc(), vc_jval(c@)),
        ];
        match (c.issuance_date, c.expiration_date) {
            (Option::None, Option::None) => {
                assert(m@[1].0@ =~= k_vc());
                assert(jmembers_of(m@) =~~= canon);
            },
            (Option::Some(a), Option::None) => {
                assert(m@[1].0@ =~= k_nbf());
                assert(m@[2].0@ =~= k_vc());
                assert(jmembers_of(m@) =~~= canon);
            },
            (Option::None, Option::Some(b)) => {
                assert(m@[1].0@ =~= k_exp());
                assert(m@[2].0@ =~= k_vc());
                assert(jmembers_of(m@) =~~= canon);
            },
            (Option::Some(a), Option::Some(b)) => {
                assert(m@[1].0@ =~= k_nbf());
                assert(m@[2].0@ =~= k_exp());
                assert(m@[3].0@ =~= k_vc());
                assert(jmembers_of(m@) =~~= canon);
            },
        }
        assert(r@ == cred_payload_jval(c@));
    }
    r
}


/// Subjects read back from claim items are all well-formed.
proof fn lemma_subjects_of_items_wf(items: Seq<JVal>, ss: Seq<SubjectV>)
    requires
        subjects_of_items(items) == Some(ss),
    ensures
        forall|i: int| 0 <= i < ss.len() ==> crate::credential::subject_wf(#[trigger] ss[i]),
    decreases items.len(),
{
    if items.len() > 0 {
        let rest = subjects_of_items(items.skip(1)).unwrap();
        lemma_subjects_of_items_wf(items.skip(1), rest);
        assert forall|i: int| 0 <= i < ss.len() implies crate::credential::subject_wf(
            #[trigger] ss[i],
        ) by {
            if i == 0 {
                let s0 = subject_of_jval(items[0]).unwrap();
                assert(ss[0] == s0);
            } else {
                assert(ss[i] == rest[i - 1]);
            }
        }
    }
}

/// The revocation pointer carried by a claim value.
#[verifier::loop_isolation(false)]
fn value_to_status(v: &JsonValue) -> (r: Option<CredentialStatus>)
    ensures
        r matches Some(st) ==> status_of_jval(v@) == Some(st@),
        r is None ==> status_of_jval(v@) is None,
{
    let id_k: Vec<u8> = vec![105, 100];
    let ix_k: Vec<u8> = vec![105, 110, 100, 101, 120];
    proof {
        assert(id_k@ =~= k_id());
        assert(ix_k@ =~= k_index());
    }
    match v {
        JsonValue::Obj(m) => {
            proof {
                lemma_jmembers_index(m@);
            }
            if m.len() != 2 {
                return None;
            }
            if !crate::bytes::bytes_eq(&m[0].0, &id_k) || !crate::bytes::bytes_eq(&m[1].0, &ix_k) {
                return None;
            }
            match (&m[0].1, &m[1].1) {
                (JsonValue::Str(frag), JsonValue::Num(ix)) => {
                    if *ix <= u32::MAX as u64 {
                        Some(
                            CredentialStatus {
                                service_fragment: subvec(frag, 0, frag.len()),
                                index: *ix as u32,
                            },
                        )
                    } else {
                        None
                    }
                },
                _ => None,
            }
        },
        _ => None,
    }
}

/// The type list carried by claim items.
#[verifier::loop_isolation(false)]
pub(crate) fn items_to_types(items: &Vec<JsonValue>) -> (r: Option<Vec<Vec<u8>>>)
    ensures
        r matches Some(ts) ==> types_of_items(jitems_of(items@)) == Some(
            Seq::new(ts@.len(), |q: int| ts@[q]@),
        ),
        r is None ==> types_of_items(jitems_of(items@)) is None,
{
    let ghost jitems = jitems_of(items@);
    proof {
        lemma_jitems_index(items@);
        assert(jitems.skip(0) =~= jitems);
    }
    let n = items.len();
    let mut out: Vec<Vec<u8>> = Vec::new();
    let mut i: usize = 0;
    while i < n
        invariant
            i <= n,
            n == items@.len(),
            jitems == jitems_of(items@),
            jitems.len() == n,
            forall|q: int| 0 <= q < n ==> #[trigger] jitems[q] == items@[q]@,
            out@.len() == i,
            forall|q: int| 0 <= q < i ==> (#[trigger] jitems[q]) == JVal::Str(out@[q]@),
            types_of_items(jitems.skip(i as int)) matches Some(rest) ==> types_of_items(jitems)
                == Some(Seq::new(i as nat, |q: int| out@[q]@) + rest),
            types_of_items(jitems.skip(i as int)) is None ==> types_of_items(jitems) is None,
        decreases n - i,
    {
        proof {
            assert(jitems.skip(i as int)[0] == jitems[i as int]);
            assert(jitems.skip(i as int).skip(1) =~= jitems.skip(i + 1));
        }
        match &items[i] {
            JsonValue::Str(t) => {
                let ghost old_out = out@;
                out.push(subvec(t, 0, t.len()));
                proof {
                    if types_of_items(jitems.skip(i + 1)) is Some {
                        let rest = types_of_items(jitems.skip(i + 1)).unwrap();
                        assert(types_of_items(jitems.skip(i as int)) == Some(
                            seq![t@] + rest,
                        ));
                        assert(Seq::new(i as nat, |q: int| old_out[q]@) + (seq![t@] + rest)
                            =~~= Seq::new((i + 1) as nat, |q: int| out@[q]@) + rest);
                    }
                }
                i += 1;
            },
            _ => {
                proof {
                    assert(types_of_items(jitems.skip(i as int)) is None);
                }
                return None;
            },
        }
    }
    proof {
        assert(jitems.skip(n as int).len() == 0);
        assert(types_of_items(jitems.skip(n as int)) == Some(Seq::<Seq<u8>>::empty()));
        assert(Seq::new(n as nat, |q: int| out@[q]@) + Seq::<Seq<u8>>::empty() =~~= Seq::new(
            out@.len(),
            |q: int| out@[q]@,
        ));
    }
    Some(out)
}

/// The subject carried by a claim value.
#[verifier::loop_isolation(false)]
#[verifier::rlimit(100)]
fn value_to_subject(v: &JsonValue) -> (r: Option<Subject>)
    ensures
        r matches Some(s) ==> subject_of_jval(v@) == Some(s@),
        r is None ==> subject_of_jval(v@) is None,
{
    let id_k: Vec<u8> = vec![105, 100];
    proof {
        assert(id_k@ =~= k_id());
    }
    match v {
        JsonValue::Obj(m) => {
            proof {
                lemma_jmembers_index(m@);
            }
            let ghost mm = jmembers_of(m@);
            if m.len() > 0 && crate::bytes::bytes_eq(&m[0].0, &id_k) {
                match &m[0].1 {
                    JsonValue::Str(idv) => {
                        let n = m.len();
                        let mut props: Vec<(Vec<u8>, JsonValue)> = Vec::new();
                        let mut i: usize = 1;
                        while i < n
                            invariant
                                1 <= i <= n,
                                n == m@.len(),
                                mm == jmembers_of(m@),
                                mm.len() == n,
                                forall|q: int|
                                    0 <= q < n ==> #[trigger] mm[q] == (m@[q].0@, m@[q].1@),
                                props@.len() == i - 1,
                                forall|q: int|
                                    0 <= q < i - 1 ==> (#[trigger] props@[q]).0@ == m@[q + 1].0@
                                        && props@[q].1@ == m@[q + 1].1@,
                                forall|q: int| 1 <= q < i ==> (#[trigger] mm[q]).0 != k_id(),
                            decreases n - i,
                        {
                            if crate::bytes::bytes_eq(&m[i].0, &id_k) {
                                proof {
                                    assert((mm.skip(1)[i - 1]).0 == k_id());
                                    assert(!crate::credential::no_id_key(mm.skip(1)));
                                }
                                return None;
                            }
                            let key = subvec(&m[i].0, 0, m[i].0.len());
                            let val = clone_json(&m[i].1);
                            props.push((key, val));
                            i += 1;
                        }
                        let s = Subject {
                            id: Some(subvec(idv, 0, idv.len())),
                            properties: props,
                        };
                        proof {
                            lemma_jmembers_index(s.properties@);
                            assert(jmembers_of(s.properties@) =~~= mm.skip(1)) by {
                                assert forall|q: int|
                                    0 <= q < mm.skip(1).len() implies jmembers_of(
                                    s.properties@,
                                )[q] =~~= mm.skip(1)[q] by {
                                    assert(mm.skip(1)[q] == mm[q + 1]);
                                }
                            }
                            assert(crate::credential::no_id_key(mm.skip(1))) by {
                                assert forall|q: int|
                                    0 <= q < mm.skip(1).len() implies (#[trigger] mm.skip(
                                    1,
                                )[q]).0 != k_id() by {
                                    assert(mm.skip(1)[q] == mm[q + 1]);
                                }
                            }
                            assert(subject_of_jval(v@) == Some(s@));
                        }
                        Some(s)
                    },
                    _ => {
                        proof {
                            assert(mm[0].0 == k_id());
                            assert(!(mm[0].1 is Str));
                        }
                        None
                    },
                }
            } else {
                let n = m.len();
                let mut props: Vec<(Vec<u8>, JsonValue)> = Vec::new();
                let mut i: usize = 0;
                while i < n
                    invariant
                        i <= n,
                        n == m@.len(),
                        mm == jmembers_of(m@),
                        mm.len() == n,
                        forall|q: int| 0 <= q < n ==> #[trigger] mm[q] == (m@[q].0@, m@[q].1@),
                        props@.len() == i,
                        forall|q: int|
                            0 <= q < i ==> (#[trigger] props@[q]).0@ == m@[q].0@ && props@[q].1@
                                == m@[q].1@,
                        forall|q: int| 0 <= q < i ==> (#[trigger] mm[q]).0 != k_id(),
                    decreases n - i,
                {
                    if crate::bytes::bytes_eq(&m[i].0, &id_k) {
                        proof {
                            assert((mm[i as int]).0 == k_id());
                            assert(!crate::credential::no_id_key(mm));
                        }
                        return None;
                    }
                    let key = subvec(&m[i].0, 0, m[i].0.len());
                    let val = clone_json(&m[i].1);
                    props.push((key, val));
                    i += 1;
                }
                let s = Subject { id: None, properties: props };
                proof {
                    lemma_jmembers_index(s.properties@);
                    assert(jmembers_of(s.properties@) =~~= mm);
                    assert(crate::credential::no_id_key(mm));
                    if mm.len() > 0 {
                        assert(mm[0].0 != k_id());
                    }
                    assert(subject_of_jval(v@) == Some(s@));
                }
                Some(s)
            }
        },
        _ => None,
    }
}

/// The subject list carried by claim items.
#[verifier::loop_isolation(false)]
fn items_to_subjects(items: &Vec<JsonValue>) -> (r: Option<Vec<Subject>>)
    ensures
        r matches Some(ss) ==> subjects_of_items(jitems_of(items@)) == Some(
            Seq::new(ss@.len(), |q: int| ss@[q]@),
        ),
        r is None ==> subjects_of_items(jitems_of(items@)) is None,
{
    let ghost jitems = jitems_of(items@);
    proof {
        lemma_jitems_index(items@);
        assert(jitems.skip(0) =~= jitems);
    }
    let n = items.len();
    let mut out: Vec<Subject> = Vec::new();
    let mut i: usize = 0;
    while i < n
        invariant
            i <= n,
            n == items@.len(),
            jitems == jitems_of(items@),
            jitems.len() == n,
            forall|q: int| 0 <= q < n ==> #[trigger] jitems[q] == items@[q]@,
            out@.len() == i,
            subjects_of_items(jitems.skip(i as int)) matches Some(rest) ==> subjects_of_items(
                jitems,
            ) == Some(Seq::new(i as nat, |q: int| out@[q]@) + rest),
            subjects_of_items(jitems.skip(i as int)) is None ==> subjects_of_items(
                jitems,
            ) is None,
        decreases n - i,
    {
        proof {
            assert(jitems.skip(i as int)[0] == jitems[i as int]);
            assert(jitems.skip(i as int).skip(1) =~= jitems.skip(i + 1));
        }
        match value_to_subject(&items[i]) {
            Some(s) => {
                let ghost old_out = out@;
                let ghost sv = s@;
                out.push(s);
                proof {
                    if subjects_of_items(jitems.skip(i + 1)) is Some {
                        let rest = subjects_of_items(jitems.skip(i + 1)).unwrap();
                        assert(subjects_of_items(jitems.skip(i as int)) == Some(seq![sv] + rest));
                        assert(Seq::new(i as nat, |q: int| old_out[q]@) + (seq![sv] + rest)
                            =~= Seq::new((i + 1) as nat, |q: int| out@[q]@) + rest);
                    }
                }
                i += 1;
            },
            None => {
                proof {
                    assert(subjects_of_items(jitems.skip(i as int)) is None);
                }
                return None;
            },
        }
    }
    proof {
        assert(jitems.skip(n as int).len() == 0);
        assert(subjects_of_items(jitems.skip(n as int)) == Some(Seq::<SubjectV>::empty()));
        assert(Seq::new(n as nat, |q: int| out@[q]@) + Seq::<SubjectV>::empty() =~= Seq::new(
            out@.len(),
            |q: int| out@[q]@,
        ));
    }
    Some(out)
}

/// The credential carried by a decoded JWT claim set.
#[verifier::rlimit(100)]
pub fn value_to_credential(v: &JsonValue) -> (r: Option<Credential>)
    ensures
        r matches Some(c) ==> cred_of_jval(v@) == Some(c@),
        r is None ==> cred_of_jval(v@) is None,
{
    let iss_k: Vec<u8> = vec![105, 115, 115];
    let nbf_k: Vec<u8> = vec![110, 98, 102];
    let exp_k: Vec<u8> = vec![101, 120, 112];
    let vc_k: Vec<u8> = vec![118, 99];
    let id_k: Vec<u8> = vec![105, 100];
    let ty_k: Vec<u8> = vec![116, 121, 112, 101];
    let cs_k: Vec<u8> = vec![
        99,
        114,
        101,
        100,
        101,
        110,
        116,
        105,
        97,
        108,
        83,
        117,
        98,
        106,
        101,
        99,
        116,
    ];
    let st_k: Vec<u8> = vec![
        99,
        114,
        101,
        100,
        101,
        110,
        116,
        105,
        97,
        108,
        83,
        116,
        97,
        116,
        117,
        115,
    ];
    proof {
        assert(iss_k@ =~= k_iss());
        assert(nbf_k@ =~= k_nbf());
        assert(exp_k@ =~= k_exp());
        assert(vc_k@ =~= k_vc());
        assert(id_k@ =~= k_id());
        assert(ty_k@ =~= k_type());
        assert(cs_k@ =~= k_subject());
        assert(st_k@ =~= k_status());
    }
    let m = match v {
        JsonValue::Obj(m) => m,
        _ => {
            return None;
        },
    };
    proof {
        lemma_jmembers_index(m@);
    }
    let ghost mm = jmembers_of(m@);
    let n = m.len();
    if n < 2 || n > 4 {
        return None;
    }
    if !crate::bytes::bytes_eq(&m[0].0, &iss_k) || !crate::bytes::bytes_eq(&m[n - 1].0, &vc_k) {
        return None;
    }
    let issuer = match &m[0].1 {
        JsonValue::Str(s) => {
            let r = subvec(s, 0, s.len());
            proof {
                assert(r@ =~= s@);
            }
            r
        },
        _ => {
            return None;
        },
    };
    // The optional nbf/exp claims in the middle.
    let mut nbf: Option<u64> = None;
    let mut exp: Option<u64> = None;
    proof {
        assert(mm.subrange(1, mm.len() - 1).len() == n - 2);
    }
    if n == 3 {
        proof {
            assert(mm.subrange(1, mm.len() - 1)[0] == mm[1]);
        }
        match &m[1].1 {
            JsonValue::Num(t) => {
                if crate::bytes::bytes_eq(&m[1].0, &nbf_k) {
                    nbf = Some(*t);
                } else if crate::bytes::bytes_eq(&m[1].0, &exp_k) {
                    exp = Some(*t);
                } else {
                    proof {
                        assert(mid_dates(mm.subrange(1, mm.len() - 1)) is None);
                    }
                    return None;
                }
            },
            _ => {
                proof {
                    assert(mid_dates(mm.subrange(1, mm.len() - 1)) is None);
                }
                return None;
            },
        }
    } else if n == 4 {
        proof {
            assert(mm.subrange(1, mm.len() - 1)[0] == mm[1]);
            assert(mm.subrange(1, mm.len() - 1)[1] == mm[2]);
        }
        match (&m[1].1, &m[2].1) {
            (JsonValue::Num(a), JsonValue::Num(b)) => {
                if crate::bytes::bytes_eq(&m[1].0, &nbf_k) && crate::bytes::bytes_eq(
                    &m[2].0,
                    &exp_k,
                ) {
                    nbf = Some(*a);
                    exp = Some(*b);
                } else {
                    proof {
                        assert(mid_dates(mm.subrange(1, mm.len() - 1)) is None);
                    }
                    return None;
                }
            },
            _ => {
                proof {
                    assert(mid_dates(mm.subrange(1, mm.len() - 1)) is None);
                }
                return None;
            },
        }
    }
    proof {
        if n == 2 {
            assert(mm.subrange(1, mm.len() - 1) =~= Seq::<(Seq<u8>, JVal)>::empty());
        }
        assert(mid_dates(mm.subrange(1, mm.len() - 1)) == Some((nbf, exp)));
    }
    // The nested vc claim.
    let vm = match &m[n - 1].1 {
        JsonValue::Obj(vm) => vm,
        _ => {
            return None;
        },
    };
    proof {
        lemma_jmembers_index(vm@);
    }
    let ghost vmm = jmembers_of(vm@);
    let vn = vm.len();
    if vn < 3 || vn > 4 {
        return None;
    }
    if !crate::bytes::bytes_eq(&vm[0].0, &id_k) || !crate::bytes::bytes_eq(&vm[1].0, &ty_k)
        || !crate::bytes::bytes_eq(&vm[2].0, &cs_k) {
        return None;
    }
    let cid = match &vm[0].1 {
        JsonValue::Str(s) => {
            let r = subvec(s, 0, s.len());
            proof {
                assert(r@ =~= s@);
            }
            r
        },
        _ => {
            return None;
        },
    };
    let types = match &vm[1].1 {
        JsonValue::Arr(tis) => {
            match items_to_types(tis) {
                Some(ts) => ts,
                None => {
                    return None;
                },
            }
        },
        _ => {
            return None;
        },
    };
    let subjects = match &vm[2].1 {
        JsonValue::Arr(sis) => {
            match items_to_subjects(sis) {
                Some(ss) => ss,
                None => {
                    return None;
                },
            }
        },
        _ => {
            return None;
        },
    };
    let status: Option<CredentialStatus> = if vn == 4 {
        if !crate::bytes::bytes_eq(&vm[3].0, &st_k) {
            return None;
        }
        match value_to_status(&vm[3].1) {
            Some(st) => Some(st),
            None => {
                return None;
            },
        }
    } else {
        None
    };
    let c = Credential {
        id: cid,
        issuer,
        types,
        subjects,
        status,
        issuance_date: nbf,
        expiration_date: exp,
    };
    proof {
        assert(vc_of_jval(mm[n - 1].1) == Some(
            (c@.id, c@.types, c@.subjects, c@.status),
        ));
    }
    // The read-back credential must be well-formed, exactly as the
    // claim-set reading demands.
    if !crate::credential::is_uri(&c.id) || !crate::credential::is_uri(&c.issuer) {
        return None;
    }
    if c.types.len() == 0 || c.subjects.len() == 0 {
        return None;
    }
    proof {
        match vm@[2].1 {
            JsonValue::Arr(sis) => {
                lemma_subjects_of_items_wf(jitems_of(sis@), c@.subjects);
            },
            _ => {
                assert(false);
            },
        }
        assert(crate::credential::cred_wf(c@));
        assert(cred_of_jval(v@) == Some(c@));
    }
    Some(c)
}


/// A decoded credential token: the key reference, the reconstructed
/// credential, the signature, and the bytes the signature covers.
pub struct DecodedCredential {
    /// The header's key reference (a DID URL).
    pub kid: Vec<u8>,
    /// The credential carried in the `vc` claim.
    pub credential: Credential,
    /// The raw Ed25519 signature bytes.
    pub signature: Vec<u8>,
    /// The signed bytes: both base64url segments joined by a dot.
    pub signing_input: Vec<u8>,
}

/// Issues a credential as a JWT signed by the document's method with the
/// given fragment.
///
/// Fails with `MethodNotFound` when the fragment resolves to no method,
/// and with `SigningFailed` when the method's key is missing from the
/// store.
pub fn issue_credential_jwt(
    credential: &Credential,
    document: &Document,
    storage: &MemStorage,
    fragment: &Vec<u8>,
) -> (r: Result<Jwt, Error>)
    ensures
        (r matches Err(e) && e == Error::MethodNotFound) <==> find_method(
            document@.methods,
            fragment@,
        ) is None,
        (r matches Err(e) && e == Error::SigningFailed) <==> (find_method(
            document@.methods,
            fragment@,
        ) matches Some(m) && m.key_id >= storage.key_count()),
        r matches Err(e) ==> e == Error::MethodNotFound || e == Error::SigningFailed,
        r matches Ok(j) ==> (find_method(document@.methods, fragment@) matches Some(m) && {
            let kid = kid_of(document@.did, fragment@);
            let si = jws_signing_input(
                pr_val(header_jval(kid)),
                pr_val(cred_payload_jval(credential@)),
            );
            &&& m.key_id < storage.key_count()
            &&& j@ == cred_jwt_bytes(
                kid,
                credential@,
                crate::crypto::ed25519_sig_of(storage.sk_at(m.key_id), si),
            )
            &&& crate::crypto::ed25519_verifies(
                crate::crypto::ed25519_pk_of(storage.sk_at(m.key_id)),
                si,
                crate::crypto::ed25519_sig_of(storage.sk_at(m.key_id), si),
            )
        }),
{
    let ix = match document.resolve_method(fragment) {
        Ok(ix) => ix,
        Err(_) => {
            return Err(Error::MethodNotFound);
        },
    };
    let key_id = document.methods[ix].key_id;
    let mut kid: Vec<u8> = subvec(&document.did, 0, document.did.len());
    kid.push(35);
    push_all(&mut kid, fragment);
    proof {
        assert(kid@ =~= kid_of(document@.did, fragment@));
    }
    let hb = header_bytes(&kid);
    let pv = credential_to_value(credential);
    let mut pb: Vec<u8> = Vec::new();
    write_jval(&mut pb, &pv);
    proof {
        assert(pb@ =~= pr_val(cred_payload_jval(credential@)));
    }
    let mut si = base64url_encode(&hb);
    si.push(46);
    let pb64 = base64url_encode(&pb);
    push_all(&mut si, &pb64);
    proof {
        assert(si@ =~= jws_signing_input(pr_val(header_jval(kid@)), pb@));
    }
    let sig = match storage.sign(key_id, &si) {
        Ok(sig) => sig,
        Err(_) => {
            return Err(Error::SigningFailed);
        },
    };
    let mut raw = si;
    raw.push(46);
    let sb64 = base64url_encode(&sig);
    push_all(&mut raw, &sb64);
    proof {
        assert(raw@ =~= cred_jwt_bytes(
            kid_of(document@.did, fragment@),
            credential@,
            sig@,
        ));
    }
    Ok(Jwt { raw })
}

/// Decodes a credential token without verifying anything about it beyond
/// its shape: exactly the canonical tokens over well-formed credentials
/// decode, and they decode to their own parts.
#[verifier::rlimit(100)]
pub fn decode_credential_jwt(jwt: &Jwt) -> (r: Result<DecodedCredential, Error>)
    ensures
        r matches Ok(d) ==> jwt@ == cred_jwt_bytes(d.kid@, d.credential@, d.signature@) && cred_wf(
            d.credential@,
        ) && d.signing_input@ == jws_signing_input(
            pr_val(header_jval(d.kid@)),
            pr_val(cred_payload_jval(d.credential@)),
        ),
        r matches Err(e) ==> e == Error::MalformedJwt,
        forall|kid: Seq<u8>, c: CredentialV, sig: Seq<u8>|
            jwt@ == cred_jwt_bytes(kid, c, sig) && cred_wf(c) ==> (r matches Ok(d) && d.kid@ == kid
                && d.credential@ == c && d.signature@ == sig),
{
    let ghost has_w = exists|kid: Seq<u8>, c: CredentialV, sig: Seq<u8>|
        jwt@ == cred_jwt_bytes(kid, c, sig) && cred_wf(c);
    let ghost (kw, cw, sw): (Seq<u8>, CredentialV, Seq<u8>) = if has_w {
        choose|kid: Seq<u8>, c: CredentialV, sig: Seq<u8>|
            jwt@ == cred_jwt_bytes(kid, c, sig) && cred_wf(c)
    } else {
        arbitrary()
    };
    let parts = match jws_split(&jwt.raw) {
        Some(t) => t,
        None => {
            proof {
                if has_w {
                    assert(false);
                }
            }
            return Err(Error::MalformedJwt);
        },
    };
    let (hb, pb, sig, si) = parts;
    proof {
        if has_w {
            assert(hb@ == pr_val(header_jval(kw)) && pb@ == pr_val(cred_payload_jval(cw)) && sig@
                == sw);
        }
    }
    // Parse and read the header.
    let hv = match parse_value(&hb, 0) {
        Some(t) => t,
        None => {
            proof {
                if has_w {
                    assert(hb@.skip(0) =~= pr_val(header_jval(kw)) + Seq::<u8>::empty());
                    assert(false);
                }
            }
            return Err(Error::MalformedJwt);
        },
    };
    if hv.1 != hb.len() {
        proof {
            if has_w {
                assert(hb@.skip(0) =~= pr_val(header_jval(kw)) + Seq::<u8>::empty());
                assert(false);
            }
        }
        return Err(Error::MalformedJwt);
    }
    let kid = match value_to_kid(&hv.0) {
        Some(kid) => kid,
        None => {
            proof {
                if has_w {
                    assert(hb@.skip(0) =~= pr_val(header_jval(kw)) + Seq::<u8>::empty());
                    assert(hv.0@ == header_jval(kw));
                    lemma_header_extract(kw);
                    assert(false);
                }
            }
            return Err(Error::MalformedJwt);
        },
    };
    // Parse and read the payload.
    let pv = match parse_value(&pb, 0) {
        Some(t) => t,
        None => {
            proof {
                if has_w {
                    assert(pb@.skip(0) =~= pr_val(cred_payload_jval(cw)) + Seq::<u8>::empty());
                    assert(false);
                }
            }
            return Err(Error::MalformedJwt);
        },
    };
    if pv.1 != pb.len() {
        proof {
            if has_w {
                assert(pb@.skip(0) =~= pr_val(cred_payload_jval(cw)) + Seq::<u8>::empty());
                assert(false);
            }
        }
        return Err(Error::MalformedJwt);
    }
    let credential = match value_to_credential(&pv.0) {
        Some(c) => c,
        None => {
            proof {
                if has_w {
                    assert(pb@.skip(0) =~= pr_val(cred_payload_jval(cw)) + Seq::<u8>::empty());
                    assert(pv.0@ == cred_payload_jval(cw));
                    lemma_cred_extract(cw);
                    assert(false);
                }
            }
            return Err(Error::MalformedJwt);
        },
    };
    let d = DecodedCredential { kid, credential, signature: sig, signing_input: si };
    proof {
        // Soundness: the token is the canonical bytes of what was read.
        lemma_header_inverse(hv.0@, d.kid@);
        lemma_cred_extract_inverse(pv.0@, d.credential@);
        assert(hb@.subrange(0, hv.1 as int) =~= hb@);
        assert(pb@.subrange(0, pv.1 as int) =~= pb@);
        assert(hb@ == pr_val(header_jval(d.kid@)));
        assert(pb@ == pr_val(cred_payload_jval(d.credential@)));
        // Every reading of the same token agrees.
        assert forall|kid2: Seq<u8>, c2: CredentialV, sig2: Seq<u8>|
            jwt@ == cred_jwt_bytes(kid2, c2, sig2) && cred_wf(c2) implies (d.kid@ == kid2
            && d.credential@ == c2 && d.signature@ == sig2) by {
            lemma_jws_unique_pub(
                pr_val(header_jval(kid2)),
                pr_val(cred_payload_jval(c2)),
                sig2,
                hb@,
                pb@,
                sig@,
            );
            lemma_pr_val_unique(
                header_jval(kid2),
                header_jval(d.kid@),
                Seq::empty(),
                Seq::empty(),
            );
            lemma_pr_val_unique(
                cred_payload_jval(c2),
                cred_payload_jval(d.credential@),
                Seq::empty(),
                Seq::empty(),
            );
            lemma_cred_extract(c2);
            lemma_cred_extract(d.credential@);
            assert(pr_val(header_jval(kid2)) + Seq::<u8>::empty() =~= hb@);
            assert(pr_val(header_jval(d.kid@)) + Seq::<u8>::empty() =~= hb@);
            assert(pr_val(cred_payload_jval(c2)) + Seq::<u8>::empty() =~= pb@);
            assert(pr_val(cred_payload_jval(d.credential@)) + Seq::<u8>::empty() =~= pb@);
        }
    }
    Ok(d)
}

/// The issuer DID named inside a credential token, read without any
/// verification; used to pick the documents to resolve before validation.
pub fn extract_issuer(jwt: &Jwt) -> (r: Result<Vec<u8>, Error>)
    ensures
        r matches Err(e) ==> e == Error::MalformedJwt,
        r matches Ok(iss) ==> exists|kid: Seq<u8>, c: CredentialV, sig: Seq<u8>|
            jwt@ == cred_jwt_bytes(kid, c, sig) && cred_wf(c) && c.issuer == iss@,
        forall|kid: Seq<u8>, c: CredentialV, sig: Seq<u8>|
            jwt@ == cred_jwt_bytes(kid, c, sig) && cred_wf(c) ==> (r matches Ok(iss) && iss@
                == c.issuer),
{
    match decode_credential_jwt(jwt) {
        Ok(d) => {
            proof {
                assert(jwt@ == cred_jwt_bytes(d.kid@, d.credential@, d.signature@) && cred_wf(
                    d.credential@,
                ) && d.credential@.issuer == d.credential.issuer@);
            }
            Ok(d.credential.issuer)
        },
        Err(e) => Err(e),
    }
}

} // verus!
