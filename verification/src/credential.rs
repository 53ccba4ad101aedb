//! The credential model: subjects with arbitrary claims, an optional
//! revocation pointer, timestamps, and the canonical claim-set form that
//! carries a credential inside a JWT payload.

use crate::errors::Error;
use crate::json::{jmembers_of, JVal, JsonValue};
use vstd::prelude::*;

verus! {

/// The claim key `id`.
pub open spec fn k_id() -> Seq<u8> {
    seq![105u8, 100u8]
}

/// The claim key `iss`.
pub open spec fn k_iss() -> Seq<u8> {
    seq![105u8, 115u8, 115u8]
}

/// The claim key `nbf`.
pub open spec fn k_nbf() -> Seq<u8> {
    seq![110u8, 98u8, 102u8]
}

/// The claim key `exp`.
pub open spec fn k_exp() -> Seq<u8> {
    seq![101u8, 120u8, 112u8]
}

/// The claim key `vc`.
pub open spec fn k_vc() -> Seq<u8> {
    seq![118u8, 99u8]
}

/// The claim key `type`.
pub open spec fn k_type() -> Seq<u8> {
    seq![116u8, 121u8, 112u8, 101u8]
}

/// The claim key `credentialSubject`.
pub open spec fn k_subject() -> Seq<u8> {
    seq![
        99u8,
        114u8,
        101u8,
        100u8,
        101u8,
        110u8,
        116u8,
        105u8,
        97u8,
        108u8,
        83u8,
        117u8,
        98u8,
        106u8,
        101u8,
        99u8,
        116u8,
    ]
}

/// The claim key `credentialStatus`.
pub open spec fn k_status() -> Seq<u8> {
    seq![
        99u8,
        114u8,
        101u8,
        100u8,
        101u8,
        110u8,
        116u8,
        105u8,
        97u8,
        108u8,
        83u8,
        116u8,
        97u8,
        116u8,
        117u8,
        115u8,
    ]
}

/// The claim key `index`.
pub open spec fn k_index() -> Seq<u8> {
    seq![105u8, 110u8, 100u8, 101u8, 120u8]
}

/// Whether a byte is an ASCII letter.
pub open spec fn is_alpha(b: u8) -> bool {
    (65 <= b <= 90) || (97 <= b <= 122)
}

/// A minimally well-formed URI: a non-empty all-letter scheme, a colon,
/// and a non-empty remainder.
pub open spec fn uri_ok(s: Seq<u8>) -> bool {
    exists|i: int|
        0 < i < s.len() - 1 && s[i] == 58 && forall|j: int| 0 <= j < i ==> is_alpha(#[trigger] s[j])
}

/// One credential subject: an optional subject id and its claims.
pub struct Subject {
    /// The subject's identifier, usually the holder's DID.
    pub id: Option<Vec<u8>>,
    /// The subject's claims, keyed by field name.
    pub properties: Vec<(Vec<u8>, JsonValue)>,
}

/// The mathematical mirror of a subject.
#[verifier::ext_equal]
pub struct SubjectV {
    /// The subject's identifier.
    pub id: Option<Seq<u8>>,
    /// The subject's claims.
    pub properties: Seq<(Seq<u8>, JVal)>,
}

impl View for Subject {
    type V = SubjectV;

    open spec fn view(&self) -> SubjectV {
        SubjectV {
            id: match self.id {
                Some(v) => Some(v@),
                None => None,
            },
            properties: jmembers_of(self.properties@),
        }
    }
}

/// A revocation pointer: the issuer-document service holding the bitmap,
/// and this credential's index in it.
pub struct CredentialStatus {
    /// The fragment of the revocation service on the issuer document.
    pub service_fragment: Vec<u8>,
    /// The credential's index in the bitmap.
    pub index: u32,
}

/// The mathematical mirror of a revocation pointer.
#[verifier::ext_equal]
pub struct StatusV {
    /// The revocation service fragment.
    pub service_fragment: Seq<u8>,
    /// The credential's index.
    pub index: u32,
}

impl View for CredentialStatus {
    type V = StatusV;

    open spec fn view(&self) -> StatusV {
        StatusV { service_fragment: self.service_fragment@, index: self.index }
    }
}

/// A verifiable credential, immutable once built.
pub struct Credential {
    /// The credential's URI.
    pub id: Vec<u8>,
    /// The issuer's DID or URI.
    pub issuer: Vec<u8>,
    /// The credential's type tags.
    pub types: Vec<Vec<u8>>,
    /// One or more subjects.
    pub subjects: Vec<Subject>,
    /// The optional revocation pointer.
    pub status: Option<CredentialStatus>,
    /// The optional issuance timestamp, seconds since the epoch.
    pub issuance_date: Option<u64>,
    /// The optional expiration timestamp, seconds since the epoch.
    pub expiration_date: Option<u64>,
}

/// The mathematical mirror of a credential.
#[verifier::ext_equal]
pub struct CredentialV {
    /// The credential's URI.
    pub id: Seq<u8>,
    /// The issuer's DID or URI.
    pub issuer: Seq<u8>,
    /// The type tags.
    pub types: Seq<Seq<u8>>,
    /// The subjects.
    pub subjects: Seq<SubjectV>,
    /// The revocation pointer.
    pub status: Option<StatusV>,
    /// The issuance timestamp.
    pub issuance_date: Option<u64>,
    /// The expiration timestamp.
    pub expiration_date: Option<u64>,
}

impl View for Credential {
    type V = CredentialV;

    open spec fn view(&self) -> CredentialV {
        CredentialV {
            id: self.id@,
            issuer: self.issuer@,
            types: Seq::new(self.types@.len(), |i: int| self.types@[i]@),
            subjects: Seq::new(self.subjects@.len(), |i: int| self.subjects@[i]@),
            status: match self.status {
                Some(st) => Some(st@),
                None => None,
            },
            issuance_date: self.issuance_date,
            expiration_date: self.expiration_date,
        }
    }
}

/// No claim uses the reserved key `id`.
pub open spec fn no_id_key(m: Seq<(Seq<u8>, JVal)>) -> bool {
    forall|i: int| 0 <= i < m.len() ==> (#[trigger] m[i]).0 != k_id()
}

/// A well-formed subject: its claims stay clear of the reserved `id` key.
pub open spec fn subject_wf(s: SubjectV) -> bool {
    no_id_key(s.properties)
}

/// A well-formed credential: well-formed URIs for id and issuer, at least
/// one type tag, at least one subject, all subjects well-formed.
pub open spec fn cred_wf(c: CredentialV) -> bool {
    &&& uri_ok(c.id)
    &&& uri_ok(c.issuer)
    &&& c.types.len() >= 1
    &&& c.subjects.len() >= 1
    &&& forall|i: int| 0 <= i < c.subjects.len() ==> subject_wf(#[trigger] c.subjects[i])
}

/// The claim-set form of a subject.
pub open spec fn subject_jval(s: SubjectV) -> JVal {
    JVal::Obj(
        match s.id {
            Some(id) => seq![(k_id(), JVal::Str(id))] + s.properties,
            None => s.properties,
        },
    )
}

/// The claim-set form of a type list.
pub open spec fn types_items(ts: Seq<Seq<u8>>) -> Seq<JVal> {
    Seq::new(ts.len(), |i: int| JVal::Str(ts[i]))
}

/// The claim-set form of a subject list.
pub open spec fn subjects_items(ss: Seq<SubjectV>) -> Seq<JVal> {
    Seq::new(ss.len(), |i: int| subject_jval(ss[i]))
}

/// The claim-set form of a revocation pointer.
pub open spec fn status_jval(st: StatusV) -> JVal {
    JVal::Obj(
        seq![
            (k_id(), JVal::Str(st.service_fragment)),
            (k_index(), JVal::Num(st.index as u64)),
        ],
    )
}

/// An optional numeric claim, present only when the value is.
pub open spec fn opt_num_member(k: Seq<u8>, o: Option<u64>) -> Seq<(Seq<u8>, JVal)> {
    match o {
        Some(n) => seq![(k, JVal::Num(n))],
        None => Seq::empty(),
    }
}

/// An optional status claim, present only when the pointer is.
pub open spec fn opt_status_member(o: Option<StatusV>) -> Seq<(Seq<u8>, JVal)> {
    match o {
        Some(st) => seq![(k_status(), status_jval(st))],
        None => Seq::empty(),
    }
}

/// The nested `vc` claim carrying the full structured credential.
pub open spec fn vc_jval(c: CredentialV) -> JVal {
    JVal::Obj(
        seq![
            (k_id(), JVal::Str(c.id)),
            (k_type(), JVal::Arr(types_items(c.types))),
            (k_subject(), JVal::Arr(subjects_items(c.subjects))),
        ] + opt_status_member(c.status),
    )
}

/// The full JWT claim set of a credential: standard claims plus the nested
/// `vc` claim.
pub open spec fn cred_payload_jval(c: CredentialV) -> JVal {
    JVal::Obj(
        seq![(k_iss(), JVal::Str(c.issuer))] + opt_num_member(k_nbf(), c.issuance_date)
            + opt_num_member(k_exp(), c.expiration_date) + seq![(k_vc(), vc_jval(c))],
    )
}

impl Credential {
    /// Builds a credential.
    ///
    /// Fails with `MissingRequiredField` when id, issuer, types or
    /// subjects are empty, `InvalidUrl` when id or issuer is not a
    /// well-formed URI, and `ReservedClaimName` when a subject claim uses
    /// the reserved key `id`; exactly the well-formed credentials are
    /// built.
    pub fn build(
        id: Vec<u8>,
        issuer: Vec<u8>,
        types: Vec<Vec<u8>>,
        subjects: Vec<Subject>,
        status: Option<CredentialStatus>,
        issuance_date: Option<u64>,
        expiration_date: Option<u64>,
    ) -> (r: Result<Credential, Error>)
        ensures
            r matches Ok(c) ==> cred_wf(c@) && c@ == (CredentialV {
                id: id@,
                issuer: issuer@,
                types: Seq::new(types@.len(), |i: int| types@[i]@),
                subjects: Seq::new(subjects@.len(), |i: int| subjects@[i]@),
                status: match status {
                    Some(st) => Some(st@),
                    None => None,
                },
                issuance_date,
                expiration_date,
            }),
            r matches Err(e) ==> (e == Error::MissingRequiredField || e == Error::InvalidUrl || e
                == Error::ReservedClaimName) && !cred_wf(
                CredentialV {
                    id: id@,
                    issuer: issuer@,
                    types: Seq::new(types@.len(), |i: int| types@[i]@),
                    subjects: Seq::new(subjects@.len(), |i: int| subjects@[i]@),
                    status: match status {
                        Some(st) => Some(st@),
                        None => None,
                    },
                    issuance_date,
                    expiration_date,
                },
            ),
    {
        if id.len() == 0 || issuer.len() == 0 || types.len() == 0 || subjects.len() == 0 {
            proof {
                if id@.len() == 0 || issuer@.len() == 0 {
                    assert(id@.len() == 0 ==> !uri_ok(id@));
                    assert(issuer@.len() == 0 ==> !uri_ok(issuer@));
                }
            }
            return Err(Error::MissingRequiredField);
        }
        if !is_uri(&id) || !is_uri(&issuer) {
            return Err(Error::InvalidUrl);
        }
        let n = subjects.len();
        let mut i: usize = 0;
        while i < n
            invariant
                i <= n,
                n == subjects@.len(),
                forall|q: int| 0 <= q < i ==> subject_wf(#[trigger] subjects@[q]@),
            decreases n - i,
        {
            if !subject_ok(&subjects[i]) {
                proof {
                    let cv = CredentialV {
                        id: id@,
                        issuer: issuer@,
                        types: Seq::new(types@.len(), |q: int| types@[q]@),
                        subjects: Seq::new(subjects@.len(), |q: int| subjects@[q]@),
                        status: match status {
                            Some(st) => Some(st@),
                            None => None,
                        },
                        issuance_date,
                        expiration_date,
                    };
                    assert(cv.subjects[i as int] == subjects@[i as int]@);
                    assert(!subject_wf(cv.subjects[i as int]));
                    assert(!cred_wf(cv));
                }
                return Err(Error::ReservedClaimName);
            }
            i += 1;
        }
        let c = Credential { id, issuer, types, subjects, status, issuance_date, expiration_date };
        proof {
            assert(cred_wf(c@));
        }
        Ok(c)
    }
}

/// Whether a byte string is a minimally well-formed URI.
pub fn is_uri(s: &Vec<u8>) -> (r: bool)
    ensures
        r == uri_ok(s@),
{
    let n = s.len();
    let mut i: usize = 0;
    while i < n
        invariant
            i <= n,
            n == s@.len(),
            forall|j: int| 0 <= j < i ==> is_alpha(#[trigger] s@[j]) && s@[j] != 58,
        decreases n - i,
    {
        let b = s[i];
        if b == 58 {
            if i > 0 && i + 1 < n {
                proof {
                    assert(0 < i < s@.len() - 1 && s@[i as int] == 58 && forall|j: int|
                        0 <= j < i ==> is_alpha(#[trigger] s@[j]));
                }
                return true;
            }
            proof {
                assert forall|q: int|
                    0 < q < s@.len() - 1 && s@[q] == 58 implies !(forall|j: int|
                    0 <= j < q ==> is_alpha(#[trigger] s@[j])) by {
                    if q > i {
                        assert(s@[i as int] == 58);
                        assert(!is_alpha(s@[i as int]));
                    } else {
                        assert(s@[q] != 58);
                    }
                }
            }
            return false;
        }
        if !((65 <= b && b <= 90) || (97 <= b && b <= 122)) {
            proof {
                assert forall|q: int|
                    0 < q < s@.len() - 1 && s@[q] == 58 implies !(forall|j: int|
                    0 <= j < q ==> is_alpha(#[trigger] s@[j])) by {
                    if q > i {
                        assert(!is_alpha(s@[i as int]));
                    } else {
                        assert(s@[q] != 58);
                    }
                }
            }
            return false;
        }
        i += 1;
    }
    proof {
        assert(forall|q: int| 0 < q < s@.len() - 1 ==> s@[q] != 58);
    }
    false
}

/// Whether a subject's claims stay clear of the reserved `id` key.
pub fn subject_ok(s: &Subject) -> (r: bool)
    ensures
        r == subject_wf(s@),
{
    let n = s.properties.len();
    let mut i: usize = 0;
    proof {
        crate::json::lemma_jmembers_index(s.properties@);
    }
    while i < n
        invariant
            i <= n,
            n == s.properties@.len(),
            s@.properties.len() == n,
            forall|q: int|
                0 <= q < n ==> (#[trigger] s@.properties[q]).0 == s.properties@[q].0@,
            forall|q: int| 0 <= q < i ==> (#[trigger] s@.properties[q]).0 != k_id(),
        decreases n - i,
    {
        let key = &s.properties[i].0;
        if key.len() == 2 && key[0] == 105 && key[1] == 100 {
            proof {
                assert(s.properties@[i as int].0@ =~= k_id());
                assert((s@.properties[i as int]).0 == k_id());
                assert(!no_id_key(s@.properties));
            }
            return false;
        }
        proof {
            assert(s@.properties[i as int].0 != k_id()) by {
                if s.properties@[i as int].0@ == k_id() {
                    assert(s.properties@[i as int].0@.len() == 2);
                    assert(s.properties@[i as int].0@[0] == 105);
                    assert(s.properties@[i as int].0@[1] == 100);
                }
            }
        }
        i += 1;
    }
    true
}


/// The subject encoded in a claim-set value, when the value has exactly
/// that shape.
pub open spec fn subject_of_jval(v: JVal) -> Option<SubjectV> {
    match v {
        JVal::Obj(m) => {
            if m.len() > 0 && m[0].0 == k_id() {
                match m[0].1 {
                    JVal::Str(id) => if no_id_key(m.skip(1)) {
                        Some(SubjectV { id: Some(id), properties: m.skip(1) })
                    } else {
                        None
                    },
                    _ => None,
                }
            } else {
                if no_id_key(m) {
                    Some(SubjectV { id: None, properties: m })
                } else {
                    None
                }
            }
        },
        _ => None,
    }
}

/// The subject list encoded in claim-set items.
pub open spec fn subjects_of_items(items: Seq<JVal>) -> Option<Seq<SubjectV>>
    decreases items.len(),
{
    if items.len() == 0 {
        Some(Seq::empty())
    } else {
        match (subject_of_jval(items[0]), subjects_of_items(items.skip(1))) {
            (Some(s), Some(rest)) => Some(seq![s] + rest),
            _ => None,
        }
    }
}

/// The type list encoded in claim-set items.
pub open spec fn types_of_items(items: Seq<JVal>) -> Option<Seq<Seq<u8>>>
    decreases items.len(),
{
    if items.len() == 0 {
        Some(Seq::empty())
    } else {
        match (items[0], types_of_items(items.skip(1))) {
            (JVal::Str(t), Some(rest)) => Some(seq![t] + rest),
            _ => None,
        }
    }
}

/// The revocation pointer encoded in a claim-set value.
pub open spec fn status_of_jval(v: JVal) -> Option<StatusV> {
    match v {
        JVal::Obj(m) => {
            if m.len() == 2 && m[0].0 == k_id() && m[1].0 == k_index() {
                match (m[0].1, m[1].1) {
                    (JVal::Str(frag), JVal::Num(ix)) => if ix <= u32::MAX {
                        Some(StatusV { service_fragment: frag, index: ix as u32 })
                    } else {
                        None
                    },
                    _ => None,
                }
            } else {
                None
            }
        },
        _ => None,
    }
}

/// The id, types, subjects and status encoded in a `vc` claim value.
pub open spec fn vc_of_jval(v: JVal) -> Option<(Seq<u8>, Seq<Seq<u8>>, Seq<SubjectV>, Option<
    StatusV,
>)> {
    match v {
        JVal::Obj(m) => {
            if (m.len() == 3 || m.len() == 4) && m[0].0 == k_id() && m[1].0 == k_type() && m[2].0
                == k_subject() {
                match (m[0].1, m[1].1, m[2].1) {
                    (JVal::Str(id), JVal::Arr(tis), JVal::Arr(sis)) => {
                        match (types_of_items(tis), subjects_of_items(sis)) {
                            (Some(ts), Some(ss)) => {
                                if m.len() == 3 {
                                    Some((id, ts, ss, None))
                                } else if m[3].0 == k_status() {
                                    match status_of_jval(m[3].1) {
                                        Some(st) => Some((id, ts, ss, Some(st))),
                                        None => None,
                                    }
                                } else {
                                    None
                                }
                            },
                            _ => None,
                        }
                    },
                    _ => None,
                }
            } else {
                None
            }
        },
        _ => None,
    }
}

/// The credential encoded in a JWT claim set, when the claim set has
/// exactly the canonical shape of a well-formed credential.
pub open spec fn cred_of_jval(v: JVal) -> Option<CredentialV> {
    match v {
        JVal::Obj(m) => {
            if 2 <= m.len() <= 4 && m[0].0 == k_iss() && m[m.len() - 1].0 == k_vc() {
                match m[0].1 {
                    JVal::Str(issuer) => {
                        let mid = mid_dates(m.subrange(1, m.len() - 1));
                        match (mid, vc_of_jval(m[m.len() - 1].1)) {
                            (Some((nbf, exp)), Some((id, ts, ss, st))) => {
                                let c = CredentialV {
                                    id: id,
                                    issuer: issuer,
                                    types: ts,
                                    subjects: ss,
                                    status: st,
                                    issuance_date: nbf,
                                    expiration_date: exp,
                                };
                                if cred_wf(c) {
                                    Some(c)
                                } else {
                                    None
                                }
                            },
                            _ => None,
                        }
                    },
                    _ => None,
                }
            } else {
                None
            }
        },
        _ => None,
    }
}

/// The optional `nbf` and `exp` claims among the middle members.
pub open spec fn mid_dates(m: Seq<(Seq<u8>, JVal)>) -> Option<(Option<u64>, Option<u64>)> {
    if m.len() == 0 {
        Some((None, None))
    } else if m.len() == 1 {
        match m[0].1 {
            JVal::Num(n) => if m[0].0 == k_nbf() {
                Some((Some(n), None))
            } else if m[0].0 == k_exp() {
                Some((None, Some(n)))
            } else {
                None
            },
            _ => None,
        }
    } else if m.len() == 2 {
        match (m[0].1, m[1].1) {
            (JVal::Num(a), JVal::Num(b)) => if m[0].0 == k_nbf() && m[1].0 == k_exp() {
                Some((Some(a), Some(b)))
            } else {
                None
            },
            _ => None,
        }
    } else {
        None
    }
}

/// Extraction inverts construction: the claim set of a well-formed
/// credential reads back as exactly that credential.
pub proof fn lemma_cred_extract(c: CredentialV)
    requires
        cred_wf(c),
    ensures
        cred_of_jval(cred_payload_jval(c)) == Some(c),
{
    let m = seq![(k_iss(), JVal::Str(c.issuer))] + opt_num_member(k_nbf(), c.issuance_date)
        + opt_num_member(k_exp(), c.expiration_date) + seq![(k_vc(), vc_jval(c))];
    assert(2 <= m.len() <= 4);
    assert(m[0] == (k_iss(), JVal::Str(c.issuer)));
    assert(m[m.len() - 1] == (k_vc(), vc_jval(c)));
    assert(mid_dates(m.subrange(1, m.len() - 1)) == Some(
        (c.issuance_date, c.expiration_date),
    )) by {
        let mid = m.subrange(1, m.len() - 1);
        match (c.issuance_date, c.expiration_date) {
            (Option::None, Option::None) => {
                assert(mid =~= Seq::<(Seq<u8>, JVal)>::empty());
            },
            (Option::Some(a), Option::None) => {
                assert(mid =~= seq![(k_nbf(), JVal::Num(a))]);
            },
            (Option::None, Option::Some(b)) => {
                assert(mid =~= seq![(k_exp(), JVal::Num(b))]);
            },
            (Option::Some(a), Option::Some(b)) => {
                assert(mid =~= seq![(k_nbf(), JVal::Num(a)), (k_exp(), JVal::Num(b))]);
            },
        }
    }
    lemma_vc_extract(c);
    assert(cred_of_jval(cred_payload_jval(c)) == Some(c));
}

/// The `vc` claim of a well-formed credential reads back as its parts.
proof fn lemma_vc_extract(c: CredentialV)
    requires
        cred_wf(c),
    ensures
        vc_of_jval(vc_jval(c)) == Some((c.id, c.types, c.subjects, c.status)),
{
    let m = seq![
        (k_id(), JVal::Str(c.id)),
        (k_type(), JVal::Arr(types_items(c.types))),
        (k_subject(), JVal::Arr(subjects_items(c.subjects))),
    ] + opt_status_member(c.status);
    assert(m[0] == (k_id(), JVal::Str(c.id)));
    assert(m[1] == (k_type(), JVal::Arr(types_items(c.types))));
    assert(m[2] == (k_subject(), JVal::Arr(subjects_items(c.subjects))));
    lemma_types_extract(c.types);
    lemma_subjects_extract(c.subjects);
    match c.status {
        Option::Some(st) => {
            assert(m.len() == 4);
            assert(m[3] == (k_status(), status_jval(st)));
            assert(status_of_jval(status_jval(st)) == Some(st));
        },
        Option::None => {
            assert(m.len() == 3);
        },
    }
}

/// A constructed type list reads back as itself.
pub proof fn lemma_types_extract(ts: Seq<Seq<u8>>)
    ensures
        types_of_items(types_items(ts)) == Some(ts),
    decreases ts.len(),
{
    let items = types_items(ts);
    if ts.len() == 0 {
        assert(ts =~= Seq::<Seq<u8>>::empty());
    } else {
        assert(items[0] == JVal::Str(ts[0]));
        assert(items.skip(1) =~= types_items(ts.skip(1)));
        lemma_types_extract(ts.skip(1));
        assert(seq![ts[0]] + ts.skip(1) =~= ts);
    }
}

/// A constructed subject list of well-formed subjects reads back as
/// itself.
proof fn lemma_subjects_extract(ss: Seq<SubjectV>)
    requires
        forall|i: int| 0 <= i < ss.len() ==> subject_wf(#[trigger] ss[i]),
    ensures
        subjects_of_items(subjects_items(ss)) == Some(ss),
    decreases ss.len(),
{
    let items = subjects_items(ss);
    if ss.len() == 0 {
        assert(ss =~= Seq::<SubjectV>::empty());
    } else {
        assert(items[0] == subject_jval(ss[0]));
        lemma_subject_extract(ss[0]);
        assert(items.skip(1) =~= subjects_items(ss.skip(1)));
        assert(forall|i: int|
            0 <= i < ss.skip(1).len() ==> subject_wf(#[trigger] ss.skip(1)[i]));
        lemma_subjects_extract(ss.skip(1));
        assert(seq![ss[0]] + ss.skip(1) =~= ss);
    }
}

/// A constructed well-formed subject reads back as itself.
proof fn lemma_subject_extract(s: SubjectV)
    requires
        subject_wf(s),
    ensures
        subject_of_jval(subject_jval(s)) == Some(s),
{
    match s.id {
        Option::Some(id) => {
            let m = seq![(k_id(), JVal::Str(id))] + s.properties;
            assert(m[0] == (k_id(), JVal::Str(id)));
            assert(m.skip(1) =~= s.properties);
            assert(subject_of_jval(subject_jval(s)) == Some(
                SubjectV { id: Some(id), properties: m.skip(1) },
            ));
            assert(SubjectV { id: Some(id), properties: m.skip(1) } =~= s);
        },
        Option::None => {
            assert(subject_of_jval(subject_jval(s)) == Some(
                SubjectV { id: None, properties: s.properties },
            ));
            assert(SubjectV { id: Option::<Seq<u8>>::None, properties: s.properties } =~= s);
        },
    }
}

/// Extraction pins construction down: a claim set that reads back as a
/// credential is that credential's canonical claim set, and the
/// credential is well-formed.
pub proof fn lemma_cred_extract_inverse(v: JVal, c: CredentialV)
    requires
        cred_of_jval(v) == Some(c),
    ensures
        v == cred_payload_jval(c),
        cred_wf(c),
{
    let m = v->Obj_0;
    let mid = m.subrange(1, m.len() - 1);
    let vcv = m[m.len() - 1].1;
    lemma_vc_extract_inverse(vcv, c.id, c.types, c.subjects, c.status);
    let canon = seq![(k_iss(), JVal::Str(c.issuer))] + opt_num_member(k_nbf(), c.issuance_date)
        + opt_num_member(k_exp(), c.expiration_date) + seq![(k_vc(), vc_jval(c))];
    assert(m =~= canon) by {
        match (c.issuance_date, c.expiration_date) {
            (Option::None, Option::None) => {
                assert(m.len() == 2);
            },
            (Option::Some(a), Option::None) => {
                assert(m.len() == 3);
                assert(m[1] == mid[0]);
                assert(m[1] == (k_nbf(), JVal::Num(a)));
            },
            (Option::None, Option::Some(b)) => {
                assert(m.len() == 3);
                assert(m[1] == mid[0]);
                assert(m[1] == (k_exp(), JVal::Num(b)));
            },
            (Option::Some(a), Option::Some(b)) => {
                assert(m.len() == 4);
                assert(m[1] == mid[0] && m[2] == mid[1]);
                assert(m[1] == (k_nbf(), JVal::Num(a)));
                assert(m[2] == (k_exp(), JVal::Num(b)));
            },
        }
    }
}

/// The `vc`-claim analogue of `lemma_cred_extract_inverse`.
proof fn lemma_vc_extract_inverse(
    v: JVal,
    id: Seq<u8>,
    ts: Seq<Seq<u8>>,
    ss: Seq<SubjectV>,
    st: Option<StatusV>,
)
    requires
        vc_of_jval(v) == Some((id, ts, ss, st)),
    ensures
        v == vc_jval(
            CredentialV {
                id,
                issuer: Seq::empty(),
                types: ts,
                subjects: ss,
                status: st,
                issuance_date: None,
                expiration_date: None,
            },
        ),
{
    let m = v->Obj_0;
    let c = CredentialV {
        id,
        issuer: Seq::empty(),
        types: ts,
        subjects: ss,
        status: st,
        issuance_date: Option::<u64>::None,
        expiration_date: Option::<u64>::None,
    };
    lemma_types_inverse(m[1].1->Arr_0, ts);
    lemma_subjects_inverse(m[2].1->Arr_0, ss);
    let canon = seq![
        (k_id(), JVal::Str(id)),
        (k_type(), JVal::Arr(types_items(ts))),
        (k_subject(), JVal::Arr(subjects_items(ss))),
    ] + opt_status_member(st);
    assert(m =~= canon) by {
        match st {
            Option::Some(stv) => {
                assert(m.len() == 4);
                lemma_status_inverse(m[3].1, stv);
            },
            Option::None => {
                assert(m.len() == 3);
            },
        }
    }
}

/// A status value that reads back is the canonical status claim.
proof fn lemma_status_inverse(v: JVal, st: StatusV)
    requires
        status_of_jval(v) == Some(st),
    ensures
        v == status_jval(st),
{
    let m = v->Obj_0;
    assert(m =~= seq![
        (k_id(), JVal::Str(st.service_fragment)),
        (k_index(), JVal::Num(st.index as u64)),
    ]);
}

/// A type item list that reads back is the constructed list.
pub proof fn lemma_types_inverse(items: Seq<JVal>, ts: Seq<Seq<u8>>)
    requires
        types_of_items(items) == Some(ts),
    ensures
        items == types_items(ts),
    decreases items.len(),
{
    if items.len() == 0 {
        assert(ts =~= Seq::<Seq<u8>>::empty());
        assert(items =~= types_items(ts));
    } else {
        let rest = types_of_items(items.skip(1)).unwrap();
        lemma_types_inverse(items.skip(1), rest);
        assert(ts == seq![items[0]->Str_0] + rest);
        assert(ts[0] == items[0]->Str_0);
        assert(ts.skip(1) =~= rest);
        assert(items =~= types_items(ts)) by {
            assert forall|q: int| 0 <= q < items.len() implies items[q] == types_items(ts)[q] by {
                if q > 0 {
                    assert(items.skip(1)[q - 1] == types_items(rest)[q - 1]);
                    assert(types_items(rest)[q - 1] == JVal::Str(rest[q - 1]));
                }
            }
        }
    }
}

/// A subject item list that reads back is the constructed list.
proof fn lemma_subjects_inverse(items: Seq<JVal>, ss: Seq<SubjectV>)
    requires
        subjects_of_items(items) == Some(ss),
    ensures
        items == subjects_items(ss),
    decreases items.len(),
{
    if items.len() == 0 {
        assert(ss =~= Seq::<SubjectV>::empty());
        assert(items =~= subjects_items(ss));
    } else {
        let s0 = subject_of_jval(items[0]).unwrap();
        let rest = subjects_of_items(items.skip(1)).unwrap();
        lemma_subjects_inverse(items.skip(1), rest);
        lemma_subject_inverse(items[0], s0);
        assert(ss == seq![s0] + rest);
        assert(ss[0] == s0);
        assert(ss.skip(1) =~= rest);
        assert(items =~= subjects_items(ss)) by {
            assert forall|q: int| 0 <= q < items.len() implies items[q] == subjects_items(
                ss,
            )[q] by {
                if q > 0 {
                    assert(items.skip(1)[q - 1] == subjects_items(rest)[q - 1]);
                    assert(subjects_items(rest)[q - 1] == subject_jval(rest[q - 1]));
                }
            }
        }
    }
}

/// A subject value that reads back is the canonical subject claim, and
/// the subject is well-formed.
proof fn lemma_subject_inverse(v: JVal, s: SubjectV)
    requires
        subject_of_jval(v) == Some(s),
    ensures
        v == subject_jval(s),
        subject_wf(s),
{
    let m = v->Obj_0;
    match s.id {
        Option::Some(id) => {
            assert(m[0] == (k_id(), JVal::Str(id)));
            assert(m =~= seq![(k_id(), JVal::Str(id))] + s.properties);
        },
        Option::None => {
            assert(m =~= s.properties);
        },
    }
}

} // verus!
