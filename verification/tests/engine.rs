//! End-to-end exercises of the identity engine: issuing, decoding,
//! validating, revoking, and presenting credentials.

use didcore::bitmap::RevocationBitmap;
use didcore::credential::{Credential, CredentialStatus, Subject};
use didcore::errors::{Error, FailFast};
use didcore::json::{parse_value, write_jval, JsonValue};
use didcore::jwt::{decode_credential_jwt, extract_issuer, issue_credential_jwt, Jwt};
use didcore::presentation::{decode_presentation_jwt, extract_holder, issue_presentation_jwt,
    Presentation};
use didcore::resolver::{create_did_document, create_did_document_with_method, Ledger};
use didcore::storage::{get_memstorage, JwsAlgorithm, KeyType, MemStorage};
use didcore::validator::{validate_credential, validate_presentation,
    CredentialValidationOptions, PresentationValidationOptions};
use didcore::document::{Document, MethodRelationship, MethodScope};

const NOW: u64 = 1_700_000_000;

fn default_cred_options() -> CredentialValidationOptions {
    CredentialValidationOptions {
        now: NOW,
        check_issuance_date: true,
        check_expiration_date: true,
        subject_holder: None,
    }
}

fn alice_subject(holder_did: &[u8]) -> Subject {
    let mut degree_members: Vec<(Vec<u8>, JsonValue)> = Vec::new();
    degree_members.push((b"type".to_vec(), JsonValue::Str(b"BachelorDegree".to_vec())));
    degree_members.push((
        b"name".to_vec(),
        JsonValue::Str(b"Bachelor of Science and Arts".to_vec()),
    ));
    let mut props: Vec<(Vec<u8>, JsonValue)> = Vec::new();
    props.push((b"name".to_vec(), JsonValue::Str(b"Alice".to_vec())));
    props.push((b"degree".to_vec(), JsonValue::Obj(degree_members)));
    props.push((b"GPA".to_vec(), JsonValue::Str(b"4.0".to_vec())));
    Subject { id: Some(holder_did.to_vec()), properties: props }
}

fn example_credential(issuer_did: &[u8], holder_did: &[u8]) -> Credential {
    Credential::build(
        b"https://example.edu/credentials/3732".to_vec(),
        issuer_did.to_vec(),
        vec![b"VerifiableCredential".to_vec(), b"UniversityDegreeCredential".to_vec()],
        vec![alice_subject(holder_did)],
        None,
        Some(NOW - 100),
        Some(NOW + 3600),
    )
    .expect("credential should build")
}

fn setup() -> (Ledger, MemStorage, Document, Vec<u8>, Document, Vec<u8>) {
    let mut ledger = Ledger::new();
    let mut storage = get_memstorage();
    let (issuer_doc, issuer_frag) =
        create_did_document_with_method(&mut ledger, &mut storage).expect("issuer doc");
    let (holder_doc, holder_frag) =
        create_did_document_with_method(&mut ledger, &mut storage).expect("holder doc");
    (ledger, storage, issuer_doc, issuer_frag, holder_doc, holder_frag)
}

#[test]
fn credential_round_trip() {
    let (_ledger, storage, issuer_doc, frag, holder_doc, _hf) = setup();
    let credential = example_credential(&issuer_doc.did, &holder_doc.did);
    let jwt = issue_credential_jwt(&credential, &issuer_doc, &storage, &frag).expect("issue");
    let decoded = decode_credential_jwt(&jwt).expect("decode");
    assert_eq!(decoded.credential.id, credential.id);
    assert_eq!(decoded.credential.issuer, credential.issuer);
    assert_eq!(decoded.credential.types.len(), 2);
    assert_eq!(decoded.credential.types[1], b"UniversityDegreeCredential".to_vec());
    assert_eq!(decoded.credential.subjects.len(), 1);
    assert_eq!(decoded.credential.subjects[0].id, Some(holder_doc.did.clone()));
    assert_eq!(decoded.credential.subjects[0].properties[0].0, b"name".to_vec());
    match &decoded.credential.subjects[0].properties[0].1 {
        JsonValue::Str(s) => assert_eq!(s, &b"Alice".to_vec()),
        _ => panic!("name should be a string"),
    }
    assert_eq!(decoded.credential.issuance_date, Some(NOW - 100));
    assert_eq!(decoded.credential.expiration_date, Some(NOW + 3600));
    assert_eq!(decoded.kid.len(), issuer_doc.did.len() + 1 + frag.len());
}

#[test]
fn signature_validates_against_correct_document() {
    let (_ledger, storage, issuer_doc, frag, holder_doc, _hf) = setup();
    let credential = example_credential(&issuer_doc.did, &holder_doc.did);
    let jwt = issue_credential_jwt(&credential, &issuer_doc, &storage, &frag).expect("issue");
    let validated = validate_credential(
        &jwt,
        &issuer_doc,
        &default_cred_options(),
        FailFast::FirstError,
    );
    assert!(validated.is_ok());
    let decoded = validated.unwrap();
    assert_eq!(decoded.issuer, issuer_doc.did);
}

#[test]
fn signature_fails_against_wrong_document() {
    let (mut ledger, mut storage, issuer_doc, frag, holder_doc, _hf) = setup();
    let credential = example_credential(&issuer_doc.did, &holder_doc.did);
    let jwt = issue_credential_jwt(&credential, &issuer_doc, &storage, &frag).expect("issue");
    // A different document with a different key under the same fragment,
    // republished under the issuer's DID position does not exist; validate
    // against an unrelated document whose key differs.
    let (other_doc, _of) = create_did_document_with_method(&mut ledger, &mut storage).expect("other");
    let validated = validate_credential(
        &jwt,
        &other_doc,
        &default_cred_options(),
        FailFast::AllErrors,
    );
    let errs = validated.err().expect("must fail");
    assert!(errs.contains(&Error::SignatureInvalid));
}

#[test]
fn tampered_signature_is_rejected() {
    let (_ledger, storage, issuer_doc, frag, holder_doc, _hf) = setup();
    let credential = example_credential(&issuer_doc.did, &holder_doc.did);
    let jwt = issue_credential_jwt(&credential, &issuer_doc, &storage, &frag).expect("issue");
    let mut raw = jwt.raw.clone();
    // Flip the first signature byte, staying inside the base64url
    // alphabet so the token still decodes.
    let sig_start = raw.iter().rposition(|&b| b == b'.').unwrap() + 1;
    raw[sig_start] = if raw[sig_start] == b'A' { b'B' } else { b'A' };
    let tampered = Jwt::new(raw);
    let validated = validate_credential(
        &tampered,
        &issuer_doc,
        &default_cred_options(),
        FailFast::FirstError,
    );
    let errs = validated.err().expect("must fail");
    assert_eq!(errs[0], Error::SignatureInvalid);
}

#[test]
fn expiration_boundary() {
    let (_ledger, storage, issuer_doc, frag, holder_doc, _hf) = setup();
    let mut expired = example_credential(&issuer_doc.did, &holder_doc.did);
    expired.expiration_date = Some(NOW - 1);
    let jwt = issue_credential_jwt(&expired, &issuer_doc, &storage, &frag).expect("issue");
    let errs = validate_credential(&jwt, &issuer_doc, &default_cred_options(), FailFast::FirstError)
        .err()
        .expect("must fail");
    assert_eq!(errs, vec![Error::CredentialExpired]);

    let mut valid = example_credential(&issuer_doc.did, &holder_doc.did);
    valid.expiration_date = Some(NOW + 3600);
    let jwt2 = issue_credential_jwt(&valid, &issuer_doc, &storage, &frag).expect("issue");
    assert!(
        validate_credential(&jwt2, &issuer_doc, &default_cred_options(), FailFast::FirstError)
            .is_ok()
    );
}

#[test]
fn issuance_date_in_future_is_rejected() {
    let (_ledger, storage, issuer_doc, frag, holder_doc, _hf) = setup();
    let mut c = example_credential(&issuer_doc.did, &holder_doc.did);
    c.issuance_date = Some(NOW + 50);
    let jwt = issue_credential_jwt(&c, &issuer_doc, &storage, &frag).expect("issue");
    let errs = validate_credential(&jwt, &issuer_doc, &default_cred_options(), FailFast::FirstError)
        .err()
        .expect("must fail");
    assert_eq!(errs, vec![Error::IssuanceDateInFuture]);
}

#[test]
fn revocation_flow() {
    let (mut ledger, storage, mut issuer_doc, frag, holder_doc, _hf) = setup();
    let mut bitmap = RevocationBitmap::new();
    bitmap.set_revoked(5);
    let service = bitmap.to_service(b"my-revocation-service".to_vec());
    issuer_doc.insert_service(service).expect("insert service");
    let issuer_doc = ledger.publish_update(issuer_doc).expect("republish");

    let make = |index: u32| {
        let mut c = example_credential(&issuer_doc.did, &holder_doc.did);
        c.status = Some(CredentialStatus {
            service_fragment: b"my-revocation-service".to_vec(),
            index,
        });
        c
    };
    let revoked_jwt =
        issue_credential_jwt(&make(5), &issuer_doc, &storage, &frag).expect("issue");
    let errs = validate_credential(
        &revoked_jwt,
        &issuer_doc,
        &default_cred_options(),
        FailFast::FirstError,
    )
    .err()
    .expect("must fail");
    assert_eq!(errs, vec![Error::Revoked]);

    let fine_jwt = issue_credential_jwt(&make(6), &issuer_doc, &storage, &frag).expect("issue");
    assert!(
        validate_credential(&fine_jwt, &issuer_doc, &default_cred_options(), FailFast::FirstError)
            .is_ok()
    );
}

#[test]
fn unrevoking_restores_validity() {
    let mut bitmap = RevocationBitmap::new();
    bitmap.set_revoked(9);
    assert!(bitmap.is_revoked(9));
    assert!(!bitmap.is_revoked(8));
    bitmap.set_unrevoked(9);
    assert!(!bitmap.is_revoked(9));
}

#[test]
fn bitmap_service_round_trip() {
    let mut bitmap = RevocationBitmap::new();
    bitmap.set_revoked(0);
    bitmap.set_revoked(77);
    let service = bitmap.to_service(b"rev".to_vec());
    let back = RevocationBitmap::from_service(&service).expect("read back");
    assert!(back.is_revoked(0));
    assert!(back.is_revoked(77));
    assert!(!back.is_revoked(76));
}

#[test]
fn bitmap_rejects_corrupt_payload() {
    let mut service = RevocationBitmap::new().to_service(b"rev".to_vec());
    service.endpoint = b"!!!not-base64!!!".to_vec();
    assert_eq!(
        RevocationBitmap::from_service(&service).err(),
        Some(Error::InvalidEncoding)
    );
}

#[test]
fn challenge_matching() {
    let (_ledger, storage, issuer_doc, ifrag, holder_doc, hfrag) = setup();
    let credential = example_credential(&issuer_doc.did, &holder_doc.did);
    let cred_jwt =
        issue_credential_jwt(&credential, &issuer_doc, &storage, &ifrag).expect("issue");
    let presentation =
        Presentation::build(holder_doc.did.clone(), vec![cred_jwt], true).expect("build");
    let vp_jwt = issue_presentation_jwt(
        &presentation,
        &holder_doc,
        &storage,
        &hfrag,
        &b"abc".to_vec(),
        Some(NOW + 600),
    )
    .expect("issue vp");

    let ok = validate_presentation(
        &vp_jwt,
        &holder_doc,
        &PresentationValidationOptions { now: NOW, challenge: b"abc".to_vec() },
        FailFast::FirstError,
    );
    assert!(ok.is_ok());

    let bad = validate_presentation(
        &vp_jwt,
        &holder_doc,
        &PresentationValidationOptions { now: NOW, challenge: b"xyz".to_vec() },
        FailFast::FirstError,
    );
    assert_eq!(bad.err().expect("must fail"), vec![Error::ChallengeMismatch]);
}

#[test]
fn expired_presentation_is_rejected() {
    let (_ledger, storage, issuer_doc, ifrag, holder_doc, hfrag) = setup();
    let credential = example_credential(&issuer_doc.did, &holder_doc.did);
    let cred_jwt =
        issue_credential_jwt(&credential, &issuer_doc, &storage, &ifrag).expect("issue");
    let presentation =
        Presentation::build(holder_doc.did.clone(), vec![cred_jwt], true).expect("build");
    let vp_jwt = issue_presentation_jwt(
        &presentation,
        &holder_doc,
        &storage,
        &hfrag,
        &b"abc".to_vec(),
        Some(NOW - 1),
    )
    .expect("issue vp");
    let bad = validate_presentation(
        &vp_jwt,
        &holder_doc,
        &PresentationValidationOptions { now: NOW, challenge: b"abc".to_vec() },
        FailFast::FirstError,
    );
    assert_eq!(bad.err().expect("must fail"), vec![Error::PresentationExpired]);
}

#[test]
fn full_scenario_issue_and_validate() {
    let (_ledger, storage, issuer_doc, frag, holder_doc, _hf) = setup();
    let credential = example_credential(&issuer_doc.did, &holder_doc.did);
    let jwt = issue_credential_jwt(&credential, &issuer_doc, &storage, &frag).expect("issue");
    let decoded =
        validate_credential(&jwt, &issuer_doc, &default_cred_options(), FailFast::FirstError)
            .expect("validate");
    match &decoded.subjects[0].properties[0].1 {
        JsonValue::Str(s) => assert_eq!(s, &b"Alice".to_vec()),
        _ => panic!("name should be a string"),
    }
}

#[test]
fn full_scenario_presentation_pipeline() {
    let (ledger, storage, issuer_doc, ifrag, holder_doc, hfrag) = setup();
    let credential = example_credential(&issuer_doc.did, &holder_doc.did);
    let cred_jwt =
        issue_credential_jwt(&credential, &issuer_doc, &storage, &ifrag).expect("issue");
    let presentation =
        Presentation::build(holder_doc.did.clone(), vec![cred_jwt], true).expect("build");
    let nonce = b"475a7984-1bb5-4c4c-a56f-822bccd46440".to_vec();
    let vp_jwt = issue_presentation_jwt(
        &presentation,
        &holder_doc,
        &storage,
        &hfrag,
        &nonce,
        Some(NOW + 600),
    )
    .expect("issue vp");

    // The verifier extracts the holder, resolves it, and validates.
    let holder_did = extract_holder(&vp_jwt).expect("holder");
    assert_eq!(holder_did, holder_doc.did);
    let resolved_holder = ledger.resolve(&holder_did).expect("resolve holder");
    let decoded_vp = validate_presentation(
        &vp_jwt,
        &resolved_holder,
        &PresentationValidationOptions { now: NOW, challenge: nonce },
        FailFast::FirstError,
    )
    .expect("vp valid");

    // Then resolves each embedded credential's issuer and validates it,
    // with the subject-holder relationship enforced.
    assert_eq!(decoded_vp.presentation.credentials.len(), 1);
    let embedded = &decoded_vp.presentation.credentials[0];
    let issuer_did = extract_issuer(embedded).expect("issuer");
    assert_eq!(issuer_did, issuer_doc.did);
    let resolved_issuer = ledger.resolve(&issuer_did).expect("resolve issuer");
    let opts = CredentialValidationOptions {
        now: NOW,
        check_issuance_date: true,
        check_expiration_date: true,
        subject_holder: Some(holder_did.clone()),
    };
    let decoded = validate_credential(embedded, &resolved_issuer, &opts, FailFast::FirstError)
        .expect("credential valid");
    assert_eq!(decoded.subjects[0].id, Some(holder_did));
}

#[test]
fn subject_holder_relationship_violation() {
    let (_ledger, storage, issuer_doc, frag, holder_doc, _hf) = setup();
    let credential = example_credential(&issuer_doc.did, &holder_doc.did);
    let jwt = issue_credential_jwt(&credential, &issuer_doc, &storage, &frag).expect("issue");
    let opts = CredentialValidationOptions {
        now: NOW,
        check_issuance_date: true,
        check_expiration_date: true,
        subject_holder: Some(b"did:mem:999".to_vec()),
    };
    let errs = validate_credential(&jwt, &issuer_doc, &opts, FailFast::FirstError)
        .err()
        .expect("must fail");
    assert_eq!(errs, vec![Error::SubjectHolderRelationshipViolation]);
}

#[test]
fn issuer_mismatch_is_reported() {
    let (mut ledger, mut storage, issuer_doc, frag, holder_doc, _hf) = setup();
    let (other_doc, _of) = create_did_document_with_method(&mut ledger, &mut storage).expect("other");
    // The credential names a different issuer than the document used to
    // sign and validate.
    let credential = example_credential(&other_doc.did, &holder_doc.did);
    let jwt = issue_credential_jwt(&credential, &issuer_doc, &storage, &frag).expect("issue");
    let errs = validate_credential(&jwt, &issuer_doc, &default_cred_options(), FailFast::AllErrors)
        .err()
        .expect("must fail");
    assert_eq!(errs, vec![Error::IssuerMismatch]);
}

#[test]
fn malformed_jwt_is_reported() {
    let (_ledger, _storage, issuer_doc, _frag, _holder_doc, _hf) = setup();
    let garbage = Jwt::new(b"not-a-jwt".to_vec());
    let errs = validate_credential(
        &garbage,
        &issuer_doc,
        &default_cred_options(),
        FailFast::FirstError,
    )
    .err()
    .expect("must fail");
    assert_eq!(errs, vec![Error::MalformedJwt]);
    assert_eq!(decode_credential_jwt(&garbage).err(), Some(Error::MalformedJwt));
}

#[test]
fn builder_rejects_bad_input() {
    assert_eq!(
        Credential::build(Vec::new(), b"did:mem:0".to_vec(), vec![b"T".to_vec()],
            vec![alice_subject(b"did:mem:1")], None, None, None)
            .err(),
        Some(Error::MissingRequiredField)
    );
    assert_eq!(
        Credential::build(b"no-colon-here".to_vec(), b"did:mem:0".to_vec(),
            vec![b"T".to_vec()], vec![alice_subject(b"did:mem:1")], None, None, None)
            .err(),
        Some(Error::InvalidUrl)
    );
    let mut bad_subject = alice_subject(b"did:mem:1");
    bad_subject.properties.push((b"id".to_vec(), JsonValue::Str(b"x".to_vec())));
    assert_eq!(
        Credential::build(b"https://example.edu/c/1".to_vec(), b"did:mem:0".to_vec(),
            vec![b"T".to_vec()], vec![bad_subject], None, None, None)
            .err(),
        Some(Error::ReservedClaimName)
    );
    assert_eq!(
        Presentation::build(b"did:mem:1".to_vec(), Vec::new(), true).err(),
        Some(Error::EmptyCredentialSet)
    );
}

#[test]
fn document_operations_and_errors() {
    let mut ledger = Ledger::new();
    let mut storage = get_memstorage();
    let (mut doc, frag) = create_did_document_with_method(&mut ledger, &mut storage).expect("doc");
    // Duplicate fragment.
    assert_eq!(
        doc.generate_method(&mut storage, KeyType::Ed25519, JwsAlgorithm::EdDSA, &frag,
            MethodScope::VerificationMethod)
            .err(),
        Some(Error::DuplicateFragment)
    );
    // Unsupported scope for a signing key.
    assert_eq!(
        doc.generate_method(&mut storage, KeyType::Ed25519, JwsAlgorithm::EdDSA,
            &b"key-2".to_vec(), MethodScope::Relationship(MethodRelationship::KeyAgreement))
            .err(),
        Some(Error::InvalidScope)
    );
    // Unsupported algorithm pair.
    assert_eq!(
        doc.generate_method(&mut storage, KeyType::X25519, JwsAlgorithm::EdDSA,
            &b"key-3".to_vec(), MethodScope::VerificationMethod)
            .err(),
        Some(Error::UnsupportedAlgorithm)
    );
    assert_eq!(
        storage.generate(KeyType::Ed25519, JwsAlgorithm::ES256).err(),
        Some(Error::UnsupportedAlgorithm)
    );
    // Attaching a relationship to a present and an absent method.
    assert!(doc.attach_method_relationship(&frag, MethodRelationship::Authentication).is_ok());
    assert_eq!(
        doc.attach_method_relationship(&b"missing".to_vec(), MethodRelationship::Authentication)
            .err(),
        Some(Error::MethodNotFound)
    );
    // Signing with an unknown key identifier.
    assert_eq!(storage.sign(999, &b"payload".to_vec()).err(), Some(Error::KeyNotFound));
    // Issuing with an unknown fragment.
    let credential = example_credential(&doc.did, b"did:mem:9");
    assert_eq!(
        issue_credential_jwt(&credential, &doc, &storage, &b"missing".to_vec()).err(),
        Some(Error::MethodNotFound)
    );
}

#[test]
fn resolver_partial_batch() {
    let mut ledger = Ledger::new();
    let mut storage = get_memstorage();
    let (doc, _frag) = create_did_document_with_method(&mut ledger, &mut storage).expect("doc");
    assert_eq!(ledger.resolve(&b"did:mem:404".to_vec()).err(), Some(Error::NotFound));
    let results =
        ledger.resolve_multiple(&vec![doc.did.clone(), b"did:mem:404".to_vec()]);
    assert_eq!(results.len(), 2);
    assert!(results[0].1.is_ok());
    assert_eq!(results[1].1.as_ref().err(), Some(&Error::NotFound));
}

#[test]
fn distinct_documents_get_distinct_keys() {
    let (_ledger, storage, issuer_doc, _f1, holder_doc, _f2) = setup();
    assert_ne!(issuer_doc.did, holder_doc.did);
    assert_ne!(issuer_doc.methods[0].public_key, holder_doc.methods[0].public_key);
    assert_eq!(storage.len(), 2);
}

#[test]
fn canonical_json_bytes() {
    let mut members: Vec<(Vec<u8>, JsonValue)> = Vec::new();
    members.push((b"a".to_vec(), JsonValue::Num(1)));
    members.push((b"b".to_vec(), JsonValue::Bool(true)));
    members.push((b"c".to_vec(), JsonValue::Null));
    members.push((b"d".to_vec(), JsonValue::Arr(vec![JsonValue::Num(10), JsonValue::Num(0)])));
    let v = JsonValue::Obj(members);
    let mut out: Vec<u8> = Vec::new();
    write_jval(&mut out, &v);
    assert_eq!(out, b"{\"a\":1,\"b\":true,\"c\":null,\"d\":[10,0]}".to_vec());
    let parsed = parse_value(&out, 0).expect("parses");
    assert_eq!(parsed.1, out.len());
    let mut out2: Vec<u8> = Vec::new();
    write_jval(&mut out2, &parsed.0);
    assert_eq!(out2, out);
}

#[test]
fn json_string_escapes_round_trip() {
    let mut out: Vec<u8> = Vec::new();
    write_jval(&mut out, &JsonValue::Str(b"a\"b\\c\nd".to_vec()));
    assert_eq!(out, b"\"a\\\"b\\\\c\\u000ad\"".to_vec());
    let parsed = parse_value(&out, 0).expect("parses");
    match parsed.0 {
        JsonValue::Str(s) => assert_eq!(s, b"a\"b\\c\nd".to_vec()),
        _ => panic!("should parse as a string"),
    }
}

#[test]
fn base64url_round_trip() {
    let data = vec![0u8, 1, 2, 250, 251, 252, 253, 254, 255];
    let encoded = didcore::b64::base64url_encode(&data);
    assert_eq!(didcore::b64::base64url_decode(&encoded), Some(data));
    assert_eq!(didcore::b64::base64url_decode(&b"####".to_vec()), None);
    let encoded_abc = didcore::b64::base64url_encode(&b"abc".to_vec());
    assert_eq!(encoded_abc, b"YWJj".to_vec());
}

#[test]
fn signing_fails_without_the_key() {
    let (_ledger, _storage, issuer_doc, frag, holder_doc, _hf) = setup();
    let credential = example_credential(&issuer_doc.did, &holder_doc.did);
    // A store that never held the document's key cannot sign.
    let empty_storage = get_memstorage();
    assert_eq!(
        issue_credential_jwt(&credential, &issuer_doc, &empty_storage, &frag).err(),
        Some(Error::SigningFailed)
    );
}

#[test]
fn publish_only_document_creation() {
    let mut ledger = Ledger::new();
    // The plain variant publishes a fresh, method-less document and never
    // touches any key store.
    let doc = create_did_document(&mut ledger);
    assert_eq!(doc.did, b"did:mem:0".to_vec());
    assert!(doc.methods.is_empty());
    assert!(doc.services.is_empty());
    assert!(doc.metadata.is_empty());
    let resolved = ledger.resolve(&doc.did).expect("resolvable");
    assert_eq!(resolved.did, doc.did);
}
