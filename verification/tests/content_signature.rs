use content_signature::json::Json;
use content_signature::verification::Collection;
use content_signature::verification::RcCryptoVerifier;
use content_signature::verification::VerificationFailure;

fn s(v: &str) -> String {
    v.to_owned()
}

fn record_ab(id: &str, v: i64) -> Json {
    Json::Obj(vec![(s("id"), Json::Str(s(id))), (s("v"), Json::Int(v))])
}

/// Metadata object with the given signature entries.
fn metadata(x5u: Option<&str>, signature: Option<&str>) -> Json {
    let mut sig: Vec<(String, Json)> = Vec::new();
    if let Some(b) = signature {
        sig.push((s("signature"), Json::Str(s(b))));
    }
    if let Some(u) = x5u {
        sig.push((s("x5u"), Json::Str(s(u))));
    }
    Json::Obj(vec![(s("signature"), Json::Obj(sig))])
}

fn collection(records: Vec<Json>, timestamp: u64, meta: Json) -> Collection {
    Collection { records, timestamp, metadata: meta }
}

#[test]
fn golden_message_bytes() {
    let v = RcCryptoVerifier {};
    let c = collection(
        vec![record_ab("b", 1), record_ab("a", 2)],
        42,
        metadata(Some("http://example.com/cert"), Some("")),
    );
    let req = v.build_signed_request(&c).ok().unwrap();
    let expected: Vec<u8> = b"Content-Signature:\x00{\"data\":[{\"id\":\"a\",\"v\":2},{\"id\":\"b\",\"v\":1}],\"last_modified\":\"42\"}".to_vec();
    assert_eq!(req.message, expected);
    assert_eq!(req.signature, Vec::<u8>::new());
}

#[test]
fn order_invariance_concrete() {
    let v = RcCryptoVerifier {};
    let c1 = collection(
        vec![record_ab("b", 1), record_ab("a", 2)],
        42,
        metadata(Some("u"), Some("")),
    );
    let c2 = collection(
        vec![record_ab("a", 2), record_ab("b", 1)],
        42,
        metadata(Some("u"), Some("")),
    );
    let m1 = v.build_signed_request(&c1).ok().unwrap().message;
    let m2 = v.build_signed_request(&c2).ok().unwrap().message;
    assert_eq!(m1, m2);
}

#[test]
fn determinism_two_calls() {
    let v = RcCryptoVerifier {};
    let c = collection(
        vec![record_ab("x", 7)],
        9,
        metadata(Some("u"), Some("aGVsbG8=")),
    );
    let r1 = v.build_signed_request(&c).ok().unwrap();
    let r2 = v.build_signed_request(&c).ok().unwrap();
    assert_eq!(r1.message, r2.message);
    assert_eq!(r1.signature, r2.signature);
    let u1 = v.signature_x5u(&c).ok().unwrap();
    let u2 = v.signature_x5u(&c).ok().unwrap();
    assert_eq!(u1, u2);
}

#[test]
fn missing_x5u_fails_without_network() {
    let v = RcCryptoVerifier {};
    let c = collection(vec![record_ab("a", 1)], 1, metadata(None, Some("sig")));
    let r = v.signature_x5u(&c);
    assert!(matches!(r, Err(VerificationFailure::MissingOrInvalidField(_))));
}

#[test]
fn x5u_wrong_type_fails() {
    let v = RcCryptoVerifier {};
    let meta = Json::Obj(vec![(s("signature"), Json::Obj(vec![(s("x5u"), Json::Int(3))]))]);
    let c = collection(vec![], 1, meta);
    let r = v.signature_x5u(&c);
    assert!(matches!(r, Err(VerificationFailure::MissingOrInvalidField(_))));
}

#[test]
fn x5u_present_is_returned() {
    let v = RcCryptoVerifier {};
    let c = collection(vec![], 1, metadata(Some("http://example.net/c.pem"), None));
    let r = v.signature_x5u(&c).ok().unwrap();
    assert_eq!(r, s("http://example.net/c.pem"));
}

#[test]
fn malformed_base64_fails_decode() {
    let v = RcCryptoVerifier {};
    let c = collection(
        vec![record_ab("a", 1)],
        1,
        metadata(Some("u"), Some("@@not-base64@@")),
    );
    let r = v.build_signed_request(&c);
    assert!(matches!(r, Err(VerificationFailure::SignatureDecodeError(_))));
}

#[test]
fn valid_base64_is_decoded() {
    let v = RcCryptoVerifier {};
    let c = collection(vec![], 5, metadata(Some("u"), Some("aGVsbG8=")));
    let req = v.build_signed_request(&c).ok().unwrap();
    assert_eq!(req.signature, b"hello".to_vec());
}

#[test]
fn missing_signature_string_defaults_to_empty() {
    let v = RcCryptoVerifier {};
    let c = collection(vec![record_ab("a", 1)], 3, metadata(Some("u"), None));
    let req = v.build_signed_request(&c).ok().unwrap();
    assert_eq!(req.signature, Vec::<u8>::new());
}

#[test]
fn unsorted_object_keys_fail_canonicalization() {
    let v = RcCryptoVerifier {};
    let bad = Json::Obj(vec![(s("v"), Json::Int(1)), (s("id"), Json::Str(s("a")))]);
    let c = collection(vec![bad], 1, metadata(Some("u"), Some("")));
    let r = v.build_signed_request(&c);
    assert!(matches!(r, Err(VerificationFailure::CanonicalizationError(_))));
}

#[test]
fn duplicate_object_keys_fail_canonicalization() {
    let v = RcCryptoVerifier {};
    let bad = Json::Obj(vec![(s("id"), Json::Int(1)), (s("id"), Json::Int(2))]);
    let c = collection(vec![bad], 1, metadata(Some("u"), Some("")));
    let r = v.build_signed_request(&c);
    assert!(matches!(r, Err(VerificationFailure::CanonicalizationError(_))));
}

#[test]
fn tampered_timestamp_changes_message() {
    let v = RcCryptoVerifier {};
    let c1 = collection(vec![record_ab("a", 1)], 42, metadata(Some("u"), Some("")));
    let c2 = collection(vec![record_ab("a", 1)], 43, metadata(Some("u"), Some("")));
    let m1 = v.build_signed_request(&c1).ok().unwrap().message;
    let m2 = v.build_signed_request(&c2).ok().unwrap().message;
    assert_ne!(m1, m2);
}

#[test]
fn tampered_record_changes_message() {
    let v = RcCryptoVerifier {};
    let c1 = collection(vec![record_ab("a", 1)], 42, metadata(Some("u"), Some("")));
    let c2 = collection(vec![record_ab("a", 2)], 42, metadata(Some("u"), Some("")));
    let m1 = v.build_signed_request(&c1).ok().unwrap().message;
    let m2 = v.build_signed_request(&c2).ok().unwrap().message;
    assert_ne!(m1, m2);
}

#[test]
fn engine_acceptance_is_success() {
    let v = RcCryptoVerifier {};
    let r = v.finish_verification(Ok(()));
    assert!(r.is_ok());
}

#[test]
fn engine_rejection_is_verification_error() {
    let v = RcCryptoVerifier {};
    let r = v.finish_verification(Err(s("bad signature")));
    match r {
        Err(VerificationFailure::VerificationError(d)) => assert_eq!(d, s("bad signature")),
        _ => panic!("expected a verification error"),
    }
}

#[test]
fn timestamp_zero_renders_as_zero() {
    let v = RcCryptoVerifier {};
    let c = collection(vec![], 0, metadata(Some("u"), Some("")));
    let m = v.build_signed_request(&c).ok().unwrap().message;
    let expected: Vec<u8> =
        b"Content-Signature:\x00{\"data\":[],\"last_modified\":\"0\"}".to_vec();
    assert_eq!(m, expected);
}

#[test]
fn timestamp_largest_renders_in_full() {
    let v = RcCryptoVerifier {};
    let c = collection(vec![], u64::MAX, metadata(Some("u"), Some("")));
    let m = v.build_signed_request(&c).ok().unwrap().message;
    let expected: Vec<u8> =
        b"Content-Signature:\x00{\"data\":[],\"last_modified\":\"18446744073709551615\"}"
            .to_vec();
    assert_eq!(m, expected);
}

#[test]
fn tampered_signature_blob_changes_decoded_bytes() {
    let v = RcCryptoVerifier {};
    let c1 = collection(vec![], 1, metadata(Some("u"), Some("aGVsbG8=")));
    let c2 = collection(vec![], 1, metadata(Some("u"), Some("aUVsbG8=")));
    let s1 = v.build_signed_request(&c1).ok().unwrap().signature;
    let s2 = v.build_signed_request(&c2).ok().unwrap().signature;
    assert_ne!(s1, s2);
}
