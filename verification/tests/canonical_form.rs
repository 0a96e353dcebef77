//! The library's canonical serialization is held against the canonical JSON
//! serializer that reference signers use, byte for byte.

use content_signature::canon::to_canonical_bytes;
use content_signature::json::Json;
use content_signature::verification::Collection;
use content_signature::verification::RcCryptoVerifier;

fn s(v: &str) -> String {
    v.to_owned()
}

/// Serializes with the canonical_json crate.
fn reference_bytes(v: &serde_json::Value) -> Vec<u8> {
    canonical_json::to_string(v).unwrap().into_bytes()
}

#[test]
fn scalars_match_reference() {
    assert_eq!(to_canonical_bytes(&Json::Null), reference_bytes(&serde_json::Value::Null));
    assert_eq!(
        to_canonical_bytes(&Json::Bool(true)),
        reference_bytes(&serde_json::Value::Bool(true))
    );
    assert_eq!(
        to_canonical_bytes(&Json::Bool(false)),
        reference_bytes(&serde_json::Value::Bool(false))
    );
}

#[test]
fn integers_match_reference() {
    for n in [0i64, 1, 9, 10, 123, 2300, -1, -123, i64::MAX, i64::MIN] {
        let mine = to_canonical_bytes(&Json::Int(n));
        let theirs = reference_bytes(&serde_json::Value::Number(serde_json::Number::from(n)));
        assert_eq!(mine, theirs, "mismatch for {}", n);
    }
}

#[test]
fn strings_match_reference() {
    let cases = [
        "",
        "abc",
        "with \"quotes\"",
        "back\\slash",
        "tab\tnewline\ncarriage\r",
        "control\u{0001}\u{0008}\u{000c}\u{001f}",
        "del\u{007f}",
        "caf\u{00e9}",
        "\u{4e16}\u{754c}",
        "emoji\u{1f600}",
        "slash/quote'",
    ];
    for c in cases {
        let mine = to_canonical_bytes(&Json::Str(s(c)));
        let theirs = reference_bytes(&serde_json::Value::String(s(c)));
        assert_eq!(
            String::from_utf8(mine).unwrap(),
            String::from_utf8(theirs).unwrap(),
            "mismatch for {:?}",
            c
        );
    }
}

#[test]
fn arrays_and_objects_match_reference() {
    let mine = Json::Arr(vec![
        Json::Int(1),
        Json::Obj(vec![(s("a"), Json::Null), (s("b"), Json::Arr(vec![]))]),
        Json::Str(s("x")),
    ]);
    let mut obj = serde_json::Map::new();
    obj.insert(s("b"), serde_json::Value::Array(vec![]));
    obj.insert(s("a"), serde_json::Value::Null);
    let theirs = serde_json::Value::Array(vec![
        serde_json::Value::Number(serde_json::Number::from(1i64)),
        serde_json::Value::Object(obj),
        serde_json::Value::String(s("x")),
    ]);
    assert_eq!(to_canonical_bytes(&mine), reference_bytes(&theirs));
}

#[test]
fn signed_payload_matches_reference() {
    let v = RcCryptoVerifier {};
    let rec_b = Json::Obj(vec![(s("id"), Json::Str(s("b"))), (s("v"), Json::Int(1))]);
    let rec_a = Json::Obj(vec![(s("id"), Json::Str(s("a"))), (s("v"), Json::Int(2))]);
    let meta = Json::Obj(vec![(
        s("signature"),
        Json::Obj(vec![(s("signature"), Json::Str(s(""))), (s("x5u"), Json::Str(s("u")))]),
    )]);
    let c = Collection { records: vec![rec_b, rec_a], timestamp: 42, metadata: meta };
    let message = v.build_signed_request(&c).ok().unwrap().message;

    let mut rb = serde_json::Map::new();
    rb.insert(s("id"), serde_json::Value::String(s("b")));
    rb.insert(s("v"), serde_json::Value::Number(serde_json::Number::from(1i64)));
    let mut ra = serde_json::Map::new();
    ra.insert(s("id"), serde_json::Value::String(s("a")));
    ra.insert(s("v"), serde_json::Value::Number(serde_json::Number::from(2i64)));
    let mut payload = serde_json::Map::new();
    payload.insert(
        s("data"),
        serde_json::Value::Array(vec![
            serde_json::Value::Object(ra),
            serde_json::Value::Object(rb),
        ]),
    );
    payload.insert(s("last_modified"), serde_json::Value::String(s("42")));
    let reference = reference_bytes(&serde_json::Value::Object(payload));

    let mut expected: Vec<u8> = b"Content-Signature:\x00".to_vec();
    expected.extend_from_slice(&reference);
    assert_eq!(message, expected);
}
