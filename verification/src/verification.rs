//! The Content-Signature verifier.
//!
//! A collection carries records, a timestamp and signature metadata. The
//! verifier reads the certificate URL from the metadata, decodes the base64
//! signature blob, canonicalizes the records into the exact signed byte
//! string, and hands all three to an ECDSA P-384 / SHA-384 engine. The
//! network fetch of the public key and the cryptographic check themselves
//! live outside this library; everything around them is verified here.

use vstd::prelude::*;

use crate::canon::canon_elems;
use crate::canon::dec_digits;
use crate::canon::push_canon;
use crate::canon::push_u64_decimal;
use crate::json::is_wf;
use crate::json::json_get;
use crate::json::obj_get;
use crate::json::wf;
use crate::json::Json;
use crate::records::sorted_record_order;
use crate::records::sorted_records;

verus! {

broadcast use vstd::std_specs::vec::group_vec_axioms;

/// The object under verification: records, a last-modified marker, and the
/// signature metadata (an object expected to hold a `signature` entry with
/// `x5u` and `signature` fields).
pub struct Collection {
    pub records: Vec<Json>,
    pub timestamp: u64,
    pub metadata: Json,
}

/// Why verification failed. Every failure is terminal for the call.
pub enum VerificationFailure {
    /// A required metadata field is absent or has the wrong type.
    MissingOrInvalidField(String),
    /// The public key could not be retrieved from the certificate URL.
    KeyRetrievalFailed(String),
    /// The base64 signature blob does not decode.
    SignatureDecodeError(String),
    /// The records cannot be put in canonical form.
    CanonicalizationError(String),
    /// The cryptographic check ran and the signature did not match.
    VerificationError(String),
}

/// Everything the signature engine needs: the decoded signature and the
/// exact message bytes it signs.
pub struct VerificationRequest {
    pub signature: Vec<u8>,
    pub message: Vec<u8>,
}

/// The `metadata.signature.x5u` entry, when present as a string.
pub open spec fn x5u_string(metadata: Json) -> Option<Seq<char>> {
    match json_get(metadata, "signature"@) {
        Option::Some(sig) => match json_get(sig, "x5u"@) {
            Option::Some(Json::Str(s)) => Option::Some(s@),
            _ => Option::None,
        },
        Option::None => Option::None,
    }
}

/// The `metadata.signature.signature` entry as a string, defaulting to the
/// empty string when absent or of the wrong type.
pub open spec fn signature_b64(metadata: Json) -> Seq<char> {
    match json_get(metadata, "signature"@) {
        Option::Some(sig) => match json_get(sig, "signature"@) {
            Option::Some(Json::Str(s)) => s@,
            _ => Seq::empty(),
        },
        Option::None => Seq::empty(),
    }
}

/// Every record is well-formed canonical JSON data.
pub open spec fn all_wf(records: Seq<Json>) -> bool {
    forall|i: int| 0 <= i < records.len() ==> wf(#[trigger] records[i])
}

/// `{"data":[` — the payload opening.
pub open spec fn payload_open() -> Seq<u8> {
    seq![0x7bu8, 0x22u8, 0x64u8, 0x61u8, 0x74u8, 0x61u8, 0x22u8, 0x3au8, 0x5bu8]
}

/// `],"last_modified":"` — between the records and the timestamp.
pub open spec fn payload_mid() -> Seq<u8> {
    seq![
        0x5du8, 0x2cu8, 0x22u8, 0x6cu8, 0x61u8, 0x73u8, 0x74u8, 0x5fu8, 0x6du8, 0x6fu8, 0x64u8,
        0x69u8, 0x66u8, 0x69u8, 0x65u8, 0x64u8, 0x22u8, 0x3au8, 0x22u8,
    ]
}

/// `"}` — the payload closing.
pub open spec fn payload_close() -> Seq<u8> {
    seq![0x22u8, 0x7du8]
}

/// `Content-Signature:` followed by a NUL byte — the protocol prefix.
pub open spec fn content_signature_prefix() -> Seq<u8> {
    seq![
        0x43u8, 0x6fu8, 0x6eu8, 0x74u8, 0x65u8, 0x6eu8, 0x74u8, 0x2du8, 0x53u8, 0x69u8, 0x67u8,
        0x6eu8, 0x61u8, 0x74u8, 0x75u8, 0x72u8, 0x65u8, 0x3au8, 0x00u8,
    ]
}

/// The canonical payload: `{"data":<records sorted by id>,"last_modified":
/// "<timestamp>"}`, serialized with no whitespace.
pub open spec fn payload_bytes(records: Seq<Json>, timestamp: u64) -> Seq<u8> {
    payload_open() + canon_elems(sorted_records(records)) + payload_mid() + dec_digits(
        timestamp as nat,
    ) + payload_close()
}

/// The exact byte string handed to the signature engine: the protocol
/// prefix, then the canonical payload.
pub open spec fn message_bytes(records: Seq<Json>, timestamp: u64) -> Seq<u8> {
    content_signature_prefix() + payload_bytes(records, timestamp)
}

/// What the base64 URL-safe decoder returns on a given string: the decoded
/// bytes, or nothing when the string is not valid base64.
pub uninterp spec fn base64_urlsafe_decoded(s: Seq<char>) -> Option<Seq<u8>>;

/// Relies on base64::decode_config with the URL_SAFE configuration: the
/// result is a pure function of the input string, and the empty string
/// decodes to no bytes.
#[verifier::external_body]
fn decode_base64_urlsafe(s: &str) -> (r: Result<Vec<u8>, String>)
    ensures
        match r {
            Result::Ok(b) => base64_urlsafe_decoded(s@) == Option::Some(b@),
            Result::Err(_) => base64_urlsafe_decoded(s@) is None,
        },
        s@.len() == 0 ==> r is Ok,
{
    match base64::decode_config(s, base64::URL_SAFE) {
        Ok(b) => Ok(b),
        Err(e) => Err(format!("{}", e)),
    }
}

/// Builds the exact signed message for the records and timestamp.
#[verifier::rlimit(50)]
pub fn build_message(records: &Vec<Json>, timestamp: u64) -> (out: Vec<u8>)
    ensures
        out@ == message_bytes(records@, timestamp),
{
    let mut out: Vec<u8> = Vec::new();
    out.push(0x43);
    out.push(0x6f);
    out.push(0x6e);
    out.push(0x74);
    out.push(0x65);
    out.push(0x6e);
    out.push(0x74);
    out.push(0x2d);
    out.push(0x53);
    out.push(0x69);
    out.push(0x67);
    out.push(0x6e);
    out.push(0x61);
    out.push(0x74);
    out.push(0x75);
    out.push(0x72);
    out.push(0x65);
    out.push(0x3a);
    out.push(0x00);
    proof {
        assert(out@ =~= content_signature_prefix());
    }
    out.push(0x7b);
    out.push(0x22);
    out.push(0x64);
    out.push(0x61);
    out.push(0x74);
    out.push(0x61);
    out.push(0x22);
    out.push(0x3a);
    out.push(0x5b);
    let ghost base = out@;
    proof {
        assert(base =~= content_signature_prefix() + payload_open());
    }
    let idx: Vec<usize> = sorted_record_order(records);
    let ghost sorted = sorted_records(records@);
    let n: usize = idx.len();
    let mut i: usize = 0;
    proof {
        assert(sorted.take(0) =~= Seq::<Json>::empty());
    }
    while i < n
        invariant
            n == idx@.len(),
            idx@.len() == records@.len(),
            forall|q: int| 0 <= q < idx@.len() ==> (#[trigger] idx@[q]) < records@.len(),
            Seq::new(idx@.len() as nat, |q: int| records@[idx@[q] as int]) == sorted,
            sorted == sorted_records(records@),
            0 <= i <= n,
            base == content_signature_prefix() + payload_open(),
            out@ == base + canon_elems(sorted.take(i as int)),
        decreases n - i,
    {
        if i > 0 {
            out.push(0x2c);
        }
        proof {
            assert(Seq::new(idx@.len() as nat, |q: int| records@[idx@[q] as int])[i as int]
                == records@[idx@[i as int] as int]);
        }
        push_canon(&mut out, &records[idx[i]]);
        proof {
            assert(sorted.take(i + 1).drop_last() =~= sorted.take(i as int));
            assert(sorted.take(i + 1).last() == sorted[i as int]);
            assert(out@ =~= base + canon_elems(sorted.take(i + 1)));
        }
        i += 1;
    }
    proof {
        assert(sorted.take(n as int) =~= sorted);
    }
    let ghost mid = out@;
    out.push(0x5d);
    out.push(0x2c);
    out.push(0x22);
    out.push(0x6c);
    out.push(0x61);
    out.push(0x73);
    out.push(0x74);
    out.push(0x5f);
    out.push(0x6d);
    out.push(0x6f);
    out.push(0x64);
    out.push(0x69);
    out.push(0x66);
    out.push(0x69);
    out.push(0x65);
    out.push(0x64);
    out.push(0x22);
    out.push(0x3a);
    out.push(0x22);
    proof {
        assert(out@ =~= mid + payload_mid());
    }
    push_u64_decimal(&mut out, timestamp);
    out.push(0x22);
    out.push(0x7d);
    proof {
        assert(out@ =~= message_bytes(records@, timestamp));
    }
    out
}

/// The verifier. The key fetch and the ECDSA P-384 / SHA-384 check are
/// collaborators supplied by the caller; the functions here prepare their
/// inputs and interpret their outcomes.
pub struct RcCryptoVerifier {}

impl RcCryptoVerifier {
    /// Reads `metadata.signature.x5u`, the URL of the certificate holding
    /// the public key. Fails, without any network access, when the field is
    /// absent or not a string.
    pub fn signature_x5u(&self, collection: &Collection) -> (r: Result<
        String,
        VerificationFailure,
    >)
        ensures
            match r {
                Result::Ok(u) => x5u_string(collection.metadata) == Option::Some(u@),
                Result::Err(e) => {
                    &&& x5u_string(collection.metadata) is None
                    &&& e matches VerificationFailure::MissingOrInvalidField(_)
                },
            },
    {
        match obj_get(&collection.metadata, "signature") {
            Option::Some(sig) => match obj_get(sig, "x5u") {
                Option::Some(v) => match v {
                    Json::Str(s) => {
                        return Result::Ok(s.as_str().to_owned());
                    },
                    _ => {},
                },
                Option::None => {},
            },
            Option::None => {},
        }
        Result::Err(
            VerificationFailure::MissingOrInvalidField(
                "x5u field not present in signature".to_owned(),
            ),
        )
    }

    /// Decodes the base64 signature blob (an absent or non-string field is
    /// read as the empty string) and canonicalizes the records into the
    /// signed message. Fails with `SignatureDecodeError` exactly when the
    /// blob is not valid base64, and with `CanonicalizationError` exactly
    /// when some record is not well-formed canonical JSON data.
    pub fn build_signed_request(&self, collection: &Collection) -> (r: Result<
        VerificationRequest,
        VerificationFailure,
    >)
        ensures
            match r {
                Result::Ok(req) => {
                    &&& base64_urlsafe_decoded(signature_b64(collection.metadata))
                        == Option::Some(req.signature@)
                    &&& all_wf(collection.records@)
                    &&& req.message@ == message_bytes(collection.records@, collection.timestamp)
                },
                Result::Err(e) => match e {
                    VerificationFailure::SignatureDecodeError(_) => base64_urlsafe_decoded(
                        signature_b64(collection.metadata),
                    ) is None,
                    VerificationFailure::CanonicalizationError(_) => {
                        &&& base64_urlsafe_decoded(signature_b64(collection.metadata)) is Some
                        &&& !all_wf(collection.records@)
                    },
                    _ => false,
                },
            },
    {
        let b64: String = match obj_get(&collection.metadata, "signature") {
            Option::Some(sig) => match obj_get(sig, "signature") {
                Option::Some(v) => match v {
                    Json::Str(s) => s.as_str().to_owned(),
                    _ => "".to_owned(),
                },
                Option::None => "".to_owned(),
            },
            Option::None => "".to_owned(),
        };
        proof {
            reveal_strlit("");
            assert(b64@ == signature_b64(collection.metadata));
        }
        let signature: Vec<u8> = match decode_base64_urlsafe(b64.as_str()) {
            Result::Ok(b) => b,
            Result::Err(m) => {
                return Result::Err(VerificationFailure::SignatureDecodeError(m));
            },
        };
        let n: usize = collection.records.len();
        let mut i: usize = 0;
        while i < n
            invariant
                n == collection.records@.len(),
                0 <= i <= n,
                base64_urlsafe_decoded(signature_b64(collection.metadata)) is Some,
                forall|k: int| 0 <= k < i ==> wf(#[trigger] collection.records@[k]),
            decreases n - i,
        {
            if !is_wf(&collection.records[i]) {
                proof {
                    assert(!wf(collection.records@[i as int]));
                }
                return Result::Err(
                    VerificationFailure::CanonicalizationError(
                        "records do not form canonical JSON data".to_owned(),
                    ),
                );
            }
            i += 1;
        }
        let message: Vec<u8> = build_message(&collection.records, collection.timestamp);
        Result::Ok(VerificationRequest { signature, message })
    }

    /// Interprets the signature engine's outcome: success passes through,
    /// and an engine diagnostic becomes `VerificationError`.
    pub fn finish_verification(&self, outcome: Result<(), String>) -> (r: Result<
        (),
        VerificationFailure,
    >)
        ensures
            match outcome {
                Result::Ok(_) => r is Ok,
                Result::Err(m) => r matches Result::Err(VerificationFailure::VerificationError(d))
                    && d@ == m@,
            },
    {
        match outcome {
            Result::Ok(_) => Result::Ok(()),
            Result::Err(m) => Result::Err(VerificationFailure::VerificationError(m)),
        }
    }
}

} // verus!
