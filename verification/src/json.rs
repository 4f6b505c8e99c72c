use vstd::prelude::*;

verus! {

/// Declares serde_json's document type so it can stand in signatures; a
/// value of it is opaque to the verifier and is only carried through.
#[verifier::external_type_specification]
#[verifier::external_body]
pub struct ExValue(serde_json::Value);

/// The JSON document the given bytes parse to, when they are one valid JSON
/// document; parsing depends on the bytes alone.
pub uninterp spec fn spec_json_of(bytes: Seq<u8>) -> Option<serde_json::Value>;

/// Relies on `serde_json::from_slice::<Value>`: whether the bytes parse, and
/// to which value, is a function of the bytes.
#[verifier::external_body]
pub fn parse_json(bytes: &[u8]) -> (r: Option<serde_json::Value>)
    ensures
        r == spec_json_of(bytes@),
{
    serde_json::from_slice(bytes).ok()
}

/// Relies on `serde_json::to_vec` together with `serde_json::from_slice`:
/// serializing a `Value` cannot fail (its maps have string keys), but the
/// serializer has no depth limit while the parser refuses documents nested
/// past its recursion limit, so the serialized bytes need not parse back.
/// The body therefore re-parses and compares before answering, and returns
/// `None` when the round trip does not hold.
#[verifier::external_body]
pub fn json_to_bytes(v: &serde_json::Value) -> (r: Option<Vec<u8>>)
    ensures
        r matches Some(b) ==> spec_json_of(b@) == Some(*v),
{
    let bytes = match serde_json::to_vec(v) {
        Ok(b) => b,
        Err(_) => return None,
    };
    match serde_json::from_slice::<serde_json::Value>(&bytes) {
        Ok(back) if back == *v => Some(bytes),
        _ => None,
    }
}

} // verus!
