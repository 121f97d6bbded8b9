//! Persistence: the change log, and the codec that makes any value with the
//! content capability durable as a single encrypted blob.

pub mod log;

use vstd::prelude::*;
use vstd::utf8::{valid_utf8, decode_utf8, encode_utf8};
use crate::crypto::{CryptoManager, DecryptionError, is_sealed_blob, NONCE_LEN};
use crate::domain::{Content, MarshalError};
use crate::codec::bytes_to_string;

verus! {

/// Failure of loading a blob back into a value.
#[derive(Clone, Copy, Debug, PartialEq, Eq, Structural)]
pub enum LoadError {
    /// The blob did not decrypt; the decryption failure is carried
    /// verbatim.
    Decryption(DecryptionError),
    /// The decrypted bytes were not the canonical encoding of any value.
    Deserialization,
}

/// Serializes `value` to its canonical text, seals the text's bytes under a
/// brand-new nonce, and returns the nonce-prefixed blob that a sink can
/// write as one opaque sequence.
pub fn save<C: Content>(c: &mut CryptoManager, value: &C) -> (r: Result<Vec<u8>, MarshalError>)
    requires
        old(c).wf(),
    ensures
        final(c).wf(),
        final(c).key() == old(c).key(),
        r is Ok <==> C::marshal_ok(value@),
        r matches Ok(blob) ==> is_sealed_blob(
            final(c).key(),
            blob@,
            encode_utf8(C::marshal_spec(value@)),
        ),
        r is Err ==> *final(c) == *old(c),
{
    let s = match value.marshal() {
        Ok(s) => s,
        Err(e) => {
            return Err(e);
        },
    };
    let bytes = s.as_str().as_bytes_vec();
    Ok(c.encrypt(bytes.as_slice()))
}

/// Reads a blob back: decrypts it under the context's key, propagating any
/// decryption failure verbatim, and unmarshals the decrypted text. A blob
/// that `save` produced for a value under the same key yields exactly that
/// value back.
pub fn load<C: Content>(c: &CryptoManager, blob: &[u8]) -> (r: Result<C, LoadError>)
    requires
        c.wf(),
    ensures
        blob@.len() < NONCE_LEN ==> r == Result::<C, LoadError>::Err(
            LoadError::Decryption(DecryptionError::Malformed),
        ),
        blob@.len() >= NONCE_LEN && (forall|m: Seq<u8>| !is_sealed_blob(c.key(), blob@, m))
            ==> r == Result::<C, LoadError>::Err(
            LoadError::Decryption(DecryptionError::AuthenticationFailed),
        ),
        forall|m: Seq<u8>|
            is_sealed_blob(c.key(), blob@, m) && !valid_utf8(m) ==> r == Result::<
                C,
                LoadError,
            >::Err(LoadError::Deserialization),
        forall|m: Seq<u8>|
            is_sealed_blob(c.key(), blob@, m) && valid_utf8(m) && C::unmarshal_spec(
                decode_utf8(m),
            ) is None ==> r == Result::<C, LoadError>::Err(LoadError::Deserialization),
        forall|m: Seq<u8>|
            is_sealed_blob(c.key(), blob@, m) && valid_utf8(m) ==> (C::unmarshal_spec(
                decode_utf8(m),
            ) matches Some(vv) ==> r matches Ok(v) && v@ == vv),
{
    let bytes = match c.decrypt(blob) {
        Ok(b) => b,
        Err(e) => {
            return Err(LoadError::Decryption(e));
        },
    };
    let s = match bytes_to_string(bytes) {
        Some(s) => s,
        None => {
            return Err(LoadError::Deserialization);
        },
    };
    match C::unmarshal(s.as_str()) {
        Ok(v) => Ok(v),
        Err(_) => Err(LoadError::Deserialization),
    }
}

/// Law — persistence round trip: the canonical bytes that `save` seals for
/// a well-formed value are valid UTF-8 and decode and unmarshal back to
/// exactly that value, so a `load` of a saved blob under the same key
/// returns the value it was saved from.
pub proof fn lemma_persist_round_trip<C: Content>(v: C::V)
    requires
        C::inv_spec(v),
        C::marshal_ok(v),
    ensures
        valid_utf8(encode_utf8(C::marshal_spec(v))),
        decode_utf8(encode_utf8(C::marshal_spec(v))) == C::marshal_spec(v),
        C::unmarshal_spec(decode_utf8(encode_utf8(C::marshal_spec(v)))) == Some(v),
{
    vstd::utf8::encode_utf8_valid_utf8(C::marshal_spec(v));
    vstd::utf8::encode_utf8_decode_utf8(C::marshal_spec(v));
    C::lemma_marshal_round_trip(v);
}

} // verus!
