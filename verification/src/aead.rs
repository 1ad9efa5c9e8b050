//! XChaCha20-Poly1305, the seal on messages and reactions.
use vstd::prelude::*;
use chacha20poly1305::aead::{Aead, KeyInit, Payload};
use chacha20poly1305::XChaCha20Poly1305;

verus! {

/// What XChaCha20-Poly1305 opens a ciphertext to under a key, a nonce and associated data;
/// nothing when the tag does not match.
pub uninterp spec fn xchacha20poly1305_opened(
    key: Seq<u8>,
    associated_data: Seq<u8>,
    nonce: Seq<u8>,
    ciphertext: Seq<u8>,
) -> Option<Seq<u8>>;

/// `XChaCha20Poly1305::decrypt` of the crate `chacha20poly1305`. Claimed of it: whether it
/// opens the ciphertext, and to what, is a function of the key, the associated data, the
/// nonce and the ciphertext alone.
#[verifier::external_body]
pub(crate) fn xchacha20poly1305_decrypt(
    key: &[u8; 32],
    associated_data: &[u8],
    nonce: &[u8; 24],
    ciphertext: &[u8],
) -> (r: Option<Vec<u8>>)
    ensures
        match r {
            Some(p) => xchacha20poly1305_opened(key@, associated_data@, nonce@, ciphertext@)
                == Some(p@),
            None => xchacha20poly1305_opened(key@, associated_data@, nonce@, ciphertext@) is None,
        },
{
    XChaCha20Poly1305::new(key.into())
        .decrypt(nonce.into(), Payload { msg: ciphertext, aad: associated_data })
        .ok()
}

} // verus!
