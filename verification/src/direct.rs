//! The direct cipher: the whole buffer in one single-shot AEAD call.

use vstd::prelude::*;

use crate::errors::CipherError;
use crate::primitives::{
    aead_open, aead_seal, direct_ct, lemma_direct_ct_intro, KEY_LEN, NONCE_LEN, SEAL_MAX_LEN,
    TAG_LEN,
};

verus! {

/// Seals a whole buffer in one AEAD call: the result is the direct
/// ciphertext of the buffer, the message followed by its 16-byte tag.
pub fn encrypt_direct(key: &Vec<u8>, nonce: &Vec<u8>, plain: &Vec<u8>) -> (r: Vec<u8>)
    requires
        key@.len() == KEY_LEN,
        nonce@.len() == NONCE_LEN,
        plain@.len() < SEAL_MAX_LEN,
    ensures
        r@ == direct_ct(key@, nonce@, plain@),
        r@.len() == plain@.len() + TAG_LEN,
{
    let sealed = aead_seal(key.as_slice(), nonce.as_slice(), plain.as_slice());
    proof {
        lemma_direct_ct_intro(key@, nonce@, plain@, sealed@);
    }
    sealed
}

/// Opens a direct ciphertext.  It returns `Ok` exactly on the outputs of the
/// seal under the same key and nonce — then the sealed message comes back
/// unchanged — and `AuthenticationFailed` on everything else: no decrypted
/// bytes are ever exposed without a verified tag.  An input too long to be
/// the seal of any sealable message is rejected without a cipher call.
pub fn decrypt_direct(key: &Vec<u8>, nonce: &Vec<u8>, ct: &Vec<u8>) -> (r: Result<
    Vec<u8>,
    CipherError,
>)
    requires
        key@.len() == KEY_LEN,
        nonce@.len() == NONCE_LEN,
    ensures
        r matches Ok(p) ==> ct@ == direct_ct(key@, nonce@, p@) && p@.len() + TAG_LEN
            == ct@.len(),
        forall|p: Seq<u8>|
            p.len() < SEAL_MAX_LEN && ct@ == direct_ct(key@, nonce@, p) ==> (r matches Ok(q)
                && q@ == p),
        r matches Err(e) ==> e == CipherError::AuthenticationFailed,
{
    if (ct.len() as u64) < SEAL_MAX_LEN + (TAG_LEN as u64) {
        match aead_open(key.as_slice(), nonce.as_slice(), ct.as_slice()) {
            Some(p) => Ok(p),
            None => Err(CipherError::AuthenticationFailed),
        }
    } else {
        proof {
            assert forall|p: Seq<u8>|
                !(p.len() < SEAL_MAX_LEN && ct@ == direct_ct(key@, nonce@, p)) by {
                if p.len() < SEAL_MAX_LEN && ct@ == direct_ct(key@, nonce@, p) {
                    assert(ct@.len() == p.len() + TAG_LEN);
                }
            }
        }
        Err(CipherError::AuthenticationFailed)
    }
}

/// Round trip of the direct cipher: decrypting what was just encrypted under
/// the same key and nonce succeeds and returns the original buffer,
/// byte for byte.
pub fn direct_round_trip(key: &Vec<u8>, nonce: &Vec<u8>, plain: &Vec<u8>) -> (r: Result<
    Vec<u8>,
    CipherError,
>)
    requires
        key@.len() == KEY_LEN,
        nonce@.len() == NONCE_LEN,
        plain@.len() < SEAL_MAX_LEN,
    ensures
        r matches Ok(p) && p@ == plain@,
{
    let sealed = encrypt_direct(key, nonce, plain);
    decrypt_direct(key, nonce, &sealed)
}

} // verus!
