//! The cipher engine: given a mode, a key bundle and a buffer, pick the
//! strategy by size against a threshold and run it end to end.

use vstd::prelude::*;

use crate::bundle::KeyBundle;
use crate::direct::{decrypt_direct, encrypt_direct};
use crate::errors::CipherError;
use crate::primitives::{direct_ct, SEAL_MAX_LEN, TAG_LEN};
use crate::stream::{
    decrypt_stream, encrypt_stream, lemma_enc_full_chunks_bound, lemma_enc_full_chunks_of_ct_len,
    lemma_full_chunks_bound, lemma_stream_ct_len, lemma_stream_ct_len_ge, lemma_stream_ct_len_le,
    stream_ct,
};

verus! {

/// The requested direction of a cipher run.
#[derive(Clone, Copy, Debug, PartialEq, Eq, Structural)]
pub enum Mode {
    Encrypt,
    Decrypt,
}

/// How a buffer of a given size is processed.
#[derive(Clone, Copy, Debug, PartialEq, Eq, Structural)]
pub enum Strategy {
    /// The whole buffer in one single-shot AEAD call.
    Direct,
    /// Fixed-size chunks under the STREAM construction.
    Stream,
}

/// The recommended strategy threshold: 500 MiB, compared in raw bytes.
pub const DEFAULT_THRESHOLD: u64 = 500 * 1024 * 1024;

/// The size policy: sources strictly under the threshold take the direct
/// cipher, everything from the threshold up takes the stream cipher.
pub fn select_strategy(size_bytes: u64, threshold_bytes: u64) -> (s: Strategy)
    ensures
        s == Strategy::Direct <==> size_bytes < threshold_bytes,
        s == Strategy::Stream <==> size_bytes >= threshold_bytes,
{
    if size_bytes < threshold_bytes {
        Strategy::Direct
    } else {
        Strategy::Stream
    }
}

/// Reads the mode from the caller's option string: exactly `"encryption"`
/// and `"decryption"` name a mode; everything else is rejected.
pub fn parse_mode(option: &str) -> (r: Option<Mode>)
    ensures
        r == Some(Mode::Encrypt) <==> option@ == "encryption"@,
        r == Some(Mode::Decrypt) <==> option@ == "decryption"@,
        r is None <==> (option@ != "encryption"@ && option@ != "decryption"@),
{
    proof {
        reveal_strlit("encryption");
        reveal_strlit("decryption");
        assert("encryption"@[0] != "decryption"@[0]);
    }
    let s = option.to_owned();
    if s == "encryption".to_owned() {
        Some(Mode::Encrypt)
    } else if s == "decryption".to_owned() {
        Some(Mode::Decrypt)
    } else {
        None
    }
}

/// Runs the engine on an in-memory buffer: measure, pick the strategy
/// against the threshold, then seal or open under the matching half of the
/// bundle.  Encryption always succeeds; decryption succeeds exactly on the
/// chosen cipher's valid ciphertexts and reports `AuthenticationFailed`
/// otherwise.
pub fn run_cipher(mode: Mode, bundle: &KeyBundle, data: &Vec<u8>, threshold_bytes: u64) -> (r:
    Result<Vec<u8>, CipherError>)
    requires
        bundle.wf(),
        data@.len() < SEAL_MAX_LEN,
    ensures
        mode == Mode::Encrypt && data@.len() < threshold_bytes ==> (r matches Ok(c) && c@
            == direct_ct(bundle@.key, bundle@.nonce, data@)),
        mode == Mode::Encrypt && data@.len() >= threshold_bytes ==> (r matches Ok(c) && c@
            == stream_ct(bundle@.large_key, bundle@.large_nonce, 0, data@)),
        mode == Mode::Decrypt && data@.len() < threshold_bytes ==> ((r matches Ok(p) ==> data@
            == direct_ct(bundle@.key, bundle@.nonce, p@)) && (forall|p: Seq<u8>|
            p.len() < SEAL_MAX_LEN && data@ == direct_ct(bundle@.key, bundle@.nonce, p) ==> (
            r matches Ok(q) && q@ == p))),
        mode == Mode::Decrypt && data@.len() >= threshold_bytes ==> ((r matches Ok(p) ==> data@
            == stream_ct(bundle@.large_key, bundle@.large_nonce, 0, p@)) && (forall|p: Seq<u8>|
            data@ == stream_ct(bundle@.large_key, bundle@.large_nonce, 0, p) ==> (r matches Ok(q)
            && q@ == p))),
        r matches Err(e) ==> e == CipherError::AuthenticationFailed,
{
    proof {
        lemma_full_chunks_bound(data@.len());
        lemma_enc_full_chunks_bound(data@.len());
    }
    let strategy = select_strategy(data.len() as u64, threshold_bytes);
    match mode {
        Mode::Encrypt => match strategy {
            Strategy::Direct => Ok(encrypt_direct(&bundle.key, &bundle.nonce, data)),
            Strategy::Stream => Ok(encrypt_stream(&bundle.large_key, &bundle.large_nonce, data)),
        },
        Mode::Decrypt => match strategy {
            Strategy::Direct => decrypt_direct(&bundle.key, &bundle.nonce, data),
            Strategy::Stream => decrypt_stream(&bundle.large_key, &bundle.large_nonce, data),
        },
    }
}

/// Round trip through the engine: whatever the engine sealed under a bundle
/// and a threshold, the engine opens back to the original buffer, whenever
/// the ciphertext falls on the same side of the threshold as its plaintext.
/// That excludes exactly the sixteen sizes just under the threshold: their
/// direct ciphertext, one tag longer, crosses it and is dispatched to the
/// other strategy on the way back.
pub fn engine_round_trip(bundle: &KeyBundle, data: &Vec<u8>, threshold_bytes: u64) -> (r: Result<
    Vec<u8>,
    CipherError,
>)
    requires
        bundle.wf(),
        2 * data@.len() + TAG_LEN < SEAL_MAX_LEN,
        data@.len() + TAG_LEN < threshold_bytes || data@.len() >= threshold_bytes,
    ensures
        r matches Ok(p) && p@ == data@,
{
    proof {
        lemma_stream_ct_len_ge(data@.len());
        lemma_stream_ct_len_le(data@.len());
        lemma_enc_full_chunks_bound(data@.len());
    }
    let sealed = match run_cipher(Mode::Encrypt, bundle, data, threshold_bytes) {
        Ok(c) => c,
        Err(e) => {
            proof {
                assert(false);
            }
            return Err(e);
        },
    };
    proof {
        if data@.len() >= threshold_bytes {
            lemma_stream_ct_len(bundle@.large_key, bundle@.large_nonce, 0, data@);
            lemma_enc_full_chunks_of_ct_len(data@.len());
        }
        lemma_full_chunks_bound(sealed@.len());
        lemma_enc_full_chunks_bound(sealed@.len());
    }
    run_cipher(Mode::Decrypt, bundle, &sealed, threshold_bytes)
}

/// The engine behind the caller-facing option string: an unknown option
/// performs no work and reports `InvalidMode`; a known one runs
/// [`run_cipher`].
pub fn cipher_buffer(option: &str, bundle: &KeyBundle, data: &Vec<u8>, threshold_bytes: u64) -> (r:
    Result<Vec<u8>, CipherError>)
    requires
        bundle.wf(),
        data@.len() < SEAL_MAX_LEN,
    ensures
        option@ != "encryption"@ && option@ != "decryption"@ <==> (r matches Err(e) && e
            == CipherError::InvalidMode),
        option@ == "encryption"@ && data@.len() < threshold_bytes ==> (r matches Ok(c) && c@
            == direct_ct(bundle@.key, bundle@.nonce, data@)),
        option@ == "encryption"@ && data@.len() >= threshold_bytes ==> (r matches Ok(c) && c@
            == stream_ct(bundle@.large_key, bundle@.large_nonce, 0, data@)),
        option@ == "decryption"@ && data@.len() < threshold_bytes ==> ((r matches Ok(p) ==> data@
            == direct_ct(bundle@.key, bundle@.nonce, p@)) && (forall|p: Seq<u8>|
            p.len() < SEAL_MAX_LEN && data@ == direct_ct(bundle@.key, bundle@.nonce, p) ==> (
            r matches Ok(q) && q@ == p))),
        option@ == "decryption"@ && data@.len() >= threshold_bytes ==> ((r matches Ok(p) ==> data@
            == stream_ct(bundle@.large_key, bundle@.large_nonce, 0, p@)) && (forall|p: Seq<u8>|
            data@ == stream_ct(bundle@.large_key, bundle@.large_nonce, 0, p) ==> (r matches Ok(q)
            && q@ == p))),
        (option@ == "encryption"@ || option@ == "decryption"@) ==> (r matches Err(e) ==> e
            == CipherError::AuthenticationFailed),
{
    match parse_mode(option) {
        Some(mode) => run_cipher(mode, bundle, data, threshold_bytes),
        None => Err(CipherError::InvalidMode),
    }
}

} // verus!
