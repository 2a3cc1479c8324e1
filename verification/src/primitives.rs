//! The trusted boundary to the AEAD primitive and the system's randomness.
//!
//! Everything the library knows about XChaCha20-Poly1305 is stated here, over
//! two named byte functions, and believed rather than proved: each wrapper's
//! contract is checked by a reader against the outside crate's source.  All
//! verified reasoning in the rest of the crate goes through these contracts.

use vstd::prelude::*;

use chacha20poly1305::aead::generic_array::GenericArray;
use chacha20poly1305::aead::stream::{NewStream, StreamBE32, StreamPrimitive};
use chacha20poly1305::aead::{Aead, KeyInit};
use chacha20poly1305::XChaCha20Poly1305;
use rand::rngs::OsRng;
use rand::RngCore;

verus! {

/// Length in bytes of the Poly1305 authentication tag that a seal appends.
pub const TAG_LEN: usize = 16;

/// Length in bytes of a direct-cipher key.
pub const KEY_LEN: usize = 32;

/// Length in bytes of a direct-cipher nonce.
pub const NONCE_LEN: usize = 24;

/// Length in bytes of the stream cipher's key.
pub const LARGE_KEY_LEN: usize = 32;

/// Length in bytes of the stream cipher's nonce base: a 24-byte XChaCha
/// nonce minus the 4-byte counter and 1-byte last-block flag that the
/// STREAM construction appends per chunk.
pub const STREAM_NONCE_LEN: usize = 19;

/// Strict upper bound on the message one seal can process.  The ChaCha20
/// keystream holds `u32::MAX + 1` 64-byte blocks and spends its first block
/// deriving the Poly1305 key, which leaves `u32::MAX - 1` whole blocks —
/// `0x3FFFFFFF80` bytes — for the message itself.  (The cipher's own length
/// pre-check is 63 bytes looser and aborts, rather than failing, on the
/// lengths in between, so the wrappers keep to this stricter bound.)
pub const SEAL_MAX_LEN: u64 = 0x3FFFFFFF81;

/// The bytes that the single-shot XChaCha20-Poly1305 seal returns for a key,
/// a nonce and a message.  The seal is deterministic, so this is a function
/// of its arguments alone; nothing else is assumed of its value here.
pub uninterp spec fn direct_seal_bytes(key: Seq<u8>, nonce: Seq<u8>, plain: Seq<u8>) -> Seq<u8>;

/// The bytes that the STREAM construction's per-chunk seal returns for a key,
/// a nonce base, a 32-bit big-endian chunk counter, a last-chunk flag and a
/// chunk.  Deterministic for the same reason as [`direct_seal_bytes`].
pub uninterp spec fn stream_seal_bytes(
    key: Seq<u8>,
    nonce: Seq<u8>,
    position: u32,
    last: bool,
    plain: Seq<u8>,
) -> Seq<u8>;

/// The direct ciphertext of `plain`: the sealed bytes, which are the message
/// followed by the 16-byte tag, so their length is pinned here.
pub open spec fn direct_ct(key: Seq<u8>, nonce: Seq<u8>, plain: Seq<u8>) -> Seq<u8> {
    Seq::new((plain.len() + TAG_LEN) as nat, |i: int| direct_seal_bytes(key, nonce, plain)[i])
}

/// The ciphertext of one stream chunk sealed at `position`, again with its
/// length pinned to the chunk length plus the tag.
pub open spec fn chunk_ct(
    key: Seq<u8>,
    nonce: Seq<u8>,
    position: int,
    last: bool,
    plain: Seq<u8>,
) -> Seq<u8> {
    Seq::new((plain.len() + TAG_LEN) as nat, |i: int| stream_seal_bytes(
        key,
        nonce,
        position as u32,
        last,
        plain,
    )[i])
}

/// Rewraps a sealed sequence: anything that equals the raw seal bytes and
/// has the sealed length is the direct ciphertext.
pub proof fn lemma_direct_ct_intro(key: Seq<u8>, nonce: Seq<u8>, plain: Seq<u8>, c: Seq<u8>)
    requires
        c == direct_seal_bytes(key, nonce, plain),
        c.len() == plain.len() + TAG_LEN,
    ensures
        c == direct_ct(key, nonce, plain),
{
    assert(c =~= direct_ct(key, nonce, plain));
}

/// The per-chunk counterpart of [`lemma_direct_ct_intro`].
pub proof fn lemma_chunk_ct_intro(
    key: Seq<u8>,
    nonce: Seq<u8>,
    position: u32,
    last: bool,
    plain: Seq<u8>,
    c: Seq<u8>,
)
    requires
        c == stream_seal_bytes(key, nonce, position, last, plain),
        c.len() == plain.len() + TAG_LEN,
    ensures
        c == chunk_ct(key, nonce, position as int, last, plain),
{
    assert(c =~= chunk_ct(key, nonce, position as int, last, plain));
}

/// Relies on `XChaCha20Poly1305::new` and `Aead::encrypt`: sealing is
/// deterministic, appends the 16-byte tag to the message, and fails only when
/// the message exceeds the keystream limit, which the precondition rules out.
#[verifier::external_body]
pub(crate) fn aead_seal(key: &[u8], nonce: &[u8], plain: &[u8]) -> (r: Vec<u8>)
    requires
        key@.len() == KEY_LEN,
        nonce@.len() == NONCE_LEN,
        plain@.len() < SEAL_MAX_LEN,
    ensures
        r@ == direct_seal_bytes(key@, nonce@, plain@),
        r@.len() == plain@.len() + TAG_LEN,
{
    let cipher = XChaCha20Poly1305::new(GenericArray::from_slice(key));
    cipher.encrypt(GenericArray::from_slice(nonce), plain).unwrap()
}

/// Relies on `Aead::decrypt`: it verifies the tag and succeeds exactly on the
/// output of the seal under the same key and nonce, returning the message
/// that was sealed.  The ciphertext stays under the sealable length plus the
/// tag, so the keystream cannot run out after a verified tag.
#[verifier::external_body]
pub(crate) fn aead_open(key: &[u8], nonce: &[u8], ct: &[u8]) -> (r: Option<Vec<u8>>)
    requires
        key@.len() == KEY_LEN,
        nonce@.len() == NONCE_LEN,
        ct@.len() < SEAL_MAX_LEN + TAG_LEN,
    ensures
        r matches Some(p) ==> ct@ == direct_ct(key@, nonce@, p@),
        r matches Some(p) ==> forall|q: Seq<u8>|
            q.len() < SEAL_MAX_LEN && ct@ == direct_ct(key@, nonce@, q) ==> p@ == q,
        r is None ==> forall|p: Seq<u8>|
            p.len() < SEAL_MAX_LEN ==> ct@ != direct_ct(key@, nonce@, p),
{
    let cipher = XChaCha20Poly1305::new(GenericArray::from_slice(key));
    match cipher.decrypt(GenericArray::from_slice(nonce), ct) {
        Ok(p) => Some(p),
        Err(_) => None,
    }
}

/// Relies on `StreamBE32::from_aead` and `StreamPrimitive::encrypt`: the
/// per-chunk nonce is the base followed by the big-endian counter and the
/// last-block flag, so the seal is a deterministic function of the arguments;
/// the tag rule and failure condition are those of [`aead_seal`].
#[verifier::external_body]
pub(crate) fn stream_seal_chunk(
    key: &[u8],
    nonce: &[u8],
    position: u32,
    last: bool,
    chunk: &[u8],
) -> (r: Vec<u8>)
    requires
        key@.len() == KEY_LEN,
        nonce@.len() == STREAM_NONCE_LEN,
        chunk@.len() < SEAL_MAX_LEN,
    ensures
        r@ == stream_seal_bytes(key@, nonce@, position, last, chunk@),
        r@.len() == chunk@.len() + TAG_LEN,
{
    let aead = XChaCha20Poly1305::new(GenericArray::from_slice(key));
    let stream = StreamBE32::from_aead(aead, GenericArray::from_slice(nonce));
    stream.encrypt(position, last, chunk).unwrap()
}

/// Relies on `StreamBE32::from_aead` and `StreamPrimitive::decrypt`: the
/// exact inverse of [`stream_seal_chunk`] at the same position and flag, and
/// a failure on everything that seal cannot have produced there.  The chunk
/// stays under the sealable length plus the tag, as in [`aead_open`].
#[verifier::external_body]
pub(crate) fn stream_open_chunk(
    key: &[u8],
    nonce: &[u8],
    position: u32,
    last: bool,
    ct: &[u8],
) -> (r: Option<Vec<u8>>)
    requires
        key@.len() == KEY_LEN,
        nonce@.len() == STREAM_NONCE_LEN,
        ct@.len() < SEAL_MAX_LEN + TAG_LEN,
    ensures
        r matches Some(p) ==> ct@ == chunk_ct(key@, nonce@, position as int, last, p@),
        r matches Some(p) ==> forall|q: Seq<u8>|
            q.len() < SEAL_MAX_LEN && ct@ == chunk_ct(key@, nonce@, position as int, last, q)
                ==> p@ == q,
        r is None ==> forall|p: Seq<u8>|
            p.len() < SEAL_MAX_LEN ==> ct@ != chunk_ct(key@, nonce@, position as int, last, p),
{
    let aead = XChaCha20Poly1305::new(GenericArray::from_slice(key));
    let stream = StreamBE32::from_aead(aead, GenericArray::from_slice(nonce));
    match stream.decrypt(position, last, ct) {
        Ok(p) => Some(p),
        Err(_) => None,
    }
}

/// Relies on rand's `OsRng::fill_bytes`: it fills the buffer from the
/// operating system's entropy source.  Nothing can be promised of the values;
/// only the length is stated.  (It aborts, for every input alike, if the
/// operating system cannot supply entropy.)
#[verifier::external_body]
pub(crate) fn random_bytes(n: usize) -> (r: Vec<u8>)
    ensures
        r@.len() == n,
{
    let mut buf = vec![0u8; n];
    OsRng.fill_bytes(&mut buf);
    buf
}

} // verus!
