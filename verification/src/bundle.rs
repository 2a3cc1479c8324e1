//! The persisted secret material: one key/nonce pair for the direct cipher
//! and one for the stream cipher.

use vstd::prelude::*;

use crate::errors::CipherError;
use crate::primitives::{random_bytes, KEY_LEN, LARGE_KEY_LEN, NONCE_LEN, STREAM_NONCE_LEN};

verus! {

/// The mathematical content of a [`KeyBundle`]: its four byte sequences.
#[verifier::ext_equal]
pub struct KeyBundleView {
    pub key: Seq<u8>,
    pub nonce: Seq<u8>,
    pub large_key: Seq<u8>,
    pub large_nonce: Seq<u8>,
}

/// A bundle is well formed when its four fields have exactly the lengths the
/// two ciphers take: 32- and 24-byte key and nonce for the direct cipher,
/// 32-byte key and 19-byte nonce base for the stream cipher.
pub open spec fn wf_view(v: KeyBundleView) -> bool {
    &&& v.key.len() == KEY_LEN
    &&& v.nonce.len() == NONCE_LEN
    &&& v.large_key.len() == LARGE_KEY_LEN
    &&& v.large_nonce.len() == STREAM_NONCE_LEN
}

/// The full set of persisted secret material.  It is created once, persisted,
/// and never mutated afterwards; both cipher strategies borrow it read-only.
pub struct KeyBundle {
    pub key: Vec<u8>,
    pub nonce: Vec<u8>,
    pub large_key: Vec<u8>,
    pub large_nonce: Vec<u8>,
}

impl View for KeyBundle {
    type V = KeyBundleView;

    open spec fn view(&self) -> KeyBundleView {
        KeyBundleView {
            key: self.key@,
            nonce: self.nonce@,
            large_key: self.large_key@,
            large_nonce: self.large_nonce@,
        }
    }
}

impl KeyBundle {
    /// The bundle's invariant; see [`wf_view`].
    pub open spec fn wf(&self) -> bool {
        wf_view(self@)
    }

    /// Builds a bundle from four raw fields, accepting exactly the field
    /// lengths the ciphers take and rejecting everything else as a malformed
    /// key file: a partial or mis-sized bundle never comes into existence.
    pub fn from_parts(
        key: Vec<u8>,
        nonce: Vec<u8>,
        large_key: Vec<u8>,
        large_nonce: Vec<u8>,
    ) -> (r: Result<KeyBundle, CipherError>)
        ensures
            (r matches Ok(b)) <==> (key@.len() == KEY_LEN && nonce@.len() == NONCE_LEN
                && large_key@.len() == LARGE_KEY_LEN && large_nonce@.len() == STREAM_NONCE_LEN),
            r matches Ok(b) ==> b.wf() && b@ == (KeyBundleView {
                key: key@,
                nonce: nonce@,
                large_key: large_key@,
                large_nonce: large_nonce@,
            }),
            r matches Err(e) ==> e == CipherError::MalformedKeyFile,
    {
        if key.len() == KEY_LEN && nonce.len() == NONCE_LEN && large_key.len() == LARGE_KEY_LEN
            && large_nonce.len() == STREAM_NONCE_LEN {
            Ok(KeyBundle { key, nonce, large_key, large_nonce })
        } else {
            Err(CipherError::MalformedKeyFile)
        }
    }

    /// Draws a fresh, well-formed bundle from the operating system's
    /// cryptographically secure random source.
    pub fn generate() -> (r: KeyBundle)
        ensures
            r.wf(),
    {
        KeyBundle {
            key: random_bytes(KEY_LEN),
            nonce: random_bytes(NONCE_LEN),
            large_key: random_bytes(LARGE_KEY_LEN),
            large_nonce: random_bytes(STREAM_NONCE_LEN),
        }
    }
}

} // verus!
