//! The stream cipher: fixed-size chunks sealed under the STREAM
//! construction, with a strictly increasing big-endian chunk counter and an
//! explicit last-chunk flag.
//!
//! The model is [`stream_ct`]: a plaintext is cut into 500-byte chunks, every
//! full chunk is sealed as non-final at its position, and whatever is left —
//! possibly nothing — is sealed exactly once as the final chunk.  Sealing and
//! opening are verified against that model, and the lemmas at the end state
//! the layout, round-trip and truncation-detection laws over it.

use vstd::prelude::*;
use vstd::slice::{slice_subrange, slice_to_vec};

use crate::errors::CipherError;
use crate::primitives::{
    chunk_ct, lemma_chunk_ct_intro, stream_open_chunk, stream_seal_chunk, KEY_LEN, SEAL_MAX_LEN,
    STREAM_NONCE_LEN, TAG_LEN,
};

verus! {

/// Plaintext bytes per non-final chunk.
pub const CHUNK_SIZE: usize = 500;

/// Ciphertext bytes per non-final chunk: the chunk plus its tag.
pub const ENC_CHUNK_SIZE: usize = CHUNK_SIZE + TAG_LEN;

/// How many full, non-final chunks a plaintext of `n` bytes yields.
pub open spec fn full_chunks(n: nat) -> nat
    decreases n,
{
    if n >= CHUNK_SIZE {
        (1 + full_chunks((n - CHUNK_SIZE) as nat)) as nat
    } else {
        0
    }
}

/// How many full ciphertext chunks a stream of `n` bytes holds.
pub open spec fn enc_full_chunks(n: nat) -> nat
    decreases n,
{
    if n >= ENC_CHUNK_SIZE {
        (1 + enc_full_chunks((n - ENC_CHUNK_SIZE) as nat)) as nat
    } else {
        0
    }
}

/// The length of the final plaintext chunk of an `n`-byte plaintext.
pub open spec fn final_chunk_len(n: nat) -> nat
    decreases n,
{
    if n >= CHUNK_SIZE {
        final_chunk_len((n - CHUNK_SIZE) as nat)
    } else {
        n
    }
}

/// The stream ciphertext of `plain`, chunk counters starting at `position`:
/// every full chunk is sealed as non-final, and the short (possibly empty)
/// remainder is sealed as the final chunk.  A plaintext that is an exact
/// multiple of the chunk size therefore ends with an empty final chunk.
pub open spec fn stream_ct(key: Seq<u8>, nonce: Seq<u8>, position: int, plain: Seq<u8>) -> Seq<u8>
    decreases plain.len(),
{
    if plain.len() >= CHUNK_SIZE {
        chunk_ct(key, nonce, position, false, plain.take(CHUNK_SIZE as int)) + stream_ct(
            key,
            nonce,
            position + 1,
            plain.skip(CHUNK_SIZE as int),
        )
    } else {
        chunk_ct(key, nonce, position, true, plain)
    }
}

/// The stream ciphertext shorn of its final chunk: the non-final chunks
/// alone, which is what a truncation attack leaves behind.
pub open spec fn stream_ct_body(
    key: Seq<u8>,
    nonce: Seq<u8>,
    position: int,
    plain: Seq<u8>,
) -> Seq<u8>
    decreases plain.len(),
{
    if plain.len() >= CHUNK_SIZE {
        chunk_ct(key, nonce, position, false, plain.take(CHUNK_SIZE as int)) + stream_ct_body(
            key,
            nonce,
            position + 1,
            plain.skip(CHUNK_SIZE as int),
        )
    } else {
        Seq::empty()
    }
}

/// The length of a stream ciphertext, as a function of the plaintext length.
pub open spec fn stream_ct_len(n: nat) -> nat
    decreases n,
{
    if n >= CHUNK_SIZE {
        (ENC_CHUNK_SIZE + stream_ct_len((n - CHUNK_SIZE) as nat)) as nat
    } else {
        (n + TAG_LEN) as nat
    }
}

/// The length of a stream ciphertext without its final chunk.
pub open spec fn stream_ct_body_len(n: nat) -> nat
    decreases n,
{
    if n >= CHUNK_SIZE {
        (ENC_CHUNK_SIZE + stream_ct_body_len((n - CHUNK_SIZE) as nat)) as nat
    } else {
        0
    }
}

pub proof fn lemma_stream_ct_len(key: Seq<u8>, nonce: Seq<u8>, position: int, plain: Seq<u8>)
    ensures
        stream_ct(key, nonce, position, plain).len() == stream_ct_len(plain.len()),
    decreases plain.len(),
{
    if plain.len() >= CHUNK_SIZE {
        lemma_stream_ct_len(key, nonce, position + 1, plain.skip(CHUNK_SIZE as int));
    }
}

pub proof fn lemma_stream_ct_body_len(key: Seq<u8>, nonce: Seq<u8>, position: int, plain: Seq<u8>)
    ensures
        stream_ct_body(key, nonce, position, plain).len() == stream_ct_body_len(plain.len()),
    decreases plain.len(),
{
    if plain.len() >= CHUNK_SIZE {
        lemma_stream_ct_body_len(key, nonce, position + 1, plain.skip(CHUNK_SIZE as int));
    }
}

/// A stream and a stream shorn of its final chunk never have the same
/// length: the body is a multiple of the full ciphertext chunk, while a
/// whole stream always carries a final chunk of 16 to 515 bytes on top.
pub proof fn lemma_body_len_ne_ct_len(n1: nat, n2: nat)
    ensures
        stream_ct_body_len(n1) != stream_ct_len(n2),
    decreases n1 + n2,
{
    if n1 >= CHUNK_SIZE && n2 >= CHUNK_SIZE {
        lemma_body_len_ne_ct_len((n1 - CHUNK_SIZE) as nat, (n2 - CHUNK_SIZE) as nat);
    }
}

pub proof fn lemma_final_chunk_len_le(n: nat)
    ensures
        final_chunk_len(n) <= n,
    decreases n,
{
    if n >= CHUNK_SIZE {
        lemma_final_chunk_len_le((n - CHUNK_SIZE) as nat);
    }
}

/// Truncation detection, at the level of the model: removing the final chunk
/// of a stream never yields a valid stream, under any plaintexts whatever.
/// Together with the opener's contract this means decryption of a truncated
/// stream always reports `AuthenticationFailed`.
pub proof fn lemma_truncation_detected(
    key: Seq<u8>,
    nonce: Seq<u8>,
    position: int,
    cut: Seq<u8>,
    whole: Seq<u8>,
)
    ensures
        stream_ct_body(key, nonce, position, cut) != stream_ct(key, nonce, position, whole),
{
    lemma_stream_ct_body_len(key, nonce, position, cut);
    lemma_stream_ct_len(key, nonce, position, whole);
    lemma_body_len_ne_ct_len(cut.len(), whole.len());
}

/// Stream layout: every stream is its non-final chunks followed by exactly
/// one final chunk — the final marker appears once, at the end, whether the
/// last chunk is partially full or empty.
pub proof fn lemma_stream_layout(key: Seq<u8>, nonce: Seq<u8>, position: int, plain: Seq<u8>)
    ensures
        stream_ct(key, nonce, position, plain) == stream_ct_body(key, nonce, position, plain)
            + chunk_ct(
            key,
            nonce,
            position + full_chunks(plain.len()),
            true,
            plain.skip(plain.len() - final_chunk_len(plain.len())),
        ),
    decreases plain.len(),
{
    if plain.len() >= CHUNK_SIZE {
        let rest = plain.skip(CHUNK_SIZE as int);
        lemma_stream_layout(key, nonce, position + 1, rest);
        assert(rest.len() == plain.len() - CHUNK_SIZE);
        assert(final_chunk_len(plain.len()) == final_chunk_len(rest.len()));
        assert(final_chunk_len(rest.len()) <= rest.len()) by {
            lemma_final_chunk_len_le(rest.len());
        }
        assert(rest.skip(rest.len() - final_chunk_len(rest.len())) =~= plain.skip(
            plain.len() - final_chunk_len(plain.len()),
        ));
        assert(stream_ct(key, nonce, position, plain) =~= stream_ct_body(
            key,
            nonce,
            position,
            plain,
        ) + chunk_ct(
            key,
            nonce,
            position + full_chunks(plain.len()),
            true,
            plain.skip(plain.len() - final_chunk_len(plain.len())),
        ));
    } else {
        assert(plain.skip(plain.len() - final_chunk_len(plain.len())) =~= plain);
        assert(stream_ct(key, nonce, position, plain) =~= stream_ct_body(
            key,
            nonce,
            position,
            plain,
        ) + chunk_ct(
            key,
            nonce,
            position + full_chunks(plain.len()),
            true,
            plain.skip(plain.len() - final_chunk_len(plain.len())),
        ));
    }
}

/// Seals `plain` as a stream whose chunk counter starts at `position`,
/// returning exactly the model ciphertext.
pub fn seal_stream_from(key: &[u8], nonce: &[u8], position: u32, plain: &[u8]) -> (r: Vec<u8>)
    requires
        key@.len() == KEY_LEN,
        nonce@.len() == STREAM_NONCE_LEN,
        position + full_chunks(plain@.len()) <= u32::MAX,
    ensures
        r@ == stream_ct(key@, nonce@, position as int, plain@),
    decreases plain@.len(),
{
    if plain.len() >= CHUNK_SIZE {
        let head = slice_subrange(plain, 0, CHUNK_SIZE);
        let tail = slice_subrange(plain, CHUNK_SIZE, plain.len());
        let mut out = stream_seal_chunk(key, nonce, position, false, head);
        proof {
            lemma_chunk_ct_intro(key@, nonce@, position, false, head@, out@);
            assert(full_chunks(plain@.len()) == 1 + full_chunks(tail@.len()));
        }
        let mut rest = seal_stream_from(key, nonce, position + 1, tail);
        out.append(&mut rest);
        proof {
            assert(head@ == plain@.take(CHUNK_SIZE as int));
            assert(tail@ == plain@.skip(CHUNK_SIZE as int));
        }
        out
    } else {
        let out = stream_seal_chunk(key, nonce, position, true, plain);
        proof {
            lemma_chunk_ct_intro(key@, nonce@, position, true, plain@, out@);
        }
        out
    }
}

/// Opens a stream whose chunk counter starts at `position`.  It returns `Ok`
/// exactly on the model ciphertexts — then the sealed plaintext comes back —
/// and `AuthenticationFailed` on everything else, including reordered,
/// spliced and truncated streams.
pub fn open_stream_from(key: &[u8], nonce: &[u8], position: u32, ct: &[u8]) -> (r: Result<
    Vec<u8>,
    CipherError,
>)
    requires
        key@.len() == KEY_LEN,
        nonce@.len() == STREAM_NONCE_LEN,
        position + enc_full_chunks(ct@.len()) <= u32::MAX,
    ensures
        r matches Ok(p) ==> ct@ == stream_ct(key@, nonce@, position as int, p@),
        forall|p: Seq<u8>|
            ct@ == stream_ct(key@, nonce@, position as int, p) ==> (r matches Ok(q) && q@ == p),
        r matches Err(e) ==> e == CipherError::AuthenticationFailed,
    decreases ct@.len(),
{
    if ct.len() >= ENC_CHUNK_SIZE {
        let head = slice_subrange(ct, 0, ENC_CHUNK_SIZE);
        let tail = slice_subrange(ct, ENC_CHUNK_SIZE, ct.len());
        proof {
            assert(enc_full_chunks(ct@.len()) == 1 + enc_full_chunks(tail@.len()));
        }
        match stream_open_chunk(key, nonce, position, false, head) {
            None => {
                proof {
                    assert forall|p: Seq<u8>|
                        ct@ != stream_ct(key@, nonce@, position as int, p) by {
                        if ct@ == stream_ct(key@, nonce@, position as int, p) {
                            lemma_stream_ct_len(key@, nonce@, position as int, p);
                            assert(p.len() >= CHUNK_SIZE);
                            assert(head@ =~= chunk_ct(
                                key@,
                                nonce@,
                                position as int,
                                false,
                                p.take(CHUNK_SIZE as int),
                            ));
                        }
                    }
                }
                Err(CipherError::AuthenticationFailed)
            },
            Some(head_plain) => {
                let ghost pos = position as int;
                proof {
                    assert(head@ == chunk_ct(key@, nonce@, pos, false, head_plain@));
                    assert(chunk_ct(key@, nonce@, pos, false, head_plain@).len() == head_plain@.len()
                        + TAG_LEN);
                    assert(head_plain@.len() == CHUNK_SIZE);
                }
                match open_stream_from(key, nonce, position + 1, tail) {
                    Err(e) => {
                        proof {
                            assert forall|p: Seq<u8>|
                                ct@ != stream_ct(key@, nonce@, pos, p) by {
                                if ct@ == stream_ct(key@, nonce@, pos, p) {
                                    lemma_stream_ct_len(key@, nonce@, pos, p);
                                    assert(p.len() >= CHUNK_SIZE);
                                    assert(tail@ =~= stream_ct(
                                        key@,
                                        nonce@,
                                        pos + 1,
                                        p.skip(CHUNK_SIZE as int),
                                    ));
                                }
                            }
                        }
                        Err(e)
                    },
                    Ok(mut rest) => {
                        let mut out = head_plain;
                        let ghost rest_view = rest@;
                        out.append(&mut rest);
                        proof {
                            assert(out@.take(CHUNK_SIZE as int) =~= head_plain@);
                            assert(out@.skip(CHUNK_SIZE as int) =~= rest_view);
                            assert(ct@ =~= head@ + tail@);
                            assert(ct@ == stream_ct(key@, nonce@, pos, out@));
                            assert forall|p: Seq<u8>|
                                ct@ == stream_ct(key@, nonce@, pos, p) implies out@ == p by {
                                lemma_stream_ct_len(key@, nonce@, pos, p);
                                assert(p.len() >= CHUNK_SIZE);
                                assert(head@ =~= chunk_ct(
                                    key@,
                                    nonce@,
                                    pos,
                                    false,
                                    p.take(CHUNK_SIZE as int),
                                ));
                                assert(head_plain@ == p.take(CHUNK_SIZE as int));
                                assert(tail@ =~= stream_ct(
                                    key@,
                                    nonce@,
                                    pos + 1,
                                    p.skip(CHUNK_SIZE as int),
                                ));
                                assert(rest_view == p.skip(CHUNK_SIZE as int));
                                assert(out@ =~= p);
                            }
                        }
                        Ok(out)
                    },
                }
            },
        }
    } else {
        match stream_open_chunk(key, nonce, position, true, ct) {
            Some(p) => {
                proof {
                    assert(p@.len() + TAG_LEN == ct@.len());
                    assert(p@.len() < CHUNK_SIZE);
                    assert forall|q: Seq<u8>|
                        ct@ == stream_ct(key@, nonce@, position as int, q) implies p@ == q by {
                        lemma_stream_ct_len(key@, nonce@, position as int, q);
                        assert(q.len() < CHUNK_SIZE);
                        assert(q.len() < SEAL_MAX_LEN);
                    }
                }
                Ok(p)
            },
            None => {
                proof {
                    assert forall|q: Seq<u8>|
                        ct@ != stream_ct(key@, nonce@, position as int, q) by {
                        if ct@ == stream_ct(key@, nonce@, position as int, q) {
                            lemma_stream_ct_len(key@, nonce@, position as int, q);
                            assert(q.len() < CHUNK_SIZE);
                            assert(q.len() < SEAL_MAX_LEN);
                        }
                    }
                }
                Err(CipherError::AuthenticationFailed)
            },
        }
    }
}

/// Seals a whole in-memory buffer as one stream, counters starting at zero.
pub fn encrypt_stream(key: &Vec<u8>, nonce: &Vec<u8>, plain: &Vec<u8>) -> (r: Vec<u8>)
    requires
        key@.len() == KEY_LEN,
        nonce@.len() == STREAM_NONCE_LEN,
        full_chunks(plain@.len()) <= u32::MAX,
    ensures
        r@ == stream_ct(key@, nonce@, 0, plain@),
        r@.len() == stream_ct_len(plain@.len()),
{
    let r = seal_stream_from(key.as_slice(), nonce.as_slice(), 0, plain.as_slice());
    proof {
        lemma_stream_ct_len(key@, nonce@, 0, plain@);
    }
    r
}

/// Opens a whole in-memory stream, counters starting at zero.
pub fn decrypt_stream(key: &Vec<u8>, nonce: &Vec<u8>, ct: &Vec<u8>) -> (r: Result<
    Vec<u8>,
    CipherError,
>)
    requires
        key@.len() == KEY_LEN,
        nonce@.len() == STREAM_NONCE_LEN,
        enc_full_chunks(ct@.len()) <= u32::MAX,
    ensures
        r matches Ok(p) ==> ct@ == stream_ct(key@, nonce@, 0, p@),
        forall|p: Seq<u8>| ct@ == stream_ct(key@, nonce@, 0, p) ==> (r matches Ok(q) && q@ == p),
        r matches Err(e) ==> e == CipherError::AuthenticationFailed,
{
    open_stream_from(key.as_slice(), nonce.as_slice(), 0, ct.as_slice())
}

/// Relates the two chunk counts: a stream of `n` plaintext bytes holds
/// exactly as many full ciphertext chunks as the plaintext holds full chunks.
pub proof fn lemma_enc_full_chunks_of_ct_len(n: nat)
    ensures
        enc_full_chunks(stream_ct_len(n)) == full_chunks(n),
    decreases n,
{
    if n >= CHUNK_SIZE {
        lemma_enc_full_chunks_of_ct_len((n - CHUNK_SIZE) as nat);
    }
}

/// A stream is never shorter than its plaintext: every chunk gains a tag.
pub proof fn lemma_stream_ct_len_ge(n: nat)
    ensures
        stream_ct_len(n) >= n + TAG_LEN,
    decreases n,
{
    if n >= CHUNK_SIZE {
        lemma_stream_ct_len_ge((n - CHUNK_SIZE) as nat);
    }
}

/// A stream is at most twice its plaintext plus one tag: the per-chunk
/// overhead never doubles the data.
pub proof fn lemma_stream_ct_len_le(n: nat)
    ensures
        stream_ct_len(n) <= 2 * n + TAG_LEN,
    decreases n,
{
    if n >= CHUNK_SIZE {
        lemma_stream_ct_len_le((n - CHUNK_SIZE) as nat);
    }
}

/// The full chunks of `n` bytes cover at most `n` bytes.
pub proof fn lemma_full_chunks_bound(n: nat)
    ensures
        500 * full_chunks(n) <= n,
    decreases n,
{
    if n >= CHUNK_SIZE {
        lemma_full_chunks_bound((n - CHUNK_SIZE) as nat);
    }
}

/// The full ciphertext chunks of `n` bytes cover at most `n` bytes.
pub proof fn lemma_enc_full_chunks_bound(n: nat)
    ensures
        516 * enc_full_chunks(n) <= n,
    decreases n,
{
    if n >= ENC_CHUNK_SIZE {
        lemma_enc_full_chunks_bound((n - ENC_CHUNK_SIZE) as nat);
    }
}

/// Round trip of the stream cipher: decrypting what was just encrypted under
/// the same key and nonce base succeeds and returns the original buffer,
/// byte for byte — for every size, full chunks, a partial tail or empty alike.
pub fn stream_round_trip(key: &Vec<u8>, nonce: &Vec<u8>, plain: &Vec<u8>) -> (r: Result<
    Vec<u8>,
    CipherError,
>)
    requires
        key@.len() == KEY_LEN,
        nonce@.len() == STREAM_NONCE_LEN,
        full_chunks(plain@.len()) <= u32::MAX,
    ensures
        r matches Ok(p) && p@ == plain@,
{
    let sealed = encrypt_stream(key, nonce, plain);
    proof {
        lemma_enc_full_chunks_of_ct_len(plain@.len());
    }
    decrypt_stream(key, nonce, &sealed)
}

/// Truncation detection, at the level of the cipher: decrypting a stream
/// whose final chunk was removed reports `AuthenticationFailed`, whatever
/// plaintext the stream was sealed from.
pub fn open_truncated_stream(key: &Vec<u8>, nonce: &Vec<u8>, cut: &Vec<u8>) -> (r: Result<
    Vec<u8>,
    CipherError,
>)
    requires
        key@.len() == KEY_LEN,
        nonce@.len() == STREAM_NONCE_LEN,
        enc_full_chunks(cut@.len()) <= u32::MAX,
        exists|p: Seq<u8>| cut@ == stream_ct_body(key@, nonce@, 0, p),
    ensures
        r matches Err(e) && e == CipherError::AuthenticationFailed,
{
    let r = decrypt_stream(key, nonce, cut);
    proof {
        let p = choose|p: Seq<u8>| cut@ == stream_ct_body(key@, nonce@, 0, p);
        assert forall|q: Seq<u8>| cut@ != stream_ct(key@, nonce@, 0, q) by {
            lemma_truncation_detected(key@, nonce@, 0, p, q);
        }
    }
    r
}

/// Chunk-at-a-time sealing state, for callers that stream a large source
/// instead of holding it in memory: a counter that strictly increases with
/// every non-final chunk, and a flag that shuts the stream after the final
/// one.  Each sealed chunk is exactly the model ciphertext at its position.
pub struct StreamSealer {
    key: Vec<u8>,
    nonce: Vec<u8>,
    position: u32,
    finished: bool,
}

impl StreamSealer {
    /// The sealer's invariant: its key and nonce base have the stream
    /// cipher's lengths.
    pub closed spec fn wf(&self) -> bool {
        self.key@.len() == KEY_LEN && self.nonce@.len() == STREAM_NONCE_LEN
    }

    /// The key this sealer seals under.
    pub closed spec fn key_view(&self) -> Seq<u8> {
        self.key@
    }

    /// The nonce base this sealer seals under.
    pub closed spec fn nonce_view(&self) -> Seq<u8> {
        self.nonce@
    }

    /// The counter of the next chunk.
    pub closed spec fn position_view(&self) -> u32 {
        self.position
    }

    /// Whether the final chunk has been sealed.
    pub closed spec fn finished_view(&self) -> bool {
        self.finished
    }

    /// A fresh sealer at counter zero.
    pub fn new(key: &Vec<u8>, nonce: &Vec<u8>) -> (s: Self)
        requires
            key@.len() == KEY_LEN,
            nonce@.len() == STREAM_NONCE_LEN,
        ensures
            s.wf(),
            s.key_view() == key@,
            s.nonce_view() == nonce@,
            s.position_view() == 0,
            !s.finished_view(),
    {
        let key_copy = slice_to_vec(key.as_slice());
        let nonce_copy = slice_to_vec(nonce.as_slice());
        StreamSealer { key: key_copy, nonce: nonce_copy, position: 0, finished: false }
    }

    /// Seals one full chunk as non-final at the current counter and advances
    /// the counter: positions never repeat and never go backwards.
    pub fn seal_next(&mut self, chunk: &[u8]) -> (r: Vec<u8>)
        requires
            old(self).wf(),
            !old(self).finished_view(),
            old(self).position_view() < u32::MAX,
            chunk@.len() == CHUNK_SIZE,
        ensures
            final(self).wf(),
            final(self).key_view() == old(self).key_view(),
            final(self).nonce_view() == old(self).nonce_view(),
            final(self).position_view() == old(self).position_view() + 1,
            !final(self).finished_view(),
            r@ == chunk_ct(
                old(self).key_view(),
                old(self).nonce_view(),
                old(self).position_view() as int,
                false,
                chunk@,
            ),
    {
        let out = stream_seal_chunk(
            self.key.as_slice(),
            self.nonce.as_slice(),
            self.position,
            false,
            chunk,
        );
        proof {
            lemma_chunk_ct_intro(self.key@, self.nonce@, self.position, false, chunk@, out@);
        }
        self.position = self.position + 1;
        out
    }

    /// Seals the final, short — possibly empty — chunk with the last-chunk
    /// marker and shuts the sealer for good.
    pub fn seal_last(&mut self, chunk: &[u8]) -> (r: Vec<u8>)
        requires
            old(self).wf(),
            !old(self).finished_view(),
            chunk@.len() < CHUNK_SIZE,
        ensures
            final(self).wf(),
            final(self).key_view() == old(self).key_view(),
            final(self).nonce_view() == old(self).nonce_view(),
            final(self).position_view() == old(self).position_view(),
            final(self).finished_view(),
            r@ == chunk_ct(
                old(self).key_view(),
                old(self).nonce_view(),
                old(self).position_view() as int,
                true,
                chunk@,
            ),
    {
        let out = stream_seal_chunk(
            self.key.as_slice(),
            self.nonce.as_slice(),
            self.position,
            true,
            chunk,
        );
        proof {
            lemma_chunk_ct_intro(self.key@, self.nonce@, self.position, true, chunk@, out@);
        }
        self.finished = true;
        out
    }
}

/// The decrypting counterpart of [`StreamSealer`], one ciphertext chunk at a
/// time.  A chunk that fails its tag leaves the opener's state unchanged, and
/// the caller must abort: no unauthenticated bytes are ever returned.
pub struct StreamOpener {
    key: Vec<u8>,
    nonce: Vec<u8>,
    position: u32,
    finished: bool,
}

impl StreamOpener {
    /// The opener's invariant: its key and nonce base have the stream
    /// cipher's lengths.
    pub closed spec fn wf(&self) -> bool {
        self.key@.len() == KEY_LEN && self.nonce@.len() == STREAM_NONCE_LEN
    }

    /// The key this opener opens under.
    pub closed spec fn key_view(&self) -> Seq<u8> {
        self.key@
    }

    /// The nonce base this opener opens under.
    pub closed spec fn nonce_view(&self) -> Seq<u8> {
        self.nonce@
    }

    /// The counter of the next chunk.
    pub closed spec fn position_view(&self) -> u32 {
        self.position
    }

    /// Whether the final chunk has been opened.
    pub closed spec fn finished_view(&self) -> bool {
        self.finished
    }

    /// A fresh opener at counter zero.
    pub fn new(key: &Vec<u8>, nonce: &Vec<u8>) -> (s: Self)
        requires
            key@.len() == KEY_LEN,
            nonce@.len() == STREAM_NONCE_LEN,
        ensures
            s.wf(),
            s.key_view() == key@,
            s.nonce_view() == nonce@,
            s.position_view() == 0,
            !s.finished_view(),
    {
        let key_copy = slice_to_vec(key.as_slice());
        let nonce_copy = slice_to_vec(nonce.as_slice());
        StreamOpener { key: key_copy, nonce: nonce_copy, position: 0, finished: false }
    }

    /// Opens one full ciphertext chunk as non-final at the current counter.
    /// It succeeds exactly on what the sealer produced there — then the
    /// counter advances — and reports `AuthenticationFailed` otherwise,
    /// leaving the state where it was.
    pub fn open_next(&mut self, chunk: &[u8]) -> (r: Result<Vec<u8>, CipherError>)
        requires
            old(self).wf(),
            !old(self).finished_view(),
            old(self).position_view() < u32::MAX,
            chunk@.len() == ENC_CHUNK_SIZE,
        ensures
            final(self).wf(),
            final(self).key_view() == old(self).key_view(),
            final(self).nonce_view() == old(self).nonce_view(),
            !final(self).finished_view(),
            r matches Ok(p) ==> chunk@ == chunk_ct(
                old(self).key_view(),
                old(self).nonce_view(),
                old(self).position_view() as int,
                false,
                p@,
            ) && final(self).position_view() == old(self).position_view() + 1,
            forall|p: Seq<u8>|
                p.len() < SEAL_MAX_LEN && chunk@ == chunk_ct(
                    old(self).key_view(),
                    old(self).nonce_view(),
                    old(self).position_view() as int,
                    false,
                    p,
                ) ==> (r matches Ok(q) && q@ == p),
            r matches Err(e) ==> e == CipherError::AuthenticationFailed
                && final(self).position_view() == old(self).position_view(),
    {
        match stream_open_chunk(
            self.key.as_slice(),
            self.nonce.as_slice(),
            self.position,
            false,
            chunk,
        ) {
            Some(p) => {
                self.position = self.position + 1;
                Ok(p)
            },
            None => Err(CipherError::AuthenticationFailed),
        }
    }

    /// Opens the final, short ciphertext chunk against the last-chunk marker
    /// and shuts the opener; the same success and failure rule as
    /// [`StreamOpener::open_next`].
    pub fn open_last(&mut self, chunk: &[u8]) -> (r: Result<Vec<u8>, CipherError>)
        requires
            old(self).wf(),
            !old(self).finished_view(),
            chunk@.len() < ENC_CHUNK_SIZE,
        ensures
            final(self).wf(),
            final(self).key_view() == old(self).key_view(),
            final(self).nonce_view() == old(self).nonce_view(),
            final(self).position_view() == old(self).position_view(),
            r matches Ok(p) ==> chunk@ == chunk_ct(
                old(self).key_view(),
                old(self).nonce_view(),
                old(self).position_view() as int,
                true,
                p@,
            ) && final(self).finished_view(),
            forall|p: Seq<u8>|
                p.len() < SEAL_MAX_LEN && chunk@ == chunk_ct(
                    old(self).key_view(),
                    old(self).nonce_view(),
                    old(self).position_view() as int,
                    true,
                    p,
                ) ==> (r matches Ok(q) && q@ == p),
            r matches Err(e) ==> e == CipherError::AuthenticationFailed
                && final(self).finished_view() == old(self).finished_view(),
    {
        match stream_open_chunk(
            self.key.as_slice(),
            self.nonce.as_slice(),
            self.position,
            true,
            chunk,
        ) {
            Some(p) => {
                self.finished = true;
                Ok(p)
            },
            None => Err(CipherError::AuthenticationFailed),
        }
    }
}

} // verus!
