use filecrypt::bundle::KeyBundle;
use filecrypt::direct::{decrypt_direct, direct_round_trip, encrypt_direct};
use filecrypt::engine::{
    cipher_buffer, engine_round_trip, parse_mode, run_cipher, select_strategy, Mode, Strategy,
};
use filecrypt::errors::CipherError;
use filecrypt::stream::{
    decrypt_stream, encrypt_stream, open_truncated_stream, stream_round_trip, StreamOpener,
    StreamSealer,
};

fn pattern(len: usize) -> Vec<u8> {
    let mut v = Vec::with_capacity(len);
    for i in 0..len {
        v.push((i % 251) as u8);
    }
    v
}

#[test]
fn direct_round_trip_small_buffer() {
    let bundle = KeyBundle::generate();
    let data: Vec<u8> = b"attack at dawn".to_vec();
    let sealed = encrypt_direct(&bundle.key, &bundle.nonce, &data);
    assert_eq!(sealed.len(), data.len() + 16);
    let opened = decrypt_direct(&bundle.key, &bundle.nonce, &sealed).unwrap();
    assert_eq!(opened, data);
}

#[test]
fn direct_round_trip_law_runs() {
    let bundle = KeyBundle::generate();
    let data = pattern(333);
    let opened = direct_round_trip(&bundle.key, &bundle.nonce, &data).unwrap();
    assert_eq!(opened, data);
}

#[test]
fn direct_round_trip_empty_buffer() {
    let bundle = KeyBundle::generate();
    let data: Vec<u8> = Vec::new();
    let sealed = encrypt_direct(&bundle.key, &bundle.nonce, &data);
    assert_eq!(sealed.len(), 16);
    let opened = decrypt_direct(&bundle.key, &bundle.nonce, &sealed).unwrap();
    assert!(opened.is_empty());
}

#[test]
fn concrete_ten_byte_scenario() {
    // The direct cipher on the literal small file: the destination holds the
    // source plus the 16-byte tag, and decryption reproduces it exactly.
    let bundle = KeyBundle::generate();
    let data: Vec<u8> = b"hello1234".to_vec();
    let sealed = encrypt_direct(&bundle.key, &bundle.nonce, &data);
    assert_eq!(sealed.len(), data.len() + 16);
    let opened = decrypt_direct(&bundle.key, &bundle.nonce, &sealed).unwrap();
    assert_eq!(opened, b"hello1234".to_vec());
}

#[test]
fn stream_round_trip_chunk_multiples() {
    // Sizes of exactly k chunks for k = 0, 1, 2, 3: the final-chunk marker
    // lands exactly once whether the last read is empty or partially full.
    let bundle = KeyBundle::generate();
    for k in 0..4usize {
        let data = pattern(k * 500);
        let sealed = encrypt_stream(&bundle.large_key, &bundle.large_nonce, &data);
        assert_eq!(sealed.len(), k * 516 + 16);
        let opened = decrypt_stream(&bundle.large_key, &bundle.large_nonce, &sealed).unwrap();
        assert_eq!(opened, data);
    }
}

#[test]
fn stream_round_trip_partial_tail() {
    let bundle = KeyBundle::generate();
    for len in [1usize, 499, 501, 1123] {
        let data = pattern(len);
        let sealed = encrypt_stream(&bundle.large_key, &bundle.large_nonce, &data);
        let opened = decrypt_stream(&bundle.large_key, &bundle.large_nonce, &sealed).unwrap();
        assert_eq!(opened, data);
    }
}

#[test]
fn stream_round_trip_law_runs() {
    let bundle = KeyBundle::generate();
    let data = pattern(777);
    let opened = stream_round_trip(&bundle.large_key, &bundle.large_nonce, &data).unwrap();
    assert_eq!(opened, data);
}

#[test]
fn tamper_detection_direct_every_byte() {
    // Flipping any single byte of the ciphertext, the tag included, must
    // make decryption fail and yield no plaintext.
    let bundle = KeyBundle::generate();
    let data: Vec<u8> = b"hello1234".to_vec();
    let sealed = encrypt_direct(&bundle.key, &bundle.nonce, &data);
    for i in 0..sealed.len() {
        let mut bent = sealed.clone();
        bent[i] ^= 0x01;
        let r = decrypt_direct(&bundle.key, &bundle.nonce, &bent);
        assert_eq!(r, Err(CipherError::AuthenticationFailed));
    }
}

#[test]
fn tamper_detection_stream_every_byte() {
    let bundle = KeyBundle::generate();
    let data = pattern(700);
    let sealed = encrypt_stream(&bundle.large_key, &bundle.large_nonce, &data);
    assert_eq!(sealed.len(), 516 + 200 + 16);
    for i in 0..sealed.len() {
        let mut bent = sealed.clone();
        bent[i] ^= 0x80;
        let r = decrypt_stream(&bundle.large_key, &bundle.large_nonce, &bent);
        assert_eq!(r, Err(CipherError::AuthenticationFailed));
    }
}

#[test]
fn truncation_detection_drop_final_chunk() {
    // Removing the final chunk, terminal marker included, must fail rather
    // than silently return a truncated plaintext.
    let bundle = KeyBundle::generate();
    let data = pattern(1000);
    let sealed = encrypt_stream(&bundle.large_key, &bundle.large_nonce, &data);
    assert_eq!(sealed.len(), 516 + 516 + 16);
    let cut: Vec<u8> = sealed[..sealed.len() - 16].to_vec();
    let r = decrypt_stream(&bundle.large_key, &bundle.large_nonce, &cut);
    assert_eq!(r, Err(CipherError::AuthenticationFailed));
}

#[test]
fn truncation_detection_partial_final_chunk() {
    let bundle = KeyBundle::generate();
    let data = pattern(700);
    let sealed = encrypt_stream(&bundle.large_key, &bundle.large_nonce, &data);
    let cut: Vec<u8> = sealed[..516].to_vec();
    let r = decrypt_stream(&bundle.large_key, &bundle.large_nonce, &cut);
    assert_eq!(r, Err(CipherError::AuthenticationFailed));
}

#[test]
fn truncation_detection_empty_remainder() {
    let bundle = KeyBundle::generate();
    let cut: Vec<u8> = Vec::new();
    let r = decrypt_stream(&bundle.large_key, &bundle.large_nonce, &cut);
    assert_eq!(r, Err(CipherError::AuthenticationFailed));
}

#[test]
fn chunked_sealing_matches_whole_buffer() {
    // Driving the stateful sealer chunk by chunk gives byte-identical output
    // to sealing the buffer in one call, and the opener reverses it.
    let bundle = KeyBundle::generate();
    let data = pattern(1200);
    let whole = encrypt_stream(&bundle.large_key, &bundle.large_nonce, &data);

    let mut sealer = StreamSealer::new(&bundle.large_key, &bundle.large_nonce);
    let mut chunked: Vec<u8> = Vec::new();
    chunked.extend_from_slice(&sealer.seal_next(&data[0..500]));
    chunked.extend_from_slice(&sealer.seal_next(&data[500..1000]));
    chunked.extend_from_slice(&sealer.seal_last(&data[1000..1200]));
    assert_eq!(chunked, whole);

    let mut opener = StreamOpener::new(&bundle.large_key, &bundle.large_nonce);
    let mut opened: Vec<u8> = Vec::new();
    opened.extend_from_slice(&opener.open_next(&chunked[0..516]).unwrap());
    opened.extend_from_slice(&opener.open_next(&chunked[516..1032]).unwrap());
    opened.extend_from_slice(&opener.open_last(&chunked[1032..]).unwrap());
    assert_eq!(opened, data);
}

#[test]
fn chunked_opener_rejects_reordered_chunks() {
    let bundle = KeyBundle::generate();
    let data = pattern(1200);
    let sealed = encrypt_stream(&bundle.large_key, &bundle.large_nonce, &data);
    let mut opener = StreamOpener::new(&bundle.large_key, &bundle.large_nonce);
    // The second chunk at position zero fails: chunks are bound to positions.
    let r = opener.open_next(&sealed[516..1032]);
    assert_eq!(r, Err(CipherError::AuthenticationFailed));
}

#[test]
fn strategy_selection_straddles_threshold() {
    assert_eq!(select_strategy(99, 100), Strategy::Direct);
    assert_eq!(select_strategy(100, 100), Strategy::Stream);
    assert_eq!(select_strategy(101, 100), Strategy::Stream);
}

#[test]
fn engine_round_trip_across_threshold() {
    // Buffers straddling the threshold round-trip under the engine, which
    // picks a different strategy on each side.  The strategy is chosen by
    // the size of whatever buffer is handed in, so on the encrypt side a
    // buffer just under the threshold stays direct only while its ciphertext
    // (16 bytes longer) is still under it too: the last size that
    // round-trips directly is threshold minus the tag length minus one.
    let bundle = KeyBundle::generate();
    let threshold: u64 = 600;
    for len in [583usize, 600, 601] {
        let data = pattern(len);
        let sealed = run_cipher(Mode::Encrypt, &bundle, &data, threshold).unwrap();
        let opened = run_cipher(Mode::Decrypt, &bundle, &sealed, threshold).unwrap();
        assert_eq!(opened, data);
    }
}

#[test]
fn engine_window_just_under_threshold_cannot_round_trip() {
    // A buffer of threshold-1 bytes seals directly, but its ciphertext
    // crosses the threshold, so size dispatch sends decryption to the
    // stream cipher and authentication fails.  The window covers the last
    // sixteen sizes under the threshold.
    let bundle = KeyBundle::generate();
    let threshold: u64 = 600;
    let data = pattern(599);
    let sealed = run_cipher(Mode::Encrypt, &bundle, &data, threshold).unwrap();
    assert_eq!(sealed.len(), 615);
    let r = run_cipher(Mode::Decrypt, &bundle, &sealed, threshold);
    assert_eq!(r, Err(CipherError::AuthenticationFailed));
}

#[test]
fn engine_direct_and_stream_disagree() {
    // The two strategies produce different ciphertexts for the same input:
    // decrypting under the wrong strategy fails authentication.
    let bundle = KeyBundle::generate();
    let data = pattern(50);
    let sealed = run_cipher(Mode::Encrypt, &bundle, &data, 1000).unwrap();
    let r = run_cipher(Mode::Decrypt, &bundle, &sealed, 1);
    assert_eq!(r, Err(CipherError::AuthenticationFailed));
}

#[test]
fn engine_round_trip_law_runs() {
    let bundle = KeyBundle::generate();
    for len in [0usize, 100, 583, 600, 2000] {
        let data = pattern(len);
        let opened = engine_round_trip(&bundle, &data, 600).unwrap();
        assert_eq!(opened, data);
    }
}

#[test]
fn truncation_law_runs() {
    let bundle = KeyBundle::generate();
    let data = pattern(1500);
    let sealed = encrypt_stream(&bundle.large_key, &bundle.large_nonce, &data);
    let cut: Vec<u8> = sealed[..3 * 516].to_vec();
    let r = open_truncated_stream(&bundle.large_key, &bundle.large_nonce, &cut);
    assert_eq!(r, Err(CipherError::AuthenticationFailed));
}

#[test]
fn parse_mode_accepts_the_two_modes() {
    assert_eq!(parse_mode("encryption"), Some(Mode::Encrypt));
    assert_eq!(parse_mode("decryption"), Some(Mode::Decrypt));
    assert_eq!(parse_mode("compression"), None);
    assert_eq!(parse_mode(""), None);
    assert_eq!(parse_mode("Encryption"), None);
}

#[test]
fn invalid_mode_is_reported_and_nothing_runs() {
    let bundle = KeyBundle::generate();
    let data = pattern(10);
    let r = cipher_buffer("compression", &bundle, &data, 1000);
    assert_eq!(r, Err(CipherError::InvalidMode));
}

#[test]
fn cipher_buffer_round_trip() {
    let bundle = KeyBundle::generate();
    let data: Vec<u8> = b"the quick brown fox".to_vec();
    let sealed = cipher_buffer("encryption", &bundle, &data, 1000).unwrap();
    assert_eq!(sealed.len(), data.len() + 16);
    let opened = cipher_buffer("decryption", &bundle, &sealed, 1000).unwrap();
    assert_eq!(opened, data);
}

#[test]
fn generated_bundles_differ() {
    // The random source really feeds the bundle: two draws never agree.
    let a = KeyBundle::generate();
    let b = KeyBundle::generate();
    assert_eq!(a.key.len(), 32);
    assert_eq!(a.nonce.len(), 24);
    assert_eq!(a.large_key.len(), 32);
    assert_eq!(a.large_nonce.len(), 19);
    assert_ne!(a.key, b.key);
    assert_ne!(a.large_key, b.large_key);
}
