use filecrypt::bundle::KeyBundle;
use filecrypt::errors::CipherError;
use filecrypt::keyfile::{encode_key_file, parse_key_file, store_then_load};

#[test]
fn key_file_round_trips_bit_for_bit() {
    // Loading what was stored returns the identical bundle, so a second
    // load-or-create with the file in place hands back the same keys.
    let bundle = KeyBundle::generate();
    let encoded = encode_key_file(&bundle);
    let reloaded = parse_key_file(&encoded).unwrap();
    assert_eq!(reloaded.key, bundle.key);
    assert_eq!(reloaded.nonce, bundle.nonce);
    assert_eq!(reloaded.large_key, bundle.large_key);
    assert_eq!(reloaded.large_nonce, bundle.large_nonce);
    let reloaded_again = parse_key_file(&encoded).unwrap();
    assert_eq!(reloaded_again.key, reloaded.key);
    assert_eq!(reloaded_again.nonce, reloaded.nonce);
    assert_eq!(reloaded_again.large_key, reloaded.large_key);
    assert_eq!(reloaded_again.large_nonce, reloaded.large_nonce);
}

#[test]
fn store_then_load_law_runs() {
    let bundle = KeyBundle::generate();
    let reloaded = store_then_load(&bundle).unwrap();
    assert_eq!(reloaded.key, bundle.key);
    assert_eq!(reloaded.large_nonce, bundle.large_nonce);
}

#[test]
fn key_file_format_is_the_documented_record() {
    let bundle = KeyBundle {
        key: vec![0; 32],
        nonce: vec![7; 24],
        large_key: vec![255; 32],
        large_nonce: vec![128; 19],
    };
    let encoded = encode_key_file(&bundle);
    let text = String::from_utf8(encoded).unwrap();
    assert!(text.starts_with("{\"key\":[0,0,"));
    assert!(text.contains(",\"nonce\":[7,7,"));
    assert!(text.contains(",\"large_key\":[255,255,"));
    assert!(text.contains(",\"large_nonce\":[128,128,"));
    assert!(text.ends_with("]}"));
}

#[test]
fn wrong_field_length_is_malformed() {
    // A key of 31 bytes instead of 32: the file parses structurally but the
    // length check refuses it, and no bundle comes into existence.
    let short = KeyBundle {
        key: vec![1; 31],
        nonce: vec![2; 24],
        large_key: vec![3; 32],
        large_nonce: vec![4; 19],
    };
    let encoded = encode_key_file(&short);
    assert_eq!(parse_key_file(&encoded).err(), Some(CipherError::MalformedKeyFile));
}

#[test]
fn wrong_nonce_length_is_malformed() {
    let long = KeyBundle {
        key: vec![1; 32],
        nonce: vec![2; 25],
        large_key: vec![3; 32],
        large_nonce: vec![4; 19],
    };
    let encoded = encode_key_file(&long);
    assert_eq!(parse_key_file(&encoded).err(), Some(CipherError::MalformedKeyFile));
}

#[test]
fn missing_field_is_malformed() {
    let data: Vec<u8> = b"{\"key\":[1,2,3]}".to_vec();
    assert_eq!(parse_key_file(&data).err(), Some(CipherError::MalformedKeyFile));
}

#[test]
fn non_numeric_field_is_malformed() {
    let data: Vec<u8> = b"{\"key\":[a,b],\"nonce\":[1],\"large_key\":[1],\"large_nonce\":[1]}"
        .to_vec();
    assert_eq!(parse_key_file(&data).err(), Some(CipherError::MalformedKeyFile));
}

#[test]
fn byte_value_out_of_range_is_malformed() {
    let bundle = KeyBundle {
        key: vec![9; 32],
        nonce: vec![9; 24],
        large_key: vec![9; 32],
        large_nonce: vec![9; 19],
    };
    let good = encode_key_file(&bundle);
    let text = String::from_utf8(good).unwrap();
    let bad = text.replacen("[9,", "[256,", 1);
    assert_eq!(parse_key_file(&bad.into_bytes()).err(), Some(CipherError::MalformedKeyFile));
}

#[test]
fn leading_zero_is_malformed() {
    let bundle = KeyBundle {
        key: vec![9; 32],
        nonce: vec![9; 24],
        large_key: vec![9; 32],
        large_nonce: vec![9; 19],
    };
    let good = encode_key_file(&bundle);
    let text = String::from_utf8(good).unwrap();
    let bad = text.replacen("[9,", "[09,", 1);
    assert_eq!(parse_key_file(&bad.into_bytes()).err(), Some(CipherError::MalformedKeyFile));
}

#[test]
fn trailing_garbage_is_malformed() {
    let bundle = KeyBundle::generate();
    let mut encoded = encode_key_file(&bundle);
    encoded.push(b' ');
    assert_eq!(parse_key_file(&encoded).err(), Some(CipherError::MalformedKeyFile));
}

#[test]
fn empty_file_is_malformed() {
    let data: Vec<u8> = Vec::new();
    assert_eq!(parse_key_file(&data).err(), Some(CipherError::MalformedKeyFile));
}

#[test]
fn from_parts_enforces_the_invariant() {
    let r = KeyBundle::from_parts(vec![0; 32], vec![0; 24], vec![0; 32], vec![0; 19]);
    assert!(r.is_ok());
    let r = KeyBundle::from_parts(vec![0; 33], vec![0; 24], vec![0; 32], vec![0; 19]);
    assert_eq!(r.err(), Some(CipherError::MalformedKeyFile));
    let r = KeyBundle::from_parts(vec![0; 32], vec![0; 24], vec![0; 32], vec![0; 18]);
    assert_eq!(r.err(), Some(CipherError::MalformedKeyFile));
}
