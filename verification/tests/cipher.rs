//! The cipher provider: schemes, spice seeds, signatures.

use xrc::err::AppError;
use xrc::job::{compute_signature, validate_signature};
use xrc::xrc::{compute_spice_seed, Xrc};

use hmac::{KeyInit, Mac};

#[test]
fn spice_seed_of_empty_path_is_one() {
    assert_eq!(compute_spice_seed(""), 1);
}

#[test]
fn spice_seed_is_product_of_character_codes() {
    // 'a' = 97, 'b' = 98
    assert_eq!(compute_spice_seed("ab"), 97 * 98);
    assert_eq!(compute_spice_seed("/tmp/a"), 47 * 116 * 109 * 112 * 47 * 97);
}

#[test]
fn spice_seed_matches_wrapping_fold() {
    let path = "/some/very/long/path/with/many/characters/0123456789";
    let mut expected: usize = 1;
    for c in path.chars() {
        let code = c as usize;
        if code > 0 {
            expected = expected.wrapping_mul(code);
        }
    }
    assert_eq!(compute_spice_seed(path), expected);
}

#[test]
fn spice_seed_is_deterministic_and_path_sensitive() {
    assert_eq!(compute_spice_seed("/a/b"), compute_spice_seed("/a/b"));
    assert_ne!(compute_spice_seed("/a/b"), compute_spice_seed("/a/c"));
}

#[test]
fn legacy_rejects_short_key() {
    let r = Xrc::legacy("short");
    assert!(matches!(r, Err(AppError::XrcError)));
}

#[test]
fn legacy_accepts_six_byte_key() {
    assert!(Xrc::legacy("secret").is_ok());
}

#[test]
fn legacy_round_trip_recovers_payload() {
    let xrc = Xrc::legacy("secret_key").unwrap();
    let plain = b"Hello World !".to_vec();
    let enc = xrc.encrypt_vec(plain.clone()).unwrap();
    assert_eq!(enc.len(), plain.len());
    assert_ne!(enc, plain);
    let dec = xrc.decrypt_vec(enc).unwrap();
    assert_eq!(dec, plain);
}

#[test]
fn legacy_transform_matches_the_cipher_crate() {
    let key = "secret_key";
    let xrc = Xrc::legacy(key).unwrap();
    let plain = b"some chunk of bytes, longer than eight".to_vec();
    let enc = xrc.encrypt_vec(plain.clone()).unwrap();
    let reference = xor_cryptor::XORCryptor::new(key).unwrap();
    #[allow(deprecated)]
    let expected = reference.encrypt_vec(plain);
    assert_eq!(enc, expected);
}

#[test]
fn keyed_round_trip_recovers_payload() {
    let xrc = Xrc::keyed("secret_key");
    let plain = b"Hello World !".to_vec();
    let enc = xrc.encrypt_vec(plain.clone()).unwrap();
    // padded to whole words plus two trailing words
    assert_eq!(enc.len(), 8 * ((plain.len() + 7) / 8) + 16);
    let dec = xrc.decrypt_vec(enc).unwrap();
    assert_eq!(dec, plain);
}

#[test]
fn keyed_round_trip_at_word_boundary() {
    let xrc = Xrc::keyed("secret_key");
    let plain = vec![7u8; 32];
    let enc = xrc.encrypt_vec(plain.clone()).unwrap();
    assert_eq!(enc.len(), 32 + 16);
    let dec = xrc.decrypt_vec(enc).unwrap();
    assert_eq!(dec, plain);
}

#[test]
fn keyed_rejects_short_key() {
    let xrc = Xrc::keyed("five!");
    let r = xrc.encrypt_vec(b"payload".to_vec());
    assert!(matches!(r, Err(AppError::XrcError)));
    let r = xrc.get_cipher("/tmp/file");
    assert!(matches!(r, Err(AppError::XrcError)));
}

#[test]
fn keyed_rejects_empty_buffer() {
    let xrc = Xrc::keyed("secret_key");
    let r = xrc.encrypt_vec(Vec::new());
    assert!(matches!(r, Err(AppError::XrcError)));
}

#[test]
fn legacy_material_ignores_the_path() {
    let xrc = Xrc::legacy("secret_key").unwrap();
    let a = xrc.get_cipher("/tmp/a").unwrap();
    let b = xrc.get_cipher("/tmp/b").unwrap();
    assert_eq!(a, b);
    assert!(!a.is_empty());
    assert_eq!(a.len() % 8, 0);
}

#[test]
fn keyed_material_depends_on_the_path() {
    let xrc = Xrc::keyed("secret_key");
    let a = xrc.get_cipher("/tmp/a").unwrap();
    let b = xrc.get_cipher("/tmp/b").unwrap();
    assert_ne!(a, b);
    assert_eq!(a, xrc.get_cipher("/tmp/a").unwrap());
}

#[test]
fn signature_matches_direct_hmac_computation() {
    let xrc = Xrc::legacy("secret_key").unwrap();
    let sig = compute_signature(&xrc, "/tmp/a").unwrap();
    assert_eq!(sig.len(), 32);

    let material = xrc.get_cipher("/tmp/a").unwrap();
    let mut mac = hmac::Hmac::<sha2::Sha256>::new_from_slice(&material).unwrap();
    mac.update("secret_key".as_bytes());
    let expected = mac.finalize().into_bytes().to_vec();
    assert_eq!(sig, expected);
}

#[test]
fn validate_signature_accepts_own_signature() {
    let xrc = Xrc::keyed("secret_key");
    let sig = compute_signature(&xrc, "/tmp/a").unwrap();
    assert!(validate_signature(&xrc, "/tmp/a", &sig).is_ok());
}

#[test]
fn validate_signature_rejects_a_clipped_header() {
    let xrc = Xrc::legacy("secret_key").unwrap();
    let mut sig = compute_signature(&xrc, "/tmp/a").unwrap();
    sig.pop();
    assert!(matches!(
        validate_signature(&xrc, "/tmp/a", &sig),
        Err(AppError::SignatureError)
    ));
}

#[test]
fn validate_signature_rejects_other_key_and_other_path() {
    let xrc = Xrc::keyed("secret_key");
    let sig = compute_signature(&xrc, "/tmp/a").unwrap();

    let other_key = Xrc::keyed("another_key");
    assert!(matches!(
        validate_signature(&other_key, "/tmp/a", &sig),
        Err(AppError::SignatureError)
    ));
    assert!(matches!(
        validate_signature(&xrc, "/tmp/b", &sig),
        Err(AppError::SignatureError)
    ));
}
