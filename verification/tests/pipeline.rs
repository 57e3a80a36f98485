//! The per-file pipeline: layout, naming, round trips, rejection, disposal.

use xrc::err::AppError;
use xrc::file_handler::{FileHandler, CHUNK_SIZE, HASH_LEN};
use xrc::job::{compute_dest_path, decrypt_bytes, encrypt_bytes, validate_signature, Job};
use xrc::xrc::Xrc;

const MIB: u64 = 1024 * 1024;

#[test]
fn layout_of_a_200_mib_file() {
    let fh = FileHandler::new(200 * MIB, true).unwrap();
    assert_eq!(fh.total_chunks, 4);
    assert_eq!(fh.last_chunk_len, 8 * MIB);
    assert_eq!(fh.chunk_size, CHUNK_SIZE);
    // three full chunks, then the 8 MiB remainder
    assert_eq!(fh.chunk_len(0), CHUNK_SIZE);
    assert_eq!(fh.chunk_len(2), CHUNK_SIZE);
    assert_eq!(fh.chunk_len(3), 8 * MIB);
}

#[test]
fn layout_of_an_even_multiple() {
    let fh = FileHandler::new(128 * MIB, true).unwrap();
    assert_eq!(fh.total_chunks, 2);
    assert_eq!(fh.last_chunk_len, CHUNK_SIZE);
}

#[test]
fn layout_for_decrypt_excludes_the_header() {
    let fh = FileHandler::new(HASH_LEN + 10, false).unwrap();
    assert_eq!(fh.length, 10);
    assert_eq!(fh.total_chunks, 1);
    assert_eq!(fh.last_chunk_len, 10);
}

#[test]
fn layout_rejects_a_headerless_decrypt_source() {
    let r = FileHandler::new(10, false);
    assert!(matches!(r, Err(AppError::IoError)));
}

#[test]
fn dest_path_appends_and_strips_the_suffix() {
    assert_eq!(compute_dest_path("/tmp/a.txt", true), "/tmp/a.txt.xrc");
    assert_eq!(compute_dest_path("/tmp/a", true), "/tmp/a.xrc");
    assert_eq!(compute_dest_path("/tmp/a.txt.xrc", false), "/tmp/a.txt");
    assert_eq!(compute_dest_path("/tmp/a.xrc", false), "/tmp/a");
}

#[test]
fn dest_path_is_a_fixed_point_on_skipped_files() {
    // encrypting a file already carrying the suffix
    assert_eq!(compute_dest_path("/tmp/a.xrc", true), "/tmp/a.xrc");
    // decrypting a file without the suffix
    assert_eq!(compute_dest_path("/tmp/a.txt", false), "/tmp/a.txt");
}

fn round_trip(xrc: &Xrc, content: Vec<u8>, chunk: usize) {
    let enc = encrypt_bytes(xrc, "/tmp/file.bin", content.clone(), chunk).unwrap();
    if xrc.is_legacy() {
        assert_eq!(enc.len(), 32 + content.len());
    }
    let dec = decrypt_bytes(xrc, "/tmp/file.bin", enc, chunk).unwrap();
    assert_eq!(dec, content);
}

#[test]
fn legacy_round_trip_below_one_chunk() {
    let xrc = Xrc::legacy("secret_key").unwrap();
    round_trip(&xrc, (0u8..=255).collect(), 64);
}

#[test]
fn legacy_round_trip_at_exactly_one_chunk() {
    let xrc = Xrc::legacy("secret_key").unwrap();
    round_trip(&xrc, vec![42u8; 64], 64);
}

#[test]
fn legacy_round_trip_one_past_a_chunk() {
    let xrc = Xrc::legacy("secret_key").unwrap();
    round_trip(&xrc, vec![42u8; 65], 64);
}

#[test]
fn legacy_round_trip_at_two_chunks() {
    let xrc = Xrc::legacy("secret_key").unwrap();
    round_trip(&xrc, vec![42u8; 128], 64);
}

#[test]
fn legacy_round_trip_many_chunks() {
    let xrc = Xrc::legacy("secret_key").unwrap();
    let content: Vec<u8> = (0..1000u32).map(|i| (i % 251) as u8).collect();
    round_trip(&xrc, content, 64);
}

#[test]
fn keyed_round_trip_single_chunk() {
    let xrc = Xrc::keyed("secret_key");
    round_trip(&xrc, (0u8..=200).collect(), 4096);
}

#[test]
fn wrong_key_is_rejected_with_a_signature_mismatch() {
    let xrc = Xrc::legacy("secret_key").unwrap();
    let enc = encrypt_bytes(&xrc, "/tmp/f", b"payload bytes".to_vec(), 64).unwrap();
    let other = Xrc::legacy("other_key!").unwrap();
    let r = decrypt_bytes(&other, "/tmp/f", enc, 64);
    assert!(matches!(r, Err(AppError::SignatureError)));
}

#[test]
fn keyed_scheme_signs_per_path() {
    let xrc = Xrc::keyed("secret_key");
    let enc = encrypt_bytes(&xrc, "/tmp/f", b"payload bytes".to_vec(), 4096).unwrap();
    // same key, decrypted under another path: the spice seed differs
    let r = decrypt_bytes(&xrc, "/tmp/other", enc, 4096);
    assert!(matches!(r, Err(AppError::SignatureError)));
}

#[test]
fn truncated_files_fail_as_io_errors() {
    let xrc = Xrc::legacy("secret_key").unwrap();
    assert!(matches!(
        decrypt_bytes(&xrc, "/tmp/f", vec![0u8; 31], 64),
        Err(AppError::IoError)
    ));
    // a header alone carries no chunk
    let enc = encrypt_bytes(&xrc, "/tmp/f", b"x".to_vec(), 64).unwrap();
    let header_only = enc[..32].to_vec();
    assert!(matches!(
        decrypt_bytes(&xrc, "/tmp/f", header_only, 64),
        Err(AppError::IoError)
    ));
}

#[test]
fn keyed_region_with_a_clipped_tail_is_a_cipher_error() {
    let xrc = Xrc::keyed("secret_key");
    // 9 bytes encrypt to a 32-byte region; with 24-byte chunks the final
    // piece would hold 8 bytes, too short for the scheme's trailing words.
    let enc = encrypt_bytes(&xrc, "/tmp/f", vec![5u8; 9], 24).unwrap();
    assert_eq!(enc.len(), 32 + 32);
    let r = decrypt_bytes(&xrc, "/tmp/f", enc, 24);
    assert!(matches!(r, Err(AppError::XrcError)));
}

#[test]
fn a_corrupted_header_is_rejected() {
    let xrc = Xrc::legacy("secret_key").unwrap();
    let mut enc = encrypt_bytes(&xrc, "/tmp/f", b"payload bytes".to_vec(), 64).unwrap();
    enc[0] = enc[0].wrapping_add(1);
    let r = decrypt_bytes(&xrc, "/tmp/f", enc, 64);
    assert!(matches!(r, Err(AppError::SignatureError)));
}

#[test]
fn short_key_fails_encryption_under_the_keyed_scheme() {
    let xrc = Xrc::keyed("five!");
    let r = encrypt_bytes(&xrc, "/tmp/f", b"payload".to_vec(), 64);
    assert!(matches!(r, Err(AppError::XrcError)));
}

fn job(xrc: Xrc, preserve: bool, to_encrypt: bool) -> Job {
    Job::new(Vec::new(), xrc, preserve, to_encrypt, 4)
}

#[test]
fn processing_deletes_the_source_only_without_preserve() {
    let xrc = Xrc::legacy("secret_key").unwrap();
    let p = job(xrc.clone(), false, true)
        .process_file_bytes("/tmp/a.txt", b"data".to_vec())
        .unwrap();
    assert!(p.delete_source);
    assert_eq!(p.dest_path, "/tmp/a.txt.xrc");
    assert_eq!(p.output.as_ref().unwrap().len(), 32 + 4);

    let p = job(xrc, true, true)
        .process_file_bytes("/tmp/a.txt", b"data".to_vec())
        .unwrap();
    assert!(!p.delete_source);
}

#[test]
fn processing_skips_an_already_encrypted_file() {
    let xrc = Xrc::legacy("secret_key").unwrap();
    let p = job(xrc, false, true)
        .process_file_bytes("/tmp/a.xrc", b"data".to_vec())
        .unwrap();
    assert!(p.output.is_none());
    assert!(!p.delete_source);
    assert_eq!(p.dest_path, "/tmp/a.xrc");
}

#[test]
fn processing_skips_a_file_without_the_suffix_on_decrypt() {
    let xrc = Xrc::legacy("secret_key").unwrap();
    let p = job(xrc, false, false)
        .process_file_bytes("/tmp/a.txt", b"data".to_vec())
        .unwrap();
    assert!(p.output.is_none());
    assert!(!p.delete_source);
}

#[test]
fn processing_disposes_of_an_empty_source_without_work() {
    let xrc = Xrc::legacy("secret_key").unwrap();
    let p = job(xrc.clone(), false, true)
        .process_file_bytes("/tmp/a.txt", Vec::new())
        .unwrap();
    assert!(p.output.is_none());
    assert!(p.delete_source);

    let p = job(xrc, true, true)
        .process_file_bytes("/tmp/a.txt", Vec::new())
        .unwrap();
    assert!(p.output.is_none());
    assert!(!p.delete_source);
}

#[test]
fn processing_round_trips_through_both_directions() {
    let xrc = Xrc::legacy("secret_key").unwrap();
    let content = b"the quick brown fox jumps over the lazy dog".to_vec();
    let enc = job(xrc.clone(), true, true)
        .process_file_bytes("/tmp/a.txt", content.clone())
        .unwrap();
    let dec = job(xrc, true, false)
        .process_file_bytes("/tmp/a.txt.xrc", enc.output.unwrap())
        .unwrap();
    assert_eq!(dec.dest_path, "/tmp/a.txt");
    assert_eq!(dec.output.unwrap(), content);
}

#[test]
fn batch_size_is_half_the_lanes_but_at_least_one() {
    let xrc = Xrc::legacy("secret_key").unwrap();
    assert_eq!(Job::new(Vec::new(), xrc.clone(), false, true, 8).batch_size(), 4);
    assert_eq!(Job::new(Vec::new(), xrc.clone(), false, true, 1).batch_size(), 1);
    assert_eq!(Job::new(Vec::new(), xrc, false, true, 0).batch_size(), 1);
}

#[test]
fn scenario_200_mib_legacy_encryption() {
    let xrc = Xrc::legacy("secret_key").unwrap();
    let n = (200 * MIB) as usize;
    let mut content = vec![0u8; n];
    for (i, b) in content.iter_mut().enumerate() {
        *b = (i % 251) as u8;
    }
    let enc = encrypt_bytes(&xrc, "/tmp/big.bin", content, CHUNK_SIZE as usize).unwrap();
    assert_eq!(enc.len() as u64, 32 + 200 * MIB);
    let header = enc[..32].to_vec();
    assert!(validate_signature(&xrc, "/tmp/big.bin", &header).is_ok());
}
