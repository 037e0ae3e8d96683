use sha2::Digest;

use ricesearch::upload::UploadError;
use ricesearch::upload::fingerprint_bytes;
use ricesearch::upload::hash_prefix;
use ricesearch::upload::health_outcome;
use ricesearch::upload::health_url;
use ricesearch::upload::ingest_url;
use ricesearch::upload::make_record;
use ricesearch::upload::search_url;
use ricesearch::upload::upload_outcome;

#[test]
fn fingerprint_matches_known_digests() {
    assert_eq!(
        fingerprint_bytes(b""),
        "e3b0c44298fc1c149afbf4c8996fb92427ae41e4649b934ca495991b7852b855"
    );
    assert_eq!(
        fingerprint_bytes(b"abc"),
        "ba7816bf8f01cfea414140de5dae2223b00361a396177a9cb410ff61f20015ad"
    );
}

#[test]
fn fingerprint_streams_large_content_in_blocks() {
    // More than one 8192-byte block; hashing block by block must agree
    // with hashing the same bytes in one piece.
    let content = vec![0x61u8; 20000];
    let digest = fingerprint_bytes(&content);
    assert_eq!(digest.len(), 64);
    let mut one_shot = sha2::Sha256::new();
    one_shot.update(&content);
    assert_eq!(digest, hex::encode(one_shot.finalize()));
}

#[test]
fn record_carries_root_relative_path_and_fingerprint() {
    let rec = make_record("\\\\?\\C:\\w", "\\\\?\\C:\\w\\src\\lib.rs", b"abc", "org-1");
    assert_eq!(rec.abs_path, "\\\\?\\C:\\w\\src\\lib.rs");
    assert_eq!(rec.upload_path, "src/lib.rs");
    assert_eq!(rec.file_name, "lib.rs");
    assert_eq!(
        rec.fingerprint,
        "ba7816bf8f01cfea414140de5dae2223b00361a396177a9cb410ff61f20015ad"
    );
    assert_eq!(rec.org_id, "org-1");
    assert!(!rec.upload_path.contains('\\'));
}

#[test]
fn record_path_is_relative_for_either_separator_style() {
    let rec = make_record("/home/u/proj/", "/home/u/proj/a/b.txt", b"x", "org-1");
    assert_eq!(rec.upload_path, "a/b.txt");
    assert_eq!(rec.file_name, "b.txt");
    let rec = make_record("C:\\w\\proj", "C:\\w\\proj\\a\\b.txt", b"x", "org-1");
    assert_eq!(rec.upload_path, "a/b.txt");
    // A path outside the root keeps its normalized form.
    let rec = make_record("/home/u/proj", "/tmp/other.txt", b"x", "org-1");
    assert_eq!(rec.upload_path, "/tmp/other.txt");
}

#[test]
fn hash_prefix_takes_eight_characters() {
    let digest = fingerprint_bytes(b"abc");
    assert_eq!(hash_prefix(&digest), "ba7816bf");
}

#[test]
fn endpoint_urls_are_exact() {
    assert_eq!(health_url("http://localhost:8000"), "http://localhost:8000/healthz");
    assert_eq!(
        ingest_url("http://localhost:8000"),
        "http://localhost:8000/api/v1/ingest/file"
    );
    assert_eq!(
        search_url("http://localhost:8000"),
        "http://localhost:8000/api/v1/search/query"
    );
}

#[test]
fn only_2xx_statuses_are_healthy() {
    assert!(health_outcome(200));
    assert!(health_outcome(204));
    assert!(!health_outcome(199));
    assert!(!health_outcome(302));
    assert!(!health_outcome(503));
}

#[test]
fn only_2xx_statuses_are_success() {
    assert!(upload_outcome(200).is_ok());
    assert!(upload_outcome(201).is_ok());
    assert!(upload_outcome(299).is_ok());
    assert_eq!(upload_outcome(199), Err(UploadError::Network));
    assert_eq!(upload_outcome(404), Err(UploadError::Network));
    assert_eq!(upload_outcome(500), Err(UploadError::Network));
}
