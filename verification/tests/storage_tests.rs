use file_protocol::{ChunkStore, Protocol, ProtocolError, Role};

fn hash_of(data: &[u8]) -> String {
    let digest = file_protocol::content_digest(data);
    file_protocol::hex_str(digest.as_slice())
}

#[test]
fn validate_reports_gap_ranges() {
    let mut store = ChunkStore::new();
    let h = "cafe";
    for i in [0u32, 1, 2, 5, 6, 9] {
        store.store_chunk(h, i, &[i as u8; 8]);
    }
    let (complete, missing) = store.validate_file(h, Some(10));
    assert!(!complete);
    assert_eq!(missing, vec![(3, 4), (7, 8)]);
}

#[test]
fn validate_reports_complete() {
    let mut store = ChunkStore::new();
    let h = "cafe";
    for i in 0u32..10 {
        store.store_chunk(h, i, &[i as u8; 8]);
    }
    let (complete, missing) = store.validate_file(h, Some(10));
    assert!(complete);
    assert!(missing.is_empty());
}

#[test]
fn validate_uses_stored_meta() {
    let mut store = ChunkStore::new();
    let h = "beef";
    store.store_meta(h, 2);
    store.store_chunk(h, 0, b"x");
    let (complete, missing) = store.validate_file(h, None);
    assert!(!complete);
    assert_eq!(missing, vec![(1, 1)]);
    store.store_chunk(h, 1, b"y");
    let (complete, missing) = store.validate_file(h, None);
    assert!(complete);
    assert!(missing.is_empty());
}

#[test]
fn validate_without_meta_is_incomplete() {
    let store = ChunkStore::new();
    let (complete, missing) = store.validate_file("none", None);
    assert!(!complete);
    assert!(missing.is_empty());
}

#[test]
fn store_chunk_same_bytes_twice_is_noop() {
    let mut p = Protocol::new(String::from("127.0.0.1"), 7000, Role::Client);
    let data: Vec<u8> = (0..5000u32).map(|i| (i % 251) as u8).collect();
    let (h, n, _) = p.local_import(&data).unwrap();
    assert_eq!(n, 2);
    // storing chunk 1 again with identical bytes changes nothing
    p.store.store_chunk(&h, 1, &data[4096..]);
    let rebuilt = p.finalize_file(&h).unwrap();
    assert_eq!(rebuilt, data);
}

#[test]
fn store_chunk_different_bytes_replaces() {
    let mut store = ChunkStore::new();
    let h = "feed";
    store.store_chunk(h, 3, b"first");
    store.store_chunk(h, 3, b"second");
    assert_eq!(store.load_chunk(h, 3).unwrap(), b"second".to_vec());
    // and the replacement is last-write-wins again
    store.store_chunk(h, 3, b"third");
    assert_eq!(store.load_chunk(h, 3).unwrap(), b"third".to_vec());
}

#[test]
fn load_chunk_missing_is_not_found() {
    let store = ChunkStore::new();
    assert_eq!(store.load_chunk("nothing", 0), Err(ProtocolError::NotFound));
}

#[test]
fn load_meta_missing_is_none() {
    let store = ChunkStore::new();
    assert_eq!(store.load_meta("nothing"), None);
}

#[test]
fn meta_is_replaced_whole() {
    let mut store = ChunkStore::new();
    let h = "abcd";
    store.store_meta(h, 7);
    assert_eq!(store.load_meta(h), Some(7));
    store.store_meta(h, 9);
    // a reader sees exactly the new count, never a blend of old and new
    assert_eq!(store.load_meta(h), Some(9));
}

#[test]
fn import_then_finalize_reconstructs() {
    for len in [0usize, 1, 17, 4095, 4096, 4097, 10000] {
        let data: Vec<u8> = (0..len).map(|i| (i * 31 % 256) as u8).collect();
        let mut p = Protocol::new(String::from("127.0.0.1"), 7000, Role::Client);
        let (h, n, mode) = p.local_import(&data).unwrap();
        assert_eq!(mode, 0);
        assert_eq!(n as usize, (len + 4095) / 4096);
        let rebuilt = p.finalize_file(&h).unwrap();
        assert_eq!(rebuilt, data);
        // the digest recomputed at finalize matched the one taken at import,
        // since finalize succeeded under the same hash
        assert_eq!(hash_of(&rebuilt), h);
    }
}

#[test]
fn finalize_without_meta_is_integrity_error() {
    let p = Protocol::new(String::from("127.0.0.1"), 7000, Role::Client);
    assert_eq!(p.finalize_file("cafe"), Err(ProtocolError::Integrity));
}

#[test]
fn finalize_with_missing_chunk_is_integrity_error() {
    let mut store = ChunkStore::new();
    let h = "cafe";
    store.store_meta(h, 2);
    store.store_chunk(h, 0, b"only half");
    assert_eq!(store.finalize_file(h), Err(ProtocolError::Integrity));
}

#[test]
fn finalize_with_wrong_hash_is_integrity_error() {
    let mut store = ChunkStore::new();
    // complete under a name that is not the digest of the content
    let h = "0000";
    store.store_meta(h, 1);
    store.store_chunk(h, 0, b"payload");
    assert_eq!(store.finalize_file(h), Err(ProtocolError::Integrity));
}

#[test]
fn digest_is_a_function_of_content() {
    let a: Vec<u8> = (0..100u8).collect();
    let h1 = hash_of(&a);
    let h2 = hash_of(&a);
    assert_eq!(h1, h2);
    // 16 digest bytes, two hex characters each
    assert_eq!(h1.len(), 32);
    let b: Vec<u8> = (1..101u8).collect();
    assert_ne!(hash_of(&b), h1);
}

#[test]
fn hex_rendering_is_exact() {
    assert_eq!(file_protocol::hex_str(&[]), "");
    assert_eq!(file_protocol::hex_str(&[0x00, 0xff, 0x1a]), "00ff1a");
    assert_eq!(file_protocol::hex_str(&[0xde, 0xad, 0xbe, 0xef]), "deadbeef");
}
