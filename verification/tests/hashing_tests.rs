use metadata_generator::hashing::{hash_bytes, hash_bytes_with_chunk_size, StreamingHasher};

fn is_lower_hex(s: &str) -> bool {
    s.chars().all(|c| c.is_ascii_digit() || ('a'..='f').contains(&c))
}

#[test]
fn hash_same_bytes_twice_is_identical() {
    let data = b"the quick brown fox jumps over the lazy dog".to_vec();
    let a = hash_bytes(&data);
    let b = hash_bytes(&data);
    assert_eq!(a, b);
}

#[test]
fn hash_is_independent_of_chunk_size() {
    let data: Vec<u8> = (0u32..100_000).map(|i| (i % 251) as u8).collect();
    let a = hash_bytes_with_chunk_size(&data, 1);
    let b = hash_bytes_with_chunk_size(&data, 8192);
    let c = hash_bytes_with_chunk_size(&data, 100_000);
    let d = hash_bytes_with_chunk_size(&data, 7);
    assert_eq!(a, b);
    assert_eq!(b, c);
    assert_eq!(c, d);
}

#[test]
fn hash_matches_blake3_reference() {
    let data = b"abcd".to_vec();
    let expected = blake3::hash(&data).to_hex().to_string();
    assert_eq!(hash_bytes(&data), expected);
}

#[test]
fn hash_of_empty_input_matches_reference() {
    let data: Vec<u8> = Vec::new();
    let expected = blake3::hash(&data).to_hex().to_string();
    assert_eq!(hash_bytes(&data), expected);
}

#[test]
fn hash_is_lowercase_hex_of_length_64() {
    let h = hash_bytes(&b"anything".to_vec());
    assert_eq!(h.len(), 64);
    assert!(is_lower_hex(&h));
}

#[test]
fn streaming_hasher_agrees_with_one_shot() {
    let data = b"streaming and one-shot hashing must agree".to_vec();
    let mut h = StreamingHasher::start(data.len() as u64);
    h.feed(&data[..10]);
    h.feed(&data[10..17]);
    h.feed(&data[17..]);
    assert_eq!(h.finish(), hash_bytes(&data));
}

#[test]
fn streaming_hasher_reports_progress_in_bytes() {
    let data = vec![7u8; 100];
    let mut h = StreamingHasher::start(100);
    assert_eq!(h.progress(), (0, 100));
    h.feed(&data[..40]);
    assert_eq!(h.progress(), (40, 100));
    h.feed(&data[40..]);
    assert_eq!(h.progress(), (100, 100));
}

#[test]
fn streaming_hasher_finish_is_idempotent() {
    let data = b"finish twice".to_vec();
    let mut h = StreamingHasher::start(data.len() as u64);
    h.feed(&data);
    let first = h.finish();
    let second = h.finish();
    assert_eq!(first, second);
}

#[test]
fn streaming_hasher_digest_depends_on_bytes_not_chunking() {
    let data = b"chunking is a progress-reporting detail".to_vec();
    let mut a = StreamingHasher::start(data.len() as u64);
    for b in data.iter() {
        a.feed(std::slice::from_ref(b));
    }
    let mut c = StreamingHasher::start(data.len() as u64);
    c.feed(&data);
    assert_eq!(a.finish(), c.finish());
}
