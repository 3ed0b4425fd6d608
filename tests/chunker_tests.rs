use shardian_core::chunker::{Chunker, ChunkerError, EncryptedChunk, ProcessOutput};

fn joined(a: &[u8; 32], b: &[u8; 32]) -> Vec<u8> {
    let mut v = a.to_vec();
    v.extend_from_slice(b);
    v
}

fn hex_of(bytes: &[u8]) -> String {
    bytes.iter().map(|b| format!("{:02x}", b)).collect()
}

fn crypto_message<T>(r: Result<T, ChunkerError>) -> String {
    match r {
        Err(ChunkerError::Crypto(m)) => m,
        Err(e) => panic!("unexpected error: {:?}", e),
        Ok(_) => panic!("expected a crypto error"),
    }
}

fn authentication_message<T>(r: Result<T, ChunkerError>) -> String {
    match r {
        Err(ChunkerError::Authentication(m)) => m,
        Err(e) => panic!("unexpected error: {:?}", e),
        Ok(_) => panic!("expected an authentication failure"),
    }
}

#[test]
fn test_split_file() {
    let data = b"abcdefghijklmnopqrstuvwxyz".to_vec();
    let chunker = Chunker::new(10);
    let chunks = chunker.split_bytes(&data);

    assert_eq!(chunks.len(), 3);
    assert_eq!(chunks[0], data[0..10]);
    assert_eq!(chunks[1], data[10..20]);
    assert_eq!(chunks[2], data[20..26]);
}

#[test]
fn test_hash_consistency() {
    let data = b"hello";
    let hash1 = Chunker::hash(data);
    let hash2 = Chunker::hash(data);
    let hash3 = Chunker::hash(b"world");
    assert_eq!(hash1, hash2);
    assert_ne!(hash1, hash3);
}

#[test]
fn test_merkle_root_single() {
    let chunker = Chunker::new(1024);
    let chunks = vec![b"test".to_vec()];
    let root = chunker.merkle_root(&chunks);
    let expected = Chunker::hash(&chunks[0]);
    assert_eq!(root, expected);
}

#[test]
fn test_merkle_root_two() {
    let chunker = Chunker::new(1);
    let chunks = vec![b"a".to_vec(), b"b".to_vec()];
    let root = chunker.merkle_root(&chunks);

    let h0 = Chunker::hash(&chunks[0]);
    let h1 = Chunker::hash(&chunks[1]);
    let mut combined = h0.to_vec();
    combined.extend(&h1);
    let expected = Chunker::hash(&combined);

    assert_eq!(root, expected);
}

#[test]
fn test_encrypt_decrypt_chunk() {
    let key = [0u8; 32];
    let chunker = Chunker::with_key(4, &key);
    let plaintext = b"data";
    let enc = chunker.encrypt_chunk(0, plaintext).unwrap();
    let dec = chunker.decrypt_chunk(&enc).unwrap();
    assert_eq!(dec, plaintext);
}

#[test]
fn test_process_file_raw_and_encrypted() {
    let data = b"1234567890".to_vec();

    let chunker = Chunker::new(4);
    if let ProcessOutput::Raw { chunks, hashes } = chunker.process_bytes(&data).unwrap() {
        assert_eq!(chunks.len(), 3);
        assert_eq!(hashes.len(), 3);
    } else {
        panic!("Expected raw output");
    }

    let key = [1u8; 32];
    let cipher_chunker = Chunker::with_key(4, &key);
    if let ProcessOutput::Encrypted(enc_chunks) = cipher_chunker.process_bytes(&data).unwrap() {
        assert_eq!(enc_chunks.len(), 3);
        let dec_data: Vec<u8> = enc_chunks
            .iter()
            .map(|e| cipher_chunker.decrypt_chunk(e).unwrap())
            .flatten()
            .collect();
        assert_eq!(dec_data, data);
    } else {
        panic!("Expected encrypted output");
    }
}

#[test]
fn sha256_known_digests() {
    assert_eq!(
        hex_of(&Chunker::hash(b"abc")),
        "ba7816bf8f01cfea414140de5dae2223b00361a396177a9cb410ff61f20015ad"
    );
    assert_eq!(
        hex_of(&Chunker::hash(b"")),
        "e3b0c44298fc1c149afbf4c8996fb92427ae41e4649b934ca495991b7852b855"
    );
}

#[test]
fn merkle_root_of_no_chunks_is_zero() {
    let chunker = Chunker::new(8);
    assert_eq!(chunker.merkle_root(&[]), [0u8; 32]);
}

#[test]
fn merkle_root_three_chunks_pairs_last_with_itself() {
    let chunker = Chunker::new(1);
    let chunks = vec![b"a".to_vec(), b"b".to_vec(), b"c".to_vec()];
    let (ha, hb, hc) = (
        Chunker::hash(b"a"),
        Chunker::hash(b"b"),
        Chunker::hash(b"c"),
    );
    let left = Chunker::hash(&joined(&ha, &hb));
    let right = Chunker::hash(&joined(&hc, &hc));
    let expected = Chunker::hash(&joined(&left, &right));
    assert_eq!(chunker.merkle_root(&chunks), expected);
    let promoted = Chunker::hash(&joined(&left, &hc));
    assert_ne!(chunker.merkle_root(&chunks), promoted);
}

#[test]
fn merkle_root_five_chunks() {
    let chunker = Chunker::new(1);
    let chunks: Vec<Vec<u8>> = (0u8..5).map(|b| vec![b]).collect();
    let h: Vec<[u8; 32]> = chunks.iter().map(|c| Chunker::hash(c)).collect();
    let p0 = Chunker::hash(&joined(&h[0], &h[1]));
    let p1 = Chunker::hash(&joined(&h[2], &h[3]));
    let p2 = Chunker::hash(&joined(&h[4], &h[4]));
    let q0 = Chunker::hash(&joined(&p0, &p1));
    let q1 = Chunker::hash(&joined(&p2, &p2));
    let expected = Chunker::hash(&joined(&q0, &q1));
    assert_eq!(chunker.merkle_root(&chunks), expected);
}

#[test]
fn split_exact_multiple_and_empty() {
    let chunker = Chunker::new(4);
    let chunks = chunker.split_bytes(b"abcdefgh");
    assert_eq!(chunks, vec![b"abcd".to_vec(), b"efgh".to_vec()]);
    assert!(chunker.split_bytes(b"").is_empty());
    let one = Chunker::new(100).split_bytes(b"xyz");
    assert_eq!(one, vec![b"xyz".to_vec()]);
}

#[test]
fn split_lengths_follow_ceiling() {
    let data: Vec<u8> = (0..103u32).map(|i| i as u8).collect();
    let chunks = Chunker::new(10).split_bytes(&data);
    assert_eq!(chunks.len(), 11);
    for c in &chunks[..10] {
        assert_eq!(c.len(), 10);
    }
    assert_eq!(chunks[10].len(), 3);
    assert_eq!(chunks.concat(), data);
}

#[test]
fn chunk_size_getter() {
    assert_eq!(Chunker::new(7).chunk_size(), 7);
    assert_eq!(Chunker::with_key(9, &[3u8; 32]).chunk_size(), 9);
}

#[test]
fn seal_known_vector() {
    let chunker = Chunker::with_key(16, &[0u8; 32]);
    let empty = chunker.encrypt_chunk_with_nonce(0, b"", [0u8; 12]).unwrap();
    assert_eq!(hex_of(&empty.ciphertext), "530f8afbc74536b9a963b4f1c4cb738b");
    let zeros = chunker.encrypt_chunk_with_nonce(5, &[0u8; 16], [0u8; 12]).unwrap();
    assert_eq!(zeros.index, 5);
    assert_eq!(zeros.nonce, [0u8; 12]);
    assert_eq!(
        hex_of(&zeros.ciphertext),
        "cea7403d4d606b6e074ec5d3baf39d18d0d1c8a799996bf0265b98b5d48ab919"
    );
    assert_eq!(chunker.decrypt_chunk(&zeros).unwrap(), vec![0u8; 16]);
}

#[test]
fn repeated_encryptions_differ_but_decrypt_alike() {
    let chunker = Chunker::with_key(8, &[7u8; 32]);
    let a = chunker.encrypt_chunk(3, b"same chunk").unwrap();
    let b = chunker.encrypt_chunk(3, b"same chunk").unwrap();
    assert_ne!(a.nonce, b.nonce);
    assert_ne!(a.ciphertext, b.ciphertext);
    assert_eq!(a.ciphertext.len(), b"same chunk".len() + 16);
    assert_eq!(chunker.decrypt_chunk(&a).unwrap(), b"same chunk".to_vec());
    assert_eq!(chunker.decrypt_chunk(&b).unwrap(), b"same chunk".to_vec());
}

#[test]
fn round_trip_many_times() {
    let chunker = Chunker::with_key(8, &[9u8; 32]);
    for n in 0..20usize {
        let m: Vec<u8> = (0..n).map(|i| (i * 31) as u8).collect();
        let e = chunker.encrypt_chunk(n as u64, &m).unwrap();
        assert_eq!(e.index, n as u64);
        assert_eq!(chunker.decrypt_chunk(&e).unwrap(), m);
    }
}

#[test]
fn tampering_fails_authentication() {
    let chunker = Chunker::with_key(8, &[5u8; 32]);
    let enc = chunker.encrypt_chunk(0, b"payload").unwrap();
    for bit in 0..(enc.ciphertext.len() * 8) {
        let mut ct = enc.ciphertext.clone();
        ct[bit / 8] ^= 1 << (bit % 8);
        let bad = EncryptedChunk { index: enc.index, nonce: enc.nonce, ciphertext: ct };
        assert_eq!(authentication_message(chunker.decrypt_chunk(&bad)), "aead::Error");
    }
    for bit in 0..96 {
        let mut nonce = enc.nonce;
        nonce[bit / 8] ^= 1 << (bit % 8);
        let bad = EncryptedChunk { index: enc.index, nonce, ciphertext: enc.ciphertext.clone() };
        assert_eq!(authentication_message(chunker.decrypt_chunk(&bad)), "aead::Error");
    }
    let other = Chunker::with_key(8, &[6u8; 32]);
    assert_eq!(authentication_message(other.decrypt_chunk(&enc)), "aead::Error");
    let short = EncryptedChunk { index: 0, nonce: enc.nonce, ciphertext: vec![1, 2, 3] };
    assert_eq!(authentication_message(chunker.decrypt_chunk(&short)), "aead::Error");
    let empty = EncryptedChunk { index: 0, nonce: enc.nonce, ciphertext: vec![] };
    assert_eq!(authentication_message(chunker.decrypt_chunk(&empty)), "aead::Error");
}

#[test]
fn no_key_is_a_configuration_error() {
    let chunker = Chunker::new(4);
    assert_eq!(crypto_message(chunker.encrypt_chunk(0, b"data")), "No cipher configured");
    assert_eq!(
        crypto_message(chunker.encrypt_chunk_with_nonce(0, b"data", [0u8; 12])),
        "No cipher configured"
    );
    let keyed = Chunker::with_key(4, &[2u8; 32]);
    let enc = keyed.encrypt_chunk(0, b"data").unwrap();
    assert_eq!(crypto_message(chunker.decrypt_chunk(&enc)), "No cipher configured");
}

#[test]
fn process_raw_gives_chunks_and_digests() {
    let data = b"1234567890".to_vec();
    match Chunker::new(4).process_bytes(&data).unwrap() {
        ProcessOutput::Raw { chunks, hashes } => {
            assert_eq!(chunks, vec![b"1234".to_vec(), b"5678".to_vec(), b"90".to_vec()]);
            for (c, h) in chunks.iter().zip(hashes.iter()) {
                assert_eq!(*h, Chunker::hash(c));
            }
        }
        ProcessOutput::Encrypted(_) => panic!("expected raw output"),
    }
}

#[test]
fn process_encrypted_indexes_in_order() {
    let chunker = Chunker::with_key(4, &[8u8; 32]);
    match chunker.process_bytes(b"1234567890").unwrap() {
        ProcessOutput::Encrypted(v) => {
            let idx: Vec<u64> = v.iter().map(|e| e.index).collect();
            assert_eq!(idx, vec![0, 1, 2]);
            assert_eq!(chunker.decrypt_chunk(&v[2]).unwrap(), b"90".to_vec());
        }
        ProcessOutput::Raw { .. } => panic!("expected encrypted output"),
    }
    match chunker.process_bytes(b"").unwrap() {
        ProcessOutput::Encrypted(v) => assert!(v.is_empty()),
        ProcessOutput::Raw { .. } => panic!("expected encrypted output"),
    }
}

#[test]
fn zero_chunk_size_gives_no_chunks() {
    let chunker = Chunker::new(0);
    assert!(chunker.split_bytes(b"abc").is_empty());
    match chunker.process_bytes(b"abc").unwrap() {
        ProcessOutput::Raw { chunks, hashes } => {
            assert!(chunks.is_empty());
            assert!(hashes.is_empty());
        }
        ProcessOutput::Encrypted(_) => panic!("expected raw output"),
    }
    match Chunker::with_key(0, &[1u8; 32]).process_bytes(b"abc").unwrap() {
        ProcessOutput::Encrypted(v) => assert!(v.is_empty()),
        ProcessOutput::Raw { .. } => panic!("expected encrypted output"),
    }
}

#[test]
fn decrypted_chunk_is_one_tag_shorter() {
    let chunker = Chunker::with_key(64, &[11u8; 32]);
    let m: Vec<u8> = (0..50u8).collect();
    let e = chunker.encrypt_chunk_with_nonce(2, &m, [4u8; 12]).unwrap();
    let again = chunker.encrypt_chunk_with_nonce(2, &m, [4u8; 12]).unwrap();
    assert_eq!(e.ciphertext, again.ciphertext);
    let p = chunker.decrypt_chunk(&e).unwrap();
    assert_eq!(p.len() + 16, e.ciphertext.len());
    assert_eq!(p, m);
}
