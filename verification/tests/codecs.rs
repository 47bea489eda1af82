//! The byte codecs and small helpers on concrete values.
use dedup_store::bytes::{bytes_eq, push_u64_le, read_u64_le};
use dedup_store::codec::{Compression, Encryption};
use dedup_store::errors::RepoError;
use dedup_store::header::{decode_header, encode_header, Chunk, Header, HeaderEntry};
use dedup_store::kv::{scoped_key, strip_scope, value_key_bytes, KeyId, ValueKey};
use dedup_store::metadata::{
    decode_metadata, encode_metadata, RepositoryConfig, RepositoryMetadata, RepositoryStats,
    ResourceLimit,
};
use dedup_store::object::ChunkLocation;

#[test]
fn u64_framing_round_trips() {
    let mut v = Vec::new();
    push_u64_le(&mut v, 0x1122_3344_5566_7788);
    push_u64_le(&mut v, 0);
    push_u64_le(&mut v, u64::MAX);
    assert_eq!(v.len(), 24);
    assert_eq!(read_u64_le(&v, 0), 0x1122_3344_5566_7788);
    assert_eq!(read_u64_le(&v, 8), 0);
    assert_eq!(read_u64_le(&v, 16), u64::MAX);
    assert!(bytes_eq(&v, &v.clone()));
}

#[test]
fn metadata_codec_round_trips() {
    let m = RepositoryMetadata {
        id: vec![9u8; 16],
        config: RepositoryConfig {
            chunker_bits: 12,
            compression: Compression::Deflate { level: 3 },
            encryption: Encryption::XChaCha20Poly1305,
            memory_limit: ResourceLimit::Moderate,
            operations_limit: ResourceLimit::Sensitive,
        },
        master_key: vec![1, 2, 3, 4],
        salt: vec![5u8; 16],
        header_ptr: vec![2, 7, 7],
        creation_time: 123456789,
    };
    let bytes = encode_metadata(&m);
    let back = decode_metadata(&bytes).expect("decode");
    assert_eq!(back.id, m.id);
    assert_eq!(back.config, m.config);
    assert_eq!(back.master_key, m.master_key);
    assert_eq!(back.salt, m.salt);
    assert_eq!(back.header_ptr, m.header_ptr);
    assert_eq!(back.creation_time, m.creation_time);
}

#[test]
fn metadata_codec_rejects_unknown_version_and_garbage() {
    let m = RepositoryMetadata {
        id: vec![0u8; 16],
        config: RepositoryConfig::default(),
        master_key: vec![],
        salt: vec![0u8; 16],
        header_ptr: vec![],
        creation_time: 0,
    };
    let mut bytes = encode_metadata(&m);
    bytes[0] = 99;
    match decode_metadata(&bytes) {
        Err(e) => assert_eq!(e, RepoError::UnsupportedFormat),
        Ok(_) => panic!("expected UnsupportedFormat"),
    }
    match decode_metadata(&vec![1, 2, 3]) {
        Err(e) => assert_eq!(e, RepoError::Corruption),
        Ok(_) => panic!("expected Corruption"),
    }
}

#[test]
fn header_codec_round_trips() {
    let h = Header {
        entries: vec![
            HeaderEntry {
                key: b"alpha".to_vec(),
                chunks: vec![
                    Chunk { digest: vec![1u8; 32], size: 4096 },
                    Chunk { digest: vec![2u8; 32], size: 100 },
                ],
                size: 4196,
            },
            HeaderEntry { key: b"beta".to_vec(), chunks: vec![], size: 0 },
        ],
    };
    let bytes = encode_header(&h);
    let back = decode_header(&bytes).expect("decode");
    assert_eq!(back.entries.len(), 2);
    assert_eq!(back.entries[0].key, b"alpha".to_vec());
    assert_eq!(back.entries[0].size, 4196);
    assert_eq!(back.entries[0].chunks.len(), 2);
    assert_eq!(back.entries[0].chunks[0].digest, vec![1u8; 32]);
    assert_eq!(back.entries[0].chunks[0].size, 4096);
    assert_eq!(back.entries[0].chunks[1].size, 100);
    assert_eq!(back.entries[1].key, b"beta".to_vec());
    assert_eq!(back.entries[1].chunks.len(), 0);
    match decode_header(&vec![7]) {
        Err(e) => assert_eq!(e, RepoError::Corruption),
        Ok(_) => panic!("expected Corruption"),
    }
}

#[test]
fn scoped_keys_round_trip() {
    let scope = b"bucket".to_vec();
    let key = b"file.txt".to_vec();
    let full = scoped_key(&scope, &key);
    assert_eq!(full, b"/bucket/file.txt".to_vec());
    assert_eq!(strip_scope(&scope, &full), Some(key.clone()));
    assert_eq!(strip_scope(&b"other".to_vec(), &full), None);

    let root = Vec::new();
    let full2 = scoped_key(&root, &key);
    assert_eq!(full2, b"/file.txt".to_vec());
    assert_eq!(strip_scope(&root, &full2), Some(key));
}

#[test]
fn value_keys_have_distinct_spellings() {
    let a = value_key_bytes(&ValueKey::Data(KeyId(1)));
    let b = value_key_bytes(&ValueKey::Data(KeyId(2)));
    let t = value_key_bytes(&ValueKey::KeyTable);
    let v = value_key_bytes(&ValueKey::RepositoryVersion);
    assert_ne!(a, b);
    assert_ne!(a, t);
    assert_ne!(t, v);
    assert_eq!(a.len(), 9);
    assert_eq!(t, vec![1u8]);
}

#[test]
fn stats_and_location_getters() {
    let st = RepositoryStats { apparent_size: 10, actual_size: 7 };
    assert_eq!(st.apparent_size(), 10);
    assert_eq!(st.actual_size(), 7);
    let loc = ChunkLocation {
        chunk: Chunk { digest: vec![0u8; 32], size: 100 },
        start: 200,
        end: 300,
        position: 250,
        index: 2,
    };
    assert_eq!(loc.relative_position(), 50);
}

#[test]
fn errors_describe_themselves() {
    assert_eq!(RepoError::NotFound.describe(), "not found");
    assert!(RepoError::AlreadyLocked.describe().contains("locked"));
    assert!(RepoError::AuthenticationFailure.describe().contains("uthentication"));
}
