//! Chunker, codec, key-manager and lock behaviour on concrete data.
use dedup_store::chunker::Chunker;
use dedup_store::codec::{decode_chunk, encode_chunk, Compression, Encryption};
use dedup_store::errors::RepoError;
use dedup_store::keys::{derive_kek, unwrap_master, wrap_master};
use dedup_store::lock::{LockStrategy, LockTable};
use dedup_store::metadata::ResourceLimit;

fn pseudo_bytes(n: usize, mut seed: u64) -> Vec<u8> {
    let mut out = Vec::with_capacity(n);
    for _ in 0..n {
        seed = seed.wrapping_mul(6364136223846793005).wrapping_add(1442695040888963407);
        out.push((seed >> 33) as u8);
    }
    out
}

#[test]
fn chunking_is_deterministic_across_feeds() {
    let data = pseudo_bytes(5000, 7);
    let mut one = Chunker::new(10);
    one.update(&data);
    let a = one.finish();

    let mut parts = Chunker::new(10);
    let mut i = 0;
    let mut step = 1;
    while i < data.len() {
        let end = (i + step).min(data.len());
        parts.update(&data[i..end]);
        i = end;
        step = step % 97 + 1;
    }
    let b = parts.finish();

    assert_eq!(a, b);
    assert!(a.len() > 1, "expected several chunks");
    let total: usize = a.iter().map(|c| c.len()).sum();
    assert_eq!(total, data.len());
}

#[test]
fn chunking_keeps_chunks_before_an_edit() {
    let original = pseudo_bytes(6000, 9);
    let mut edited = original.clone();
    let insert_at = 4200;
    for (i, b) in pseudo_bytes(37, 11).into_iter().enumerate() {
        edited.insert(insert_at + i, b);
    }
    let mut c1 = Chunker::new(8);
    c1.update(&original);
    let a = c1.finish();
    let mut c2 = Chunker::new(8);
    c2.update(&edited);
    let b = c2.finish();
    // every chunk that closed strictly before the edit is unchanged
    let mut covered = 0;
    let mut i = 0;
    while i < a.len() && covered + a[i].len() <= insert_at {
        assert_eq!(a[i], b[i]);
        covered += a[i].len();
        i += 1;
    }
    assert!(i > 0, "expected at least one closed chunk before the edit");
}

#[test]
fn codec_round_trips_every_configuration() {
    let key = pseudo_bytes(32, 3);
    let data = pseudo_bytes(3000, 5);
    let configs = [
        (Compression::Off, Encryption::Off),
        (Compression::Deflate { level: 6 }, Encryption::Off),
        (Compression::Off, Encryption::XChaCha20Poly1305),
        (Compression::Deflate { level: 9 }, Encryption::XChaCha20Poly1305),
    ];
    for (c, e) in configs {
        let block = encode_chunk(c, e, &key, &data).expect("encode");
        let back = decode_chunk(c, e, &key, &block).expect("decode");
        assert_eq!(back, data);
    }
}

#[test]
fn decode_rejects_wrong_key_and_tampering() {
    let key = pseudo_bytes(32, 3);
    let wrong = pseudo_bytes(32, 4);
    let data = pseudo_bytes(500, 5);
    let c = Compression::Off;
    let e = Encryption::XChaCha20Poly1305;
    let block = encode_chunk(c, e, &key, &data).expect("encode");

    assert_eq!(
        decode_chunk(c, e, &wrong, &block),
        Err(RepoError::AuthenticationFailure)
    );

    let mut tampered = block.clone();
    let last = tampered.len() - 1;
    tampered[last] ^= 1;
    assert_eq!(
        decode_chunk(c, e, &key, &tampered),
        Err(RepoError::AuthenticationFailure)
    );
}

#[test]
fn master_key_wrapping_is_authenticated() {
    let salt = pseudo_bytes(16, 21);
    let secret = b"pw".to_vec();
    let kek = derive_kek(&secret, &salt, ResourceLimit::Interactive, ResourceLimit::Interactive)
        .expect("kdf");
    let master = pseudo_bytes(32, 23);
    let wrapped = wrap_master(&kek, &master).expect("wrap");
    assert_eq!(unwrap_master(&kek, &wrapped).expect("unwrap"), master);

    let other = derive_kek(
        &b"wrong".to_vec(),
        &salt,
        ResourceLimit::Interactive,
        ResourceLimit::Interactive,
    )
    .expect("kdf");
    assert_eq!(
        unwrap_master(&other, &wrapped),
        Err(RepoError::AuthenticationFailure)
    );
}

#[test]
fn kdf_is_reproducible_and_salt_sensitive() {
    let secret = b"pw".to_vec();
    let s1 = pseudo_bytes(16, 1);
    let s2 = pseudo_bytes(16, 2);
    let a = derive_kek(&secret, &s1, ResourceLimit::Interactive, ResourceLimit::Interactive)
        .expect("kdf");
    let b = derive_kek(&secret, &s1, ResourceLimit::Interactive, ResourceLimit::Interactive)
        .expect("kdf");
    let c = derive_kek(&secret, &s2, ResourceLimit::Interactive, ResourceLimit::Interactive)
        .expect("kdf");
    assert_eq!(a, b);
    assert_ne!(a, c);
}

#[test]
fn lock_is_exclusive_under_abort() {
    let mut table = LockTable::new();
    let id = pseudo_bytes(16, 13);
    assert!(table.acquire(&id, LockStrategy::Abort).is_ok());
    assert_eq!(
        table.acquire(&id, LockStrategy::Abort),
        Err(RepoError::AlreadyLocked)
    );
    let other = pseudo_bytes(16, 14);
    assert!(table.acquire(&other, LockStrategy::Abort).is_ok());
    table.release(&id);
    assert!(table.acquire(&id, LockStrategy::Abort).is_ok());
}
