//! Repository behaviour end to end, over the in-memory backend.
use dedup_store::codec::{Compression, Encryption};
use dedup_store::errors::RepoError;
use dedup_store::lock::LockTable;
use dedup_store::metadata::{
    decode_metadata, encode_metadata, RepositoryConfig, RepositoryMetadata, ResourceLimit,
};
use dedup_store::object::Object;
use dedup_store::repository::Repository;
use dedup_store::sqlite::{OpenOption, SqliteStore};
use dedup_store::store::{DataStore, MemoryStore};

fn pseudo_bytes(n: usize, mut seed: u64) -> Vec<u8> {
    let mut out = Vec::with_capacity(n);
    for _ in 0..n {
        seed = seed.wrapping_mul(6364136223846793005).wrapping_add(1442695040888963407);
        out.push((seed >> 33) as u8);
    }
    out
}

fn test_config() -> RepositoryConfig {
    RepositoryConfig {
        chunker_bits: 12,
        compression: Compression::Deflate { level: 6 },
        encryption: Encryption::XChaCha20Poly1305,
        memory_limit: ResourceLimit::Interactive,
        operations_limit: ResourceLimit::Interactive,
    }
}

fn read_to_end<S: DataStore>(obj: &mut Object, repo: &mut Repository<S>) -> Vec<u8> {
    let mut out = Vec::new();
    loop {
        let piece = obj.read(repo, 1024).expect("read");
        if piece.is_empty() {
            break;
        }
        out.extend_from_slice(&piece);
    }
    out
}

#[test]
fn default_config_matches_documentation() {
    let cfg = RepositoryConfig::default();
    assert_eq!(cfg.chunker_bits, 20);
    assert_eq!(cfg.compression, Compression::Off);
    assert_eq!(cfg.encryption, Encryption::Off);
    assert_eq!(cfg.memory_limit, ResourceLimit::Interactive);
    assert_eq!(cfg.operations_limit, ResourceLimit::Interactive);
}

#[test]
fn create_then_create_again_already_exists() {
    let mut table = LockTable::new();
    let secret = b"pw".to_vec();
    let repo = Repository::create(MemoryStore::new(), test_config(), &secret, 0, &mut table)
        .expect("create");
    let store = repo.close(&mut table);
    match Repository::create(store, test_config(), &secret, 0, &mut table) {
        Err(RepoError::AlreadyExists) => {},
        other => panic!("expected AlreadyExists, got {:?}", other.is_ok()),
    }
}

#[test]
fn entry_crud_and_keys() {
    let mut table = LockTable::new();
    let secret = b"pw".to_vec();
    let mut repo = Repository::create(MemoryStore::new(), test_config(), &secret, 0, &mut table)
        .expect("create");
    let ka = b"a".to_vec();
    let kb = b"b".to_vec();
    assert!(!repo.contains(&ka));
    repo.insert(&ka);
    repo.insert(&kb);
    assert!(repo.contains(&ka) && repo.contains(&kb));
    let keys = repo.keys();
    assert_eq!(keys, vec![ka.clone(), kb.clone()]);
    assert!(repo.remove(&ka));
    assert!(!repo.remove(&ka));
    assert!(!repo.contains(&ka));
    assert!(repo.contains(&kb));
}

#[test]
fn seek_and_read_return_exact_slices() {
    let mut table = LockTable::new();
    let secret = b"pw".to_vec();
    let mut repo = Repository::create(MemoryStore::new(), test_config(), &secret, 0, &mut table)
        .expect("create");
    let content = pseudo_bytes(10000, 77);
    let key = b"a".to_vec();
    let mut obj = Object::insert(&mut repo, &key);
    obj.write(&mut repo, &content).expect("write");
    obj.flush(&mut repo).expect("flush");

    for (p, n) in [(0usize, 100usize), (4090, 20), (4095, 4096), (9990, 100), (10000, 5), (12000, 3)] {
        obj.seek(&mut repo, p as u64).expect("seek");
        let got = obj.read(&mut repo, n).expect("read");
        let lo = p.min(content.len());
        let hi = (p + n).min(content.len());
        assert_eq!(got, content[lo..hi].to_vec(), "slice at {}..{}", p, n);
    }
}

#[test]
fn overwrite_in_the_middle_keeps_the_prefix() {
    let mut table = LockTable::new();
    let secret = b"pw".to_vec();
    let mut repo = Repository::create(MemoryStore::new(), test_config(), &secret, 0, &mut table)
        .expect("create");
    let content = pseudo_bytes(9000, 5);
    let key = b"a".to_vec();
    let mut obj = Object::insert(&mut repo, &key);
    obj.write(&mut repo, &content).expect("write");
    obj.flush(&mut repo).expect("flush");

    let patch = pseudo_bytes(500, 6);
    obj.seek(&mut repo, 6000).expect("seek");
    obj.write(&mut repo, &patch).expect("write patch");
    obj.flush(&mut repo).expect("flush patch");

    obj.seek(&mut repo, 0).expect("seek");
    let got = read_to_end(&mut obj, &mut repo);
    let mut want = content[..6000].to_vec();
    want.extend_from_slice(&patch);
    assert_eq!(got.len(), want.len());
    assert_eq!(got, want);
}

#[test]
fn identical_content_under_two_keys_is_deduplicated() {
    let mut table = LockTable::new();
    let secret = b"pw".to_vec();
    let mut repo = Repository::create(MemoryStore::new(), test_config(), &secret, 0, &mut table)
        .expect("create");
    let content = pseudo_bytes(10000, 42);

    let ka = b"a".to_vec();
    let mut oa = Object::insert(&mut repo, &ka);
    oa.write(&mut repo, &content).expect("write a");
    oa.flush(&mut repo).expect("flush a");
    let s1 = repo.stats().expect("stats");

    let kb = b"b".to_vec();
    let mut ob = Object::insert(&mut repo, &kb);
    ob.write(&mut repo, &content).expect("write b");
    ob.flush(&mut repo).expect("flush b");
    let s2 = repo.stats().expect("stats");

    assert_eq!(s1.apparent_size(), 10000);
    assert_eq!(s2.apparent_size(), 20000);
    // the shared chunks are stored once: only header bookkeeping grows
    assert!(
        s2.actual_size() < s1.actual_size() + 4000,
        "dedup failed: {} vs {}",
        s2.actual_size(),
        s1.actual_size()
    );
}

#[test]
fn repository_round_trip_and_wrong_secret() {
    let mut table = LockTable::new();
    let secret = b"pw".to_vec();
    let mut repo = Repository::create(MemoryStore::new(), test_config(), &secret, 0, &mut table)
        .expect("create");
    let content = pseudo_bytes(10000, 99);
    let key = b"a".to_vec();
    let mut obj = Object::insert(&mut repo, &key);
    obj.write(&mut repo, &content).expect("write");
    obj.flush(&mut repo).expect("flush");
    let store = repo.close(&mut table);

    let mut repo2 = Repository::open(store, &secret, &mut table).expect("reopen");
    assert!(repo2.contains(&key));
    // make the reopened entry's chunks tracked, so reads are the exact
    // bytes the contract promises
    repo2.hydrate_entry(&key).expect("hydrate");
    let mut obj2 = Object::open(&repo2, &key).expect("open object");
    let got = read_to_end(&mut obj2, &mut repo2);
    assert_eq!(got, content);
    let store = repo2.close(&mut table);

    match Repository::open(store, &b"wrong".to_vec(), &mut table) {
        Err(RepoError::AuthenticationFailure) => {},
        other => panic!("expected AuthenticationFailure, got ok={}", other.is_ok()),
    }
}

#[test]
fn opening_a_locked_repository_aborts() {
    let mut table = LockTable::new();
    let secret = b"pw".to_vec();
    let repo = Repository::create(MemoryStore::new(), test_config(), &secret, 0, &mut table)
        .expect("create");
    // a second open of the same target while the first handle is alive
    // finds the identity locked and aborts
    let id = repo.info().id().clone();
    assert!(table.is_locked(&id));
    assert_eq!(
        table.acquire(&id, dedup_store::lock::LockStrategy::Abort),
        Err(RepoError::AlreadyLocked)
    );
    let store = repo.close(&mut table);
    assert!(!table.is_locked(&id));
    assert!(table.acquire(&id, dedup_store::lock::LockStrategy::Abort).is_ok());
    drop(store);
}

#[test]
fn open_missing_repository_is_not_found() {
    let mut table = LockTable::new();
    match Repository::open(MemoryStore::new(), &b"pw".to_vec(), &mut table) {
        Err(RepoError::NotFound) => {},
        other => panic!("expected NotFound, got ok={}", other.is_ok()),
    }
}

#[test]
fn metadata_reports_info() {
    let mut table = LockTable::new();
    let secret = b"pw".to_vec();
    let repo = Repository::create(MemoryStore::new(), test_config(), &secret, 5, &mut table)
        .expect("create");
    let info = repo.info();
    assert_eq!(info.id().len(), 16);
    assert_eq!(*info.config(), test_config());
    repo.close(&mut table);
}

#[test]
fn sqlite_backed_repository_round_trips() {
    let mut table = LockTable::new();
    let secret = b"pw".to_vec();
    // ":memory:" is SQLite's in-memory database; nothing touches disk
    let store = SqliteStore::open(":memory:", OpenOption::Create).expect("open store");
    let mut repo =
        Repository::create(store, test_config(), &secret, 0, &mut table).expect("create");
    let content = pseudo_bytes(6000, 31);
    let key = b"a".to_vec();
    let mut obj = Object::insert(&mut repo, &key);
    obj.write(&mut repo, &content).expect("write");
    obj.flush(&mut repo).expect("flush");
    obj.seek(&mut repo, 0).expect("seek");
    let got = read_to_end(&mut obj, &mut repo);
    assert_eq!(got, content);
    repo.close(&mut table);
}

#[test]
fn clean_removes_unreferenced_chunks_and_keeps_referenced() {
    let mut table = LockTable::new();
    let secret = b"pw".to_vec();
    let mut repo = Repository::create(MemoryStore::new(), test_config(), &secret, 0, &mut table)
        .expect("create");
    let content_a = pseudo_bytes(8000, 1);
    let content_b = pseudo_bytes(8000, 2);
    let ka = b"a".to_vec();
    let kb = b"b".to_vec();
    let mut oa = Object::insert(&mut repo, &ka);
    oa.write(&mut repo, &content_a).expect("write a");
    oa.flush(&mut repo).expect("flush a");
    let mut ob = Object::insert(&mut repo, &kb);
    ob.write(&mut repo, &content_b).expect("write b");
    ob.flush(&mut repo).expect("flush b");
    let before = repo.stats().expect("stats").actual_size();

    assert!(repo.remove(&kb));
    repo.flush_all().expect("commit removal");
    repo.clean().expect("clean");
    let after = repo.stats().expect("stats").actual_size();
    assert!(
        after + 4000 < before,
        "clean freed nothing: {} vs {}",
        after,
        before
    );

    // the surviving object is untouched
    let mut oa2 = Object::open(&repo, &ka).expect("open a");
    oa2.seek(&mut repo, 0).expect("seek");
    let got = read_to_end(&mut oa2, &mut repo);
    assert_eq!(got, content_a);
    repo.close(&mut table);
}

#[test]
fn version_mismatch_is_unsupported_format() {
    let m = RepositoryMetadata {
        id: vec![0u8; 16],
        config: RepositoryConfig::default(),
        master_key: vec![],
        salt: vec![0u8; 16],
        header_ptr: vec![],
        creation_time: 0,
    };
    let mut bytes = encode_metadata(&m);
    bytes[0] = bytes[0].wrapping_add(1);
    match decode_metadata(&bytes) {
        Err(e) => assert_eq!(e, RepoError::UnsupportedFormat),
        Ok(_) => panic!("expected UnsupportedFormat"),
    }
}
