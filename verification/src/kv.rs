//! The thin key/value façade: bucket semantics over a repository.
//!
//! The traits are the capability set outside bucket stores implement; the
//! scoped-key functions are the verified path logic every bucket shares: a
//! bucket named `scope` stores its keys under `/scope/`, and listing strips
//! that prefix again.
use vstd::prelude::*;

use crate::bytes::{bytes_eq, push_bytes, read_bytes};

verus! {

/// A key/value store that hands out named buckets.
pub trait KV<K, V, E, B: KVBucket<K, V, E>>: Sized {
    /// The bucket stored under `name`.
    fn get_bucket(&self, name: K) -> Result<B, E>;
}

/// One named bucket of a key/value store.
pub trait KVBucket<K, V, E>: Sized {
    /// Whether `k` holds a value.
    fn contains(&self, k: K) -> Result<bool, E>;

    /// The value under `k`, if any.
    fn get(&self, k: K) -> Option<V>;

    /// Store `v` under `k`.
    fn insert(&self, k: K, v: V) -> Result<(), E>;

    /// Drop whatever `k` holds.
    fn remove(&self, k: K) -> Result<(), E>;

    /// Every key of the bucket, with the bucket prefix stripped.
    fn list(&self) -> Result<Vec<Vec<u8>>, E>;
}

/// The full path of `key` in the bucket named `scope`: `/scope/key`, or
/// `/key` for the unnamed bucket.
pub open spec fn scoped_key_spec(scope: Seq<u8>, key: Seq<u8>) -> Seq<u8> {
    if scope.len() > 0 {
        seq![47u8] + scope + seq![47u8] + key
    } else {
        seq![47u8] + key
    }
}

/// Build the full path of `key` in the bucket named `scope`.
pub fn scoped_key(scope: &Vec<u8>, key: &Vec<u8>) -> (r: Vec<u8>)
    ensures
        r@ == scoped_key_spec(scope@, key@),
{
    let mut out: Vec<u8> = Vec::new();
    out.push(47u8);
    if scope.len() > 0 {
        push_bytes(&mut out, scope.as_slice());
        out.push(47u8);
    }
    push_bytes(&mut out, key.as_slice());
    proof {
        assert(out@ =~= scoped_key_spec(scope@, key@));
    }
    out
}

/// Strip the bucket prefix from a full path: the key back, exactly when
/// the path lies in the bucket named `scope`.
pub fn strip_scope(scope: &Vec<u8>, full: &Vec<u8>) -> (r: Option<Vec<u8>>)
    ensures
        r matches Some(k) ==> full@ == scoped_key_spec(scope@, k@),
        r is None ==> forall|k: Seq<u8>| full@ != scoped_key_spec(scope@, k),
{
    let flen = full.len();
    let plen: usize = if scope.len() > 0 {
        if scope.len() > usize::MAX - 2 {
            proof {
                assert(full@.len() == flen);
                assert(forall|k: Seq<u8>| full@ != scoped_key_spec(scope@, k)) by {
                    assert(forall|k: Seq<u8>|
                        (#[trigger] scoped_key_spec(scope@, k)).len() >= scope@.len() + 2);
                }
            }
            return None;
        }
        scope.len() + 2
    } else {
        1
    };
    if full.len() < plen {
        proof {
            assert(forall|k: Seq<u8>| full@ != scoped_key_spec(scope@, k)) by {
                assert(forall|k: Seq<u8>|
                    (#[trigger] scoped_key_spec(scope@, k)).len() >= plen);
            }
        }
        return None;
    }
    let prefix = scoped_key(scope, &Vec::new());
    let head = read_bytes(full, 0, plen);
    if !bytes_eq(head.as_slice(), prefix.as_slice()) {
        proof {
            assert forall|k: Seq<u8>| full@ != scoped_key_spec(scope@, k) by {
                if full@ == scoped_key_spec(scope@, k) {
                    assert(head@ =~= scoped_key_spec(scope@, Seq::<u8>::empty()));
                }
            }
        }
        return None;
    }
    let k = read_bytes(full, plen, full.len() - plen);
    proof {
        assert(full@ =~= scoped_key_spec(scope@, k@));
    }
    Some(k)
}

/// An identifier for one stored value of a value repository.
#[derive(Debug, Clone, Copy, PartialEq, Eq, Hash, Structural)]
pub struct KeyId(pub u64);

/// A kind of datum a value repository keeps in its backing object store.
#[derive(Debug, Clone, Copy, PartialEq, Eq, Hash, Structural)]
pub enum ValueKey {
    /// A serialized value, under its key identifier.
    Data(KeyId),
    /// The serialized mapping of keys to key identifiers.
    KeyTable,
    /// The current repository version.
    RepositoryVersion,
}

/// The logical key a value-repository datum is stored under; distinct
/// data get distinct keys.
pub fn value_key_bytes(v: &ValueKey) -> (r: Vec<u8>)
    ensures
        r@ == value_key_bytes_spec(*v),
{
    let mut out: Vec<u8> = Vec::new();
    match v {
        ValueKey::Data(id) => {
            out.push(0u8);
            crate::bytes::push_u64_le(&mut out, id.0);
        },
        ValueKey::KeyTable => {
            out.push(1u8);
        },
        ValueKey::RepositoryVersion => {
            out.push(2u8);
        },
    }
    proof {
        assert(out@ =~= value_key_bytes_spec(*v));
    }
    out
}

/// The stored spelling of a value-repository key.
pub open spec fn value_key_bytes_spec(v: ValueKey) -> Seq<u8> {
    match v {
        ValueKey::Data(id) => seq![0u8] + crate::bytes::u64_le(id.0),
        ValueKey::KeyTable => seq![1u8],
        ValueKey::RepositoryVersion => seq![2u8],
    }
}

} // verus!
