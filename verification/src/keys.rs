//! The key manager: a memory-hard derivation of the key-encrypting key
//! from the user secret, and authenticated wrapping of the master key.
//!
//! The master data key is indirected through the wrapping layer so that
//! rotating the user secret only re-wraps the master key and never touches
//! a stored chunk.
use vstd::prelude::*;

use crate::bytes::{push_bytes, read_bytes};
use crate::errors::RepoError;
use crate::metadata::{m_cost, m_cost_spec, t_cost, t_cost_spec, ResourceLimit};
use crate::outside::{aead_open, aead_seal, kdf_derive, kdf_of, random_bytes, seal_of};

verus! {

/// Derive the key-encrypting key from the user secret and the stored salt,
/// at the stored cost limits, so the same derivation is reproducible when
/// the repository is opened again.
pub fn derive_kek(
    secret: &Vec<u8>,
    salt: &Vec<u8>,
    memory_limit: ResourceLimit,
    operations_limit: ResourceLimit,
) -> (r: Result<Vec<u8>, RepoError>)
    requires
        salt@.len() == 16,
        secret@.len() <= u32::MAX,
    ensures
        r matches Ok(k) ==> k@ == kdf_of(
            secret@,
            salt@,
            m_cost_spec(memory_limit),
            t_cost_spec(operations_limit),
        ) && k@.len() == 32,
        r is Ok,
{
    kdf_derive(
        secret.as_slice(),
        salt.as_slice(),
        m_cost(memory_limit),
        t_cost(operations_limit),
    )
}

/// Whether `w` is an authenticated wrapping of `master` under `kek`: the
/// master key sealed under the nonce the wrapping itself carries in its
/// first 24 bytes.
pub open spec fn wrapped_valid(kek: Seq<u8>, master: Seq<u8>, w: Seq<u8>) -> bool {
    w.len() >= 24 && w == w.subrange(0, 24) + seal_of(kek, w.subrange(0, 24), master)
}

/// Seal the master key under the key-encrypting key and a fresh nonce.
pub fn wrap_master(kek: &Vec<u8>, master: &Vec<u8>) -> (r: Result<Vec<u8>, RepoError>)
    requires
        kek@.len() == 32,
    ensures
        r matches Ok(w) ==> wrapped_valid(kek@, master@, w@),
{
    let nonce = random_bytes(24)?;
    let ct = aead_seal(kek.as_slice(), nonce.as_slice(), master.as_slice())?;
    let mut w = nonce;
    push_bytes(&mut w, ct.as_slice());
    proof {
        assert(w@.subrange(0, 24) =~= nonce@);
        assert(w@ =~= w@.subrange(0, 24) + seal_of(kek@, w@.subrange(0, 24), master@));
    }
    Ok(w)
}

/// Open a wrapped master key.
///
/// Success returns exactly the master key this wrapping sealed; a wrong
/// key-encrypting key (a wrong secret) or tampered bytes fail the
/// authentication check and are reported, never silently yielding a
/// corrupt key.
pub fn unwrap_master(kek: &Vec<u8>, w: &Vec<u8>) -> (r: Result<Vec<u8>, RepoError>)
    requires
        kek@.len() == 32,
    ensures
        forall|mk: Seq<u8>| wrapped_valid(kek@, mk, w@) ==> (r matches Ok(v) && v@ == mk),
        r matches Ok(v) ==> wrapped_valid(kek@, v@, w@),
        r matches Err(e) ==> e == RepoError::AuthenticationFailure,
{
    if w.len() < 24 {
        proof {
            assert(forall|mk: Seq<u8>| !wrapped_valid(kek@, mk, w@));
        }
        return Err(RepoError::AuthenticationFailure);
    }
    let nonce = read_bytes(w, 0, 24);
    let ct = read_bytes(w, 24, w.len() - 24);
    proof {
        assert(w@ =~= w@.subrange(0, 24) + w@.subrange(24, w@.len() as int));
        assert forall|mk: Seq<u8>| wrapped_valid(kek@, mk, w@) implies ct@ == seal_of(
            kek@,
            nonce@,
            mk,
        ) by {
            assert(ct@ =~= (w@.subrange(0, 24) + seal_of(kek@, w@.subrange(0, 24), mk)).subrange(
                24,
                w@.len() as int,
            ));
        }
    }
    let out = aead_open(kek.as_slice(), nonce.as_slice(), ct.as_slice());
    proof {
        assert(out matches Ok(v) ==> w@ == w@.subrange(0, 24) + seal_of(
            kek@,
            w@.subrange(0, 24),
            v@,
        ));
    }
    out
}

} // verus!
