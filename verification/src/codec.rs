//! The per-chunk codec pipeline: compress, then encrypt; reversed on read.
use vstd::prelude::*;

use crate::bytes::{push_bytes, read_bytes};
use crate::errors::RepoError;
use crate::outside::{aead_open, aead_seal, deflate, deflate_of, inflate, random_bytes, seal_of};

verus! {

/// The compression method used for every stored chunk.
#[derive(Debug, Clone, Copy, PartialEq, Eq, Structural)]
pub enum Compression {
    /// Chunks are stored uncompressed.
    Off,
    /// Chunks are deflate-compressed at the given level.
    Deflate { level: u8 },
}

/// The encryption method used for every stored chunk.
#[derive(Debug, Clone, Copy, PartialEq, Eq, Structural)]
pub enum Encryption {
    /// Chunks are stored in the clear.
    Off,
    /// Chunks are sealed with XChaCha20-Poly1305 under a fresh random
    /// 24-byte nonce each; the nonce is stored in front of the ciphertext.
    XChaCha20Poly1305,
}

/// What the compression stage makes of `data`.
pub open spec fn compress_spec(c: Compression, data: Seq<u8>) -> Seq<u8> {
    match c {
        Compression::Off => data,
        Compression::Deflate { level } => deflate_of(data, level),
    }
}

/// Whether `block` is a stored image of plaintext `pt` under this
/// configuration and key: the compressed payload, sealed under the nonce the
/// block itself carries in its first 24 bytes (or bare, with encryption off).
pub open spec fn block_valid(
    c: Compression,
    e: Encryption,
    key: Seq<u8>,
    pt: Seq<u8>,
    block: Seq<u8>,
) -> bool {
    match e {
        Encryption::Off => block == compress_spec(c, pt),
        Encryption::XChaCha20Poly1305 => block.len() >= 24 && block == block.subrange(0, 24)
            + seal_of(key, block.subrange(0, 24), compress_spec(c, pt)),
    }
}

/// Encode one plaintext chunk for storage: compress, then seal under a fresh
/// random nonce which is written in front of the ciphertext.
pub fn encode_chunk(c: Compression, e: Encryption, key: &Vec<u8>, pt: &Vec<u8>) -> (r: Result<
    Vec<u8>,
    RepoError,
>)
    requires
        e is XChaCha20Poly1305 ==> key@.len() == 32,
    ensures
        r matches Ok(b) ==> block_valid(c, e, key@, pt@, b@),
        e is Off ==> r is Ok,
{
    let payload: Vec<u8> = match c {
        Compression::Off => read_bytes(pt, 0, pt.len()),
        Compression::Deflate { level } => deflate(pt.as_slice(), level),
    };
    proof {
        assert(pt@.subrange(0, pt@.len() as int) =~= pt@);
        assert(payload@ == compress_spec(c, pt@));
    }
    match e {
        Encryption::Off => Ok(payload),
        Encryption::XChaCha20Poly1305 => {
            let nonce = random_bytes(24)?;
            let ct = aead_seal(key.as_slice(), nonce.as_slice(), payload.as_slice())?;
            let mut block = nonce;
            push_bytes(&mut block, ct.as_slice());
            proof {
                assert(block@.subrange(0, 24) =~= nonce@);
                assert(block@ =~= block@.subrange(0, 24) + seal_of(
                    key@,
                    block@.subrange(0, 24),
                    compress_spec(c, pt@),
                ));
            }
            Ok(block)
        },
    }
}

/// Decode one stored block back to its plaintext chunk: open the seal with
/// the nonce the block carries, then decompress.
///
/// The first clause is the round trip: every block a configuration encoded
/// decodes back to exactly the plaintext it encoded.  The second is the
/// authentication guarantee on the uncompressed path: a successful decode
/// never returns anything but the plaintext this block was sealed from.
pub fn decode_chunk(c: Compression, e: Encryption, key: &Vec<u8>, block: &Vec<u8>) -> (r: Result<
    Vec<u8>,
    RepoError,
>)
    requires
        e is XChaCha20Poly1305 ==> key@.len() == 32,
    ensures
        forall|pt: Seq<u8>|
            block_valid(c, e, key@, pt, block@) ==> (r matches Ok(v) && v@ == pt),
        c is Off ==> (r matches Ok(v) ==> block_valid(c, e, key@, v@, block@)),
        r matches Err(err) ==> (err == RepoError::AuthenticationFailure || err
            == RepoError::Corruption),
        e is XChaCha20Poly1305 && c is Off ==> (r matches Err(err) ==> err
            == RepoError::AuthenticationFailure),
        e is XChaCha20Poly1305 ==> (r == Err::<Vec<u8>, RepoError>(RepoError::Corruption)
            ==> exists|p: Seq<u8>|
            block@.len() >= 24 && block@.subrange(24, block@.len() as int) == seal_of(
                key@,
                #[trigger] block@.subrange(0, 24),
                p,
            )),
        e is Off && c is Off ==> r is Ok,
{
    proof {
        assert(block@.subrange(0, block@.len() as int) =~= block@);
    }
    let payload: Vec<u8> = match e {
        Encryption::Off => read_bytes(block, 0, block.len()),
        Encryption::XChaCha20Poly1305 => {
            if block.len() < 24 {
                proof {
                    assert(forall|pt: Seq<u8>| !block_valid(c, e, key@, pt, block@));
                }
                return Err(RepoError::AuthenticationFailure);
            }
            let nonce = read_bytes(block, 0, 24);
            let ct = read_bytes(block, 24, block.len() - 24);
            proof {
                assert(block@ =~= block@.subrange(0, 24) + block@.subrange(
                    24,
                    block@.len() as int,
                ));
                assert forall|pt: Seq<u8>| block_valid(c, e, key@, pt, block@) implies ct@
                    == seal_of(key@, nonce@, compress_spec(c, pt)) by {
                    assert(ct@ =~= (block@.subrange(0, 24) + seal_of(
                        key@,
                        block@.subrange(0, 24),
                        compress_spec(c, pt),
                    )).subrange(24, block@.len() as int));
                }
            }
            aead_open(key.as_slice(), nonce.as_slice(), ct.as_slice())?
        },
    };
    let out = match c {
        Compression::Off => Ok(payload),
        Compression::Deflate { level: _ } => inflate(payload.as_slice()),
    };
    proof {
        assert forall|pt: Seq<u8>|
            block_valid(c, e, key@, pt, block@) implies (out matches Ok(v) && v@ == pt) by {
            assert(payload@ == compress_spec(c, pt));
        }
    }
    out
}

} // verus!
