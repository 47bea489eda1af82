//! Repository configuration, metadata, info and statistics.
//!
//! The metadata is the one distinguished block of the backing store: it
//! carries the repository identity, the immutable configuration, the
//! wrapped master key with its derivation salt, the pointer to the current
//! header, and the creation time.  It is framed by the verified byte codec
//! in this module; a stored metadata block parses back to exactly the
//! value that was written.
use vstd::prelude::*;

use crate::bytes::{
    lemma_parse_lp, lemma_parse_u64, lp_bytes, parse_lp, parse_lp_spec, parse_u64, parse_u64_spec,
    push_lp_bytes, push_u64_le, u64_le,
};
use crate::codec::{Compression, Encryption};
use crate::errors::RepoError;

verus! {

/// The metadata format version this build reads and writes.
pub const METADATA_VERSION: u64 = 1;

/// A cost bound for the key derivation function.
#[derive(Debug, Clone, Copy, PartialEq, Eq, Structural)]
pub enum ResourceLimit {
    /// Cheap enough for interactive use.
    Interactive,
    /// A middle ground.
    Moderate,
    /// Expensive, for long-lived secrets.
    Sensitive,
}

/// The immutable configuration a repository is created with.
#[derive(Debug, Clone, Copy, PartialEq, Eq, Structural)]
pub struct RepositoryConfig {
    /// Chunks average about `2^chunker_bits` bytes.
    pub chunker_bits: u32,
    /// The compression method for every stored chunk.
    pub compression: Compression,
    /// The encryption method for every stored chunk.
    pub encryption: Encryption,
    /// The memory bound for key derivation.
    pub memory_limit: ResourceLimit,
    /// The computation bound for key derivation.
    pub operations_limit: ResourceLimit,
}

impl Default for RepositoryConfig {
    /// The default configuration: one-mebibyte average chunks, no
    /// compression, no encryption, interactive key-derivation costs.
    fn default() -> (r: RepositoryConfig)
        ensures
            r.chunker_bits == 20,
            r.compression == Compression::Off,
            r.encryption == Encryption::Off,
            r.memory_limit == ResourceLimit::Interactive,
            r.operations_limit == ResourceLimit::Interactive,
    {
        RepositoryConfig {
            chunker_bits: 20,
            compression: Compression::Off,
            encryption: Encryption::Off,
            memory_limit: ResourceLimit::Interactive,
            operations_limit: ResourceLimit::Interactive,
        }
    }
}

/// The Argon2 memory cost (in kibibytes) a memory limit stands for.
pub open spec fn m_cost_spec(l: ResourceLimit) -> u32 {
    match l {
        ResourceLimit::Interactive => 8192,
        ResourceLimit::Moderate => 65536,
        ResourceLimit::Sensitive => 262144,
    }
}

/// The Argon2 pass count an operations limit stands for.
pub open spec fn t_cost_spec(l: ResourceLimit) -> u32 {
    match l {
        ResourceLimit::Interactive => 2,
        ResourceLimit::Moderate => 4,
        ResourceLimit::Sensitive => 8,
    }
}

/// The memory cost for key derivation under this limit.
pub fn m_cost(l: ResourceLimit) -> (r: u32)
    ensures
        r == m_cost_spec(l),
        r >= 8,
{
    match l {
        ResourceLimit::Interactive => 8192,
        ResourceLimit::Moderate => 65536,
        ResourceLimit::Sensitive => 262144,
    }
}

/// The pass count for key derivation under this limit.
pub fn t_cost(l: ResourceLimit) -> (r: u32)
    ensures
        r == t_cost_spec(l),
        r >= 1,
{
    match l {
        ResourceLimit::Interactive => 2,
        ResourceLimit::Moderate => 4,
        ResourceLimit::Sensitive => 8,
    }
}

/// The one-per-repository metadata record.
pub struct RepositoryMetadata {
    /// The 16-byte identity of this repository.
    pub id: Vec<u8>,
    /// The configuration the repository was created with.
    pub config: RepositoryConfig,
    /// The master data key, sealed under the secret-derived key.
    pub master_key: Vec<u8>,
    /// The salt the key-encrypting key is derived with.
    pub salt: Vec<u8>,
    /// The block identifier of the current header pointer block.
    pub header_ptr: Vec<u8>,
    /// When the repository was created, in seconds.
    pub creation_time: u64,
}

/// The mathematical content of a metadata record.
pub ghost struct MetadataModel {
    pub id: Seq<u8>,
    pub config: RepositoryConfig,
    pub master_key: Seq<u8>,
    pub salt: Seq<u8>,
    pub header_ptr: Seq<u8>,
    pub creation_time: u64,
}

impl View for RepositoryMetadata {
    type V = MetadataModel;

    open spec fn view(&self) -> MetadataModel {
        MetadataModel {
            id: self.id@,
            config: self.config,
            master_key: self.master_key@,
            salt: self.salt@,
            header_ptr: self.header_ptr@,
            creation_time: self.creation_time,
        }
    }
}

/// The numeric tag of a compression method, with its level.
pub open spec fn compression_tags(c: Compression) -> (u64, u64) {
    match c {
        Compression::Off => (0, 0),
        Compression::Deflate { level } => (1, level as u64),
    }
}

/// The numeric tag of an encryption method.
pub open spec fn encryption_tag(e: Encryption) -> u64 {
    match e {
        Encryption::Off => 0,
        Encryption::XChaCha20Poly1305 => 1,
    }
}

/// The numeric tag of a resource limit.
pub open spec fn limit_tag(l: ResourceLimit) -> u64 {
    match l {
        ResourceLimit::Interactive => 0,
        ResourceLimit::Moderate => 1,
        ResourceLimit::Sensitive => 2,
    }
}

/// The stored bytes of a metadata record.
pub open spec fn metadata_bytes(m: MetadataModel) -> Seq<u8> {
    u64_le(METADATA_VERSION) + u64_le(m.config.chunker_bits as u64) + u64_le(
        compression_tags(m.config.compression).0,
    ) + u64_le(compression_tags(m.config.compression).1) + u64_le(
        encryption_tag(m.config.encryption),
    ) + u64_le(limit_tag(m.config.memory_limit)) + u64_le(limit_tag(m.config.operations_limit))
        + lp_bytes(m.id) + lp_bytes(m.master_key) + lp_bytes(m.salt) + lp_bytes(m.header_ptr)
        + u64_le(m.creation_time)
}

/// The compression method a tag pair names.
pub open spec fn compression_of_tags(tag: u64, level: u64) -> Option<Compression> {
    if tag == 0 {
        Some(Compression::Off)
    } else if tag == 1 && level <= 255 {
        Some(Compression::Deflate { level: level as u8 })
    } else {
        None
    }
}

/// The encryption method a tag names.
pub open spec fn encryption_of_tag(tag: u64) -> Option<Encryption> {
    if tag == 0 {
        Some(Encryption::Off)
    } else if tag == 1 {
        Some(Encryption::XChaCha20Poly1305)
    } else {
        None
    }
}

/// The resource limit a tag names.
pub open spec fn limit_of_tag(tag: u64) -> Option<ResourceLimit> {
    if tag == 0 {
        Some(ResourceLimit::Interactive)
    } else if tag == 1 {
        Some(ResourceLimit::Moderate)
    } else if tag == 2 {
        Some(ResourceLimit::Sensitive)
    } else {
        None
    }
}

/// The specification parser for metadata bytes: what any sequence of
/// stored bytes denotes, if anything.
pub open spec fn parse_metadata_spec(s: Seq<u8>) -> Option<MetadataModel> {
    match parse_u64_spec(s, 0) {
        Some((version, p0)) => if version == METADATA_VERSION {
            match parse_u64_spec(s, p0) {
                Some((bits, p1)) => if bits <= 30 {
                    match (parse_u64_spec(s, p1), parse_u64_spec(s, p1 + 8)) {
                        (Some((ctag, _)), Some((clevel, p2))) => match compression_of_tags(
                            ctag,
                            clevel,
                        ) {
                            Some(compression) => match parse_u64_spec(s, p2) {
                                Some((etag, p3)) => match encryption_of_tag(etag) {
                                    Some(encryption) => match (
                                        parse_u64_spec(s, p3),
                                        parse_u64_spec(s, p3 + 8),
                                    ) {
                                        (Some((mtag, _)), Some((otag, p4))) => match (
                                            limit_of_tag(mtag),
                                            limit_of_tag(otag),
                                        ) {
                                            (Some(memory_limit), Some(operations_limit)) => match parse_lp_spec(
                                                s,
                                                p4,
                                            ) {
                                                Some((id, p5)) => match parse_lp_spec(s, p5) {
                                                    Some((master_key, p6)) => match parse_lp_spec(
                                                        s,
                                                        p6,
                                                    ) {
                                                        Some((salt, p7)) => match parse_lp_spec(
                                                            s,
                                                            p7,
                                                        ) {
                                                            Some((header_ptr, p8)) => match parse_u64_spec(
                                                                s,
                                                                p8,
                                                            ) {
                                                                Some((creation_time, _)) => Some(
                                                                    MetadataModel {
                                                                        id,
                                                                        config: RepositoryConfig {
                                                                            chunker_bits: bits
                                                                                as u32,
                                                                            compression,
                                                                            encryption,
                                                                            memory_limit,
                                                                            operations_limit,
                                                                        },
                                                                        master_key,
                                                                        salt,
                                                                        header_ptr,
                                                                        creation_time,
                                                                    },
                                                                ),
                                                                None => None,
                                                            },
                                                            None => None,
                                                        },
                                                        None => None,
                                                    },
                                                    None => None,
                                                },
                                                None => None,
                                            },
                                            _ => None,
                                        },
                                        _ => None,
                                    },
                                    None => None,
                                },
                                None => None,
                            },
                            None => None,
                        },
                        _ => None,
                    }
                } else {
                    None
                },
                None => None,
            }
        } else {
            None
        },
        None => None,
    }
}

/// Encode a metadata record for storage.
pub fn encode_metadata(m: &RepositoryMetadata) -> (r: Vec<u8>)
    ensures
        r@ == metadata_bytes(m@),
{
    let mut out: Vec<u8> = Vec::new();
    push_u64_le(&mut out, METADATA_VERSION);
    push_u64_le(&mut out, m.config.chunker_bits as u64);
    let (ctag, clevel): (u64, u64) = match m.config.compression {
        Compression::Off => (0, 0),
        Compression::Deflate { level } => (1, level as u64),
    };
    push_u64_le(&mut out, ctag);
    push_u64_le(&mut out, clevel);
    let etag: u64 = match m.config.encryption {
        Encryption::Off => 0,
        Encryption::XChaCha20Poly1305 => 1,
    };
    push_u64_le(&mut out, etag);
    let mtag: u64 = match m.config.memory_limit {
        ResourceLimit::Interactive => 0,
        ResourceLimit::Moderate => 1,
        ResourceLimit::Sensitive => 2,
    };
    push_u64_le(&mut out, mtag);
    let otag: u64 = match m.config.operations_limit {
        ResourceLimit::Interactive => 0,
        ResourceLimit::Moderate => 1,
        ResourceLimit::Sensitive => 2,
    };
    push_u64_le(&mut out, otag);
    push_lp_bytes(&mut out, &m.id);
    push_lp_bytes(&mut out, &m.master_key);
    push_lp_bytes(&mut out, &m.salt);
    push_lp_bytes(&mut out, &m.header_ptr);
    push_u64_le(&mut out, m.creation_time);
    proof {
        assert(out@ =~= metadata_bytes(m@));
    }
    out
}

/// Whether stored bytes carry a format version this build does not read.
pub open spec fn version_mismatch(s: Seq<u8>) -> bool {
    parse_u64_spec(s, 0) matches Some(vp) && vp.0 != METADATA_VERSION
}

/// Decode a stored metadata block.
///
/// The result is exactly what the specification parser says of the bytes:
/// every well-formed encoding decodes, to the value it encodes; a version
/// this build does not read is `UnsupportedFormat`, anything else
/// malformed is `Corruption`.
pub fn decode_metadata(s: &Vec<u8>) -> (r: Result<RepositoryMetadata, RepoError>)
    ensures
        r matches Ok(m) ==> parse_metadata_spec(s@) == Some(m@) && m.config.chunker_bits <= 30,
        r is Err ==> parse_metadata_spec(s@) is None,
        r matches Err(e) ==> (e == RepoError::UnsupportedFormat || e == RepoError::Corruption),
        version_mismatch(s@) ==> (r matches Err(e) && e == RepoError::UnsupportedFormat),
{
    let (version, p0) = match parse_u64(s, 0) {
        Some(x) => x,
        None => { return Err(RepoError::Corruption) },
    };
    if version != METADATA_VERSION {
        return Err(RepoError::UnsupportedFormat);
    }
    let (bits, p1) = match parse_u64(s, p0) {
        Some(x) => x,
        None => { return Err(RepoError::Corruption) },
    };
    if bits > 30 {
        return Err(RepoError::Corruption);
    }
    let (ctag, _q1) = match parse_u64(s, p1) {
        Some(x) => x,
        None => { return Err(RepoError::Corruption) },
    };
    let (clevel, p2) = match parse_u64(s, p1 + 8) {
        Some(x) => x,
        None => { return Err(RepoError::Corruption) },
    };
    let compression = if ctag == 0 {
        Compression::Off
    } else if ctag == 1 && clevel <= 255 {
        Compression::Deflate { level: clevel as u8 }
    } else {
        return Err(RepoError::Corruption);
    };
    let (etag, p3) = match parse_u64(s, p2) {
        Some(x) => x,
        None => { return Err(RepoError::Corruption) },
    };
    let encryption = if etag == 0 {
        Encryption::Off
    } else if etag == 1 {
        Encryption::XChaCha20Poly1305
    } else {
        return Err(RepoError::Corruption);
    };
    let (mtag, _q3) = match parse_u64(s, p3) {
        Some(x) => x,
        None => { return Err(RepoError::Corruption) },
    };
    let (otag, p4) = match parse_u64(s, p3 + 8) {
        Some(x) => x,
        None => { return Err(RepoError::Corruption) },
    };
    let memory_limit = match limit_from_tag(mtag) {
        Some(l) => l,
        None => { return Err(RepoError::Corruption) },
    };
    let operations_limit = match limit_from_tag(otag) {
        Some(l) => l,
        None => { return Err(RepoError::Corruption) },
    };
    let (id, p5) = match parse_lp(s, p4) {
        Some(x) => x,
        None => { return Err(RepoError::Corruption) },
    };
    let (master_key, p6) = match parse_lp(s, p5) {
        Some(x) => x,
        None => { return Err(RepoError::Corruption) },
    };
    let (salt, p7) = match parse_lp(s, p6) {
        Some(x) => x,
        None => { return Err(RepoError::Corruption) },
    };
    let (header_ptr, p8) = match parse_lp(s, p7) {
        Some(x) => x,
        None => { return Err(RepoError::Corruption) },
    };
    let (creation_time, _p9) = match parse_u64(s, p8) {
        Some(x) => x,
        None => { return Err(RepoError::Corruption) },
    };
    Ok(
        RepositoryMetadata {
            id,
            config: RepositoryConfig {
                chunker_bits: bits as u32,
                compression,
                encryption,
                memory_limit,
                operations_limit,
            },
            master_key,
            salt,
            header_ptr,
            creation_time,
        },
    )
}

/// The resource limit a stored tag names.
fn limit_from_tag(tag: u64) -> (r: Option<ResourceLimit>)
    ensures
        r == limit_of_tag(tag),
{
    if tag == 0 {
        Some(ResourceLimit::Interactive)
    } else if tag == 1 {
        Some(ResourceLimit::Moderate)
    } else if tag == 2 {
        Some(ResourceLimit::Sensitive)
    } else {
        None
    }
}

#[verifier::spinoff_prover]
proof fn lemma_metadata_h0(m: MetadataModel)
    ensures
        parse_u64_spec(metadata_bytes(m), 0) == Some((METADATA_VERSION, 8int)),
{
    let s = metadata_bytes(m);
    assert(s.subrange(0, 8) =~= u64_le(METADATA_VERSION));
    lemma_parse_u64(s, 0, METADATA_VERSION);
}

#[verifier::spinoff_prover]
proof fn lemma_metadata_h1(m: MetadataModel)
    ensures
        parse_u64_spec(metadata_bytes(m), 8) == Some((m.config.chunker_bits as u64, 16int)),
{
    let s = metadata_bytes(m);
    assert(s.subrange(8, 16) =~= u64_le(m.config.chunker_bits as u64));
    lemma_parse_u64(s, 8, m.config.chunker_bits as u64);
}

#[verifier::spinoff_prover]
proof fn lemma_metadata_h2(m: MetadataModel)
    ensures
        parse_u64_spec(metadata_bytes(m), 16) == Some((compression_tags(m.config.compression).0, 24int)),
{
    let s = metadata_bytes(m);
    assert(s.subrange(16, 24) =~= u64_le(compression_tags(m.config.compression).0));
    lemma_parse_u64(s, 16, compression_tags(m.config.compression).0);
}

#[verifier::spinoff_prover]
proof fn lemma_metadata_h3(m: MetadataModel)
    ensures
        parse_u64_spec(metadata_bytes(m), 24) == Some((compression_tags(m.config.compression).1, 32int)),
{
    let s = metadata_bytes(m);
    assert(s.subrange(24, 32) =~= u64_le(compression_tags(m.config.compression).1));
    lemma_parse_u64(s, 24, compression_tags(m.config.compression).1);
}

#[verifier::spinoff_prover]
proof fn lemma_metadata_h4(m: MetadataModel)
    ensures
        parse_u64_spec(metadata_bytes(m), 32) == Some((encryption_tag(m.config.encryption), 40int)),
{
    let s = metadata_bytes(m);
    assert(s.subrange(32, 40) =~= u64_le(encryption_tag(m.config.encryption)));
    lemma_parse_u64(s, 32, encryption_tag(m.config.encryption));
}

#[verifier::spinoff_prover]
proof fn lemma_metadata_h5(m: MetadataModel)
    ensures
        parse_u64_spec(metadata_bytes(m), 40) == Some((limit_tag(m.config.memory_limit), 48int)),
{
    let s = metadata_bytes(m);
    assert(s.subrange(40, 48) =~= u64_le(limit_tag(m.config.memory_limit)));
    lemma_parse_u64(s, 40, limit_tag(m.config.memory_limit));
}

#[verifier::spinoff_prover]
proof fn lemma_metadata_h6(m: MetadataModel)
    ensures
        parse_u64_spec(metadata_bytes(m), 48) == Some((limit_tag(m.config.operations_limit), 56int)),
{
    let s = metadata_bytes(m);
    assert(s.subrange(48, 56) =~= u64_le(limit_tag(m.config.operations_limit)));
    lemma_parse_u64(s, 48, limit_tag(m.config.operations_limit));
}

proof fn lemma_metadata_head(m: MetadataModel)
    ensures
        parse_u64_spec(metadata_bytes(m), 0) == Some((METADATA_VERSION, 8int)),
        parse_u64_spec(metadata_bytes(m), 8) == Some((m.config.chunker_bits as u64, 16int)),
        parse_u64_spec(metadata_bytes(m), 16) == Some((compression_tags(m.config.compression).0, 24int)),
        parse_u64_spec(metadata_bytes(m), 24) == Some((compression_tags(m.config.compression).1, 32int)),
        parse_u64_spec(metadata_bytes(m), 32) == Some((encryption_tag(m.config.encryption), 40int)),
        parse_u64_spec(metadata_bytes(m), 40) == Some((limit_tag(m.config.memory_limit), 48int)),
        parse_u64_spec(metadata_bytes(m), 48) == Some((limit_tag(m.config.operations_limit), 56int)),
{
    lemma_metadata_h0(m);
    lemma_metadata_h1(m);
    lemma_metadata_h2(m);
    lemma_metadata_h3(m);
    lemma_metadata_h4(m);
    lemma_metadata_h5(m);
    lemma_metadata_h6(m);
}


#[verifier::spinoff_prover]
proof fn lemma_metadata_t0(m: MetadataModel)
    requires
        m.id.len() + m.master_key.len() + m.salt.len() + m.header_ptr.len() + 200 < u64::MAX,
    ensures
        parse_lp_spec(metadata_bytes(m), 56) == Some((m.id, 64 + m.id.len() as int)),
{
    let s = metadata_bytes(m);
    let a0: int = 56;
    let a1 = a0 + 8 + m.id.len() as int;
    assert(s.subrange(a0, a1) =~= lp_bytes(m.id));
    lemma_parse_lp(s, a0, m.id);
}

#[verifier::spinoff_prover]
proof fn lemma_metadata_t1(m: MetadataModel)
    requires
        m.id.len() + m.master_key.len() + m.salt.len() + m.header_ptr.len() + 200 < u64::MAX,
    ensures
        parse_lp_spec(metadata_bytes(m), 64 + m.id.len() as int) == Some((m.master_key, 72 + m.id.len() + m.master_key.len() as int)),
{
    let s = metadata_bytes(m);
    let a1 = 64 + m.id.len() as int;
    let a2 = a1 + 8 + m.master_key.len() as int;
    assert(s.subrange(a1, a2) =~= lp_bytes(m.master_key));
    lemma_parse_lp(s, a1, m.master_key);
}

#[verifier::spinoff_prover]
proof fn lemma_metadata_t2(m: MetadataModel)
    requires
        m.id.len() + m.master_key.len() + m.salt.len() + m.header_ptr.len() + 200 < u64::MAX,
    ensures
        parse_lp_spec(metadata_bytes(m), 72 + m.id.len() + m.master_key.len() as int) == Some((m.salt, 80 + m.id.len() + m.master_key.len() + m.salt.len() as int)),
{
    let s = metadata_bytes(m);
    let a2 = 72 + m.id.len() + m.master_key.len() as int;
    let a3 = a2 + 8 + m.salt.len() as int;
    assert(s.subrange(a2, a3) =~= lp_bytes(m.salt));
    lemma_parse_lp(s, a2, m.salt);
}

#[verifier::spinoff_prover]
proof fn lemma_metadata_t3(m: MetadataModel)
    requires
        m.id.len() + m.master_key.len() + m.salt.len() + m.header_ptr.len() + 200 < u64::MAX,
    ensures
        parse_lp_spec(metadata_bytes(m), 80 + m.id.len() + m.master_key.len() + m.salt.len() as int) == Some((m.header_ptr, 88 + m.id.len() + m.master_key.len() + m.salt.len() + m.header_ptr.len() as int)),
{
    let s = metadata_bytes(m);
    let a3 = 80 + m.id.len() + m.master_key.len() + m.salt.len() as int;
    let a4 = a3 + 8 + m.header_ptr.len() as int;
    assert(s.subrange(a3, a4) =~= lp_bytes(m.header_ptr));
    lemma_parse_lp(s, a3, m.header_ptr);
}

#[verifier::spinoff_prover]
proof fn lemma_metadata_t4(m: MetadataModel)
    requires
        m.id.len() + m.master_key.len() + m.salt.len() + m.header_ptr.len() + 200 < u64::MAX,
    ensures
        parse_u64_spec(metadata_bytes(m), 88 + m.id.len() + m.master_key.len() + m.salt.len() + m.header_ptr.len() as int) == Some((m.creation_time, 96 + m.id.len() + m.master_key.len() + m.salt.len() + m.header_ptr.len() as int)),
{
    let s = metadata_bytes(m);
    let a4 = 88 + m.id.len() + m.master_key.len() + m.salt.len() + m.header_ptr.len() as int;
    assert(s.subrange(a4, a4 + 8) =~= u64_le(m.creation_time));
    lemma_parse_u64(s, a4, m.creation_time);
}

/// Every encoded metadata record parses back to itself.
#[verifier::rlimit(100)]
pub proof fn lemma_metadata_round_trip(m: MetadataModel)
    requires
        m.config.chunker_bits <= 30,
        m.id.len() + m.master_key.len() + m.salt.len() + m.header_ptr.len() + 200 < u64::MAX,
    ensures
        parse_metadata_spec(metadata_bytes(m)) == Some(m),
{
    let s = metadata_bytes(m);
    let ct = compression_tags(m.config.compression);
    lemma_metadata_head(m);
    lemma_metadata_t0(m);
    lemma_metadata_t1(m);
    lemma_metadata_t2(m);
    lemma_metadata_t3(m);
    lemma_metadata_t4(m);
    assert(compression_of_tags(ct.0, ct.1) == Some(m.config.compression));
    assert(encryption_of_tag(encryption_tag(m.config.encryption)) == Some(m.config.encryption));
    assert(limit_of_tag(limit_tag(m.config.memory_limit)) == Some(m.config.memory_limit));
    assert(limit_of_tag(limit_tag(m.config.operations_limit)) == Some(
        m.config.operations_limit,
    ));
    assert(parse_metadata_spec(s) == Some(m));
}

/// Information about a repository, as reported to callers.
#[derive(Debug, Clone, PartialEq, Eq)]
pub struct RepositoryInfo {
    pub id: Vec<u8>,
    pub config: RepositoryConfig,
    pub created: u64,
}

impl RepositoryInfo {
    /// The unique identity of this repository.
    pub fn id(&self) -> (r: &Vec<u8>)
        ensures
            r@ == self.id@,
    {
        &self.id
    }

    /// The configuration the repository was created with.
    pub fn config(&self) -> (r: &RepositoryConfig)
        ensures
            r == self.config,
    {
        &self.config
    }

    /// When the repository was created, in seconds.
    pub fn created(&self) -> (r: u64)
        ensures
            r == self.created,
    {
        self.created
    }
}

impl RepositoryMetadata {
    /// The caller-facing information in this metadata record.
    pub fn to_info(&self) -> (r: RepositoryInfo)
        ensures
            r.id@ == self.id@,
            r.config == self.config,
            r.created == self.creation_time,
    {
        let id = crate::bytes::read_bytes(&self.id, 0, self.id.len());
        proof {
            assert(id@ =~= self.id@);
        }
        RepositoryInfo { id, config: self.config, created: self.creation_time }
    }
}

/// Statistics about a repository.
pub struct RepositoryStats {
    pub apparent_size: u64,
    pub actual_size: u64,
}

impl RepositoryStats {
    /// The combined size of all logical objects; deduplication and
    /// compression can make this larger than `actual_size`.
    pub fn apparent_size(&self) -> (r: u64)
        ensures
            r == self.apparent_size,
    {
        self.apparent_size
    }

    /// The bytes actually held by the backing store's blocks.
    pub fn actual_size(&self) -> (r: u64)
        ensures
            r == self.actual_size,
    {
        self.actual_size
    }
}

} // verus!
