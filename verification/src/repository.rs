//! The repository: the façade composing chunker, codec, chunk store, key
//! manager, header and lock into one content-addressable, encrypted,
//! deduplicating object store over a pluggable backend.
use vstd::prelude::*;

use crate::bytes::{bytes_eq, push_bytes, read_bytes};
use crate::chunker::Chunker;
use crate::codec::{block_valid, decode_chunk, encode_chunk};
use crate::errors::RepoError;
use crate::header::{
    decode_header, encode_header, keys_unique, Chunk, ChunkModel, EntryModel, Header, HeaderEntry,
};
use crate::keys::{derive_kek, unwrap_master, wrap_master, wrapped_valid};
use crate::lock::{LockStrategy, LockTable};
use crate::metadata::{
    decode_metadata, encode_metadata, m_cost_spec, t_cost_spec, RepositoryConfig,
    RepositoryInfo, RepositoryMetadata, RepositoryStats,
};
use crate::outside::{digest32, digest_of, kdf_of, random_bytes};
use crate::store::DataStore;

verus! {

/// The block identifier of the metadata block.
pub open spec fn metadata_block_id() -> Seq<u8> {
    seq![0u8]
}

/// The block identifier a chunk digest maps to: the digest itself, tagged.
pub open spec fn chunk_block_id(d: Seq<u8>) -> Seq<u8> {
    seq![1u8] + d
}

/// The sum of the sizes of a chunk list.
pub open spec fn sum_sizes(cs: Seq<ChunkModel>) -> int
    decreases cs.len(),
{
    if cs.len() == 0 {
        0
    } else {
        cs[0].size + sum_sizes(cs.drop_first())
    }
}

/// The bytes an ordered chunk list denotes, under a map from digest to
/// chunk plaintext.
pub open spec fn entry_content(cs: Seq<ChunkModel>, m: Map<Seq<u8>, Seq<u8>>) -> Seq<u8>
    decreases cs.len(),
{
    if cs.len() == 0 {
        Seq::empty()
    } else {
        m[cs[0].digest] + entry_content(cs.drop_first(), m)
    }
}

/// Whether every chunk of the list is tracked by the map, at its size.
pub open spec fn entry_tracked(cs: Seq<ChunkModel>, m: Map<Seq<u8>, Seq<u8>>) -> bool {
    forall|i: int|
        0 <= i < cs.len() ==> m.contains_key((#[trigger] cs[i]).digest) && m[cs[i].digest].len()
            == cs[i].size
}

/// The first entry under `key`, if any.
pub open spec fn entry_of(hs: Seq<EntryModel>, key: Seq<u8>) -> Option<EntryModel>
    decreases hs.len(),
{
    if hs.len() == 0 {
        None
    } else if hs[0].key == key {
        Some(hs[0])
    } else {
        entry_of(hs.drop_first(), key)
    }
}

pub proof fn lemma_entry_of_find(hs: Seq<EntryModel>, key: Seq<u8>, i: int)
    requires
        0 <= i < hs.len(),
        hs[i].key == key,
        forall|j: int| 0 <= j < i ==> (#[trigger] hs[j]).key != key,
    ensures
        entry_of(hs, key) == Some(hs[i]),
    decreases i,
{
    if i > 0 {
        assert(forall|j: int| 0 <= j < i - 1 ==> (#[trigger] hs.drop_first()[j]).key != key);
        lemma_entry_of_find(hs.drop_first(), key, i - 1);
    }
}

pub proof fn lemma_entry_of_none(hs: Seq<EntryModel>, key: Seq<u8>)
    requires
        forall|j: int| 0 <= j < hs.len() ==> (#[trigger] hs[j]).key != key,
    ensures
        entry_of(hs, key) is None,
    decreases hs.len(),
{
    if hs.len() > 0 {
        assert(forall|j: int|
            0 <= j < hs.len() - 1 ==> (#[trigger] hs.drop_first()[j]).key != key);
        lemma_entry_of_none(hs.drop_first(), key);
    }
}

/// Splitting a chunk list splits its content.
pub proof fn lemma_entry_content_split(cs: Seq<ChunkModel>, m: Map<Seq<u8>, Seq<u8>>, i: int)
    requires
        0 <= i <= cs.len(),
    ensures
        entry_content(cs, m) == entry_content(cs.take(i), m) + entry_content(cs.skip(i), m),
    decreases i,
{
    if i == 0 {
        assert(cs.take(0) =~= Seq::<ChunkModel>::empty());
        assert(cs.skip(0) =~= cs);
        assert(entry_content(cs, m) =~= entry_content(cs.take(0), m) + entry_content(
            cs.skip(0),
            m,
        ));
    } else {
        lemma_entry_content_split(cs.drop_first(), m, i - 1);
        assert(cs.take(i).drop_first() =~= cs.drop_first().take(i - 1));
        assert(cs.skip(i) =~= cs.drop_first().skip(i - 1));
        assert(cs.take(i)[0] == cs[0]);
        assert(cs.take(i).len() == i);
        assert(entry_content(cs.take(i), m) == m[cs[0].digest] + entry_content(
            cs.drop_first().take(i - 1),
            m,
        ));
        assert(entry_content(cs, m) =~= entry_content(cs.take(i), m) + entry_content(
            cs.skip(i),
            m,
        ));
    }
}

/// Tracked chunk lists have content of the summed size.
pub proof fn lemma_entry_content_len(cs: Seq<ChunkModel>, m: Map<Seq<u8>, Seq<u8>>)
    requires
        entry_tracked(cs, m),
    ensures
        entry_content(cs, m).len() == sum_sizes(cs),
    decreases cs.len(),
{
    if cs.len() > 0 {
        assert(cs[0].digest == cs[0].digest);
        assert(entry_tracked(cs.drop_first(), m)) by {
            assert(forall|i: int|
                0 <= i < cs.len() - 1 ==> (#[trigger] cs.drop_first()[i]) == cs[i + 1]);
        }
        lemma_entry_content_len(cs.drop_first(), m);
    }
}

/// Whether the digest list mirrors the domain of the chunk map.
pub open spec fn known_mirrors(chunks: Map<Seq<u8>, Seq<u8>>, known: Seq<Vec<u8>>) -> bool {
    forall|d: Seq<u8>|
        chunks.contains_key(d) <==> exists|i: int|
            0 <= i < known.len() && (#[trigger] known[i])@ == d
}

/// Whether every known chunk is stored as a valid encoding of its
/// plaintext under the block identifier derived from its digest.
pub open spec fn chunks_stored(
    chunks: Map<Seq<u8>, Seq<u8>>,
    blocks: Map<Seq<u8>, Seq<u8>>,
    config: RepositoryConfig,
    key: Seq<u8>,
) -> bool {
    forall|d: Seq<u8>|
        chunks.contains_key(d) ==> {
            &&& blocks.contains_key(chunk_block_id(d))
            &&& block_valid(
                config.compression,
                config.encryption,
                key,
                (#[trigger] chunks[d]),
                blocks[chunk_block_id(d)],
            )
            &&& digest_of(chunks[d]) == d
        }
}

/// What a successful chunk store owes: the digest names the plaintext,
/// and either the chunk was already known — then nothing at all changed —
/// or the chunk and its block were added, and nothing else changed.
pub open spec fn put_outcome<S: DataStore>(
    pre: Repository<S>,
    post: Repository<S>,
    p: Seq<u8>,
    d: Seq<u8>,
) -> bool {
    &&& d == digest_of(p)
    &&& post.chunk_map().contains_key(d)
    &&& pre.chunk_map().contains_key(d) ==> post.chunk_map() == pre.chunk_map()
        && post.stored_blocks() == pre.stored_blocks()
    &&& !pre.chunk_map().contains_key(d) ==> post.chunk_map() == pre.chunk_map().insert(d, p)
        && post.stored_blocks() == pre.stored_blocks().insert(
        chunk_block_id(d),
        post.stored_blocks()[chunk_block_id(d)],
    )
}

/// Whether every entry's size is the sum of its chunk sizes.
pub open spec fn entries_sized(hs: Seq<EntryModel>) -> bool {
    forall|i: int| 0 <= i < hs.len() ==> sum_sizes((#[trigger] hs[i]).chunks) == hs[i].size
}

/// Whether `pieces` are plaintexts for the chunk references `refs`: each
/// referenced block exists and is a valid encoding of its piece.
pub open spec fn pieces_decode(
    blocks: Map<Seq<u8>, Seq<u8>>,
    config: RepositoryConfig,
    key: Seq<u8>,
    refs: Seq<ChunkModel>,
    pieces: Seq<Seq<u8>>,
) -> bool {
    &&& pieces.len() == refs.len()
    &&& forall|k: int|
        0 <= k < refs.len() ==> blocks.contains_key(
            chunk_block_id((#[trigger] refs[k]).digest),
        ) && block_valid(
            config.compression,
            config.encryption,
            key,
            pieces[k],
            blocks[chunk_block_id(refs[k].digest)],
        )
}

/// Whether the chunk blocks named by `refs` decode, in order, to `bytes`.
pub open spec fn chunks_decode_to(
    blocks: Map<Seq<u8>, Seq<u8>>,
    config: RepositoryConfig,
    key: Seq<u8>,
    refs: Seq<ChunkModel>,
    bytes: Seq<u8>,
) -> bool {
    exists|pieces: Seq<Seq<u8>>|
        #[trigger] pieces_decode(blocks, config, key, refs, pieces) && bytes
            == crate::chunker::concat_of(pieces)
}

/// Whether the store's blocks hold, under metadata `m` and the master key,
/// a committed header whose entries are `hs`: the pointer block decodes to
/// a one-entry pointer header whose chunks decode and concatenate to bytes
/// that parse as `hs`.
pub open spec fn header_stored(
    blocks: Map<Seq<u8>, Seq<u8>>,
    m: crate::metadata::MetadataModel,
    master: Seq<u8>,
    hs: Seq<EntryModel>,
) -> bool {
    exists|pb: Seq<u8>, refs: Seq<EntryModel>, hb: Seq<u8>|
        {
            &&& blocks.contains_key(m.header_ptr)
            &&& #[trigger] block_valid(
                m.config.compression,
                m.config.encryption,
                master,
                pb,
                blocks[m.header_ptr],
            )
            &&& crate::header::parse_header_spec(pb) == Some(refs)
            &&& refs.len() == 1
            &&& #[trigger] chunks_decode_to(blocks, m.config, master, refs[0].chunks, hb)
            &&& crate::header::parse_header_spec(hb) == Some(hs)
        }
}

/// The summed byte lengths of the listed blocks.
pub open spec fn sum_block_bytes(blocks: Map<Seq<u8>, Seq<u8>>, ids: Seq<Seq<u8>>) -> int
    decreases ids.len(),
{
    if ids.len() == 0 {
        0
    } else {
        blocks[ids[0]].len() + sum_block_bytes(blocks, ids.drop_first())
    }
}

pub proof fn lemma_sum_block_bytes_snoc(blocks: Map<Seq<u8>, Seq<u8>>, ids: Seq<Seq<u8>>, id: Seq<u8>)
    ensures
        sum_block_bytes(blocks, ids.push(id)) == sum_block_bytes(blocks, ids) + blocks[id].len(),
    decreases ids.len(),
{
    if ids.len() == 0 {
        assert(ids.push(id)[0] == id);
        assert(ids.push(id).drop_first() =~= Seq::<Seq<u8>>::empty());
        assert(sum_block_bytes(blocks, Seq::<Seq<u8>>::empty()) == 0);
        assert(sum_block_bytes(blocks, ids) == 0);
    } else {
        assert(ids.push(id).drop_first() =~= ids.drop_first().push(id));
        assert(ids.push(id)[0] == ids[0]);
        lemma_sum_block_bytes_snoc(blocks, ids.drop_first(), id);
        assert(sum_block_bytes(blocks, ids.push(id)) == blocks[ids[0]].len() + sum_block_bytes(
            blocks,
            ids.drop_first().push(id),
        ));
    }
}

pub proof fn lemma_sum_block_bytes_nonneg(blocks: Map<Seq<u8>, Seq<u8>>, ids: Seq<Seq<u8>>)
    ensures
        sum_block_bytes(blocks, ids) >= 0,
    decreases ids.len(),
{
    if ids.len() > 0 {
        lemma_sum_block_bytes_nonneg(blocks, ids.drop_first());
    }
}

/// Whether the metadata block is exactly as it was: present iff it was,
/// with the same bytes — the commit discipline's promise on failure.
pub open spec fn meta_block_preserved(pre: Map<Seq<u8>, Seq<u8>>, post: Map<Seq<u8>, Seq<u8>>) -> bool {
    &&& post.contains_key(metadata_block_id()) == pre.contains_key(metadata_block_id())
    &&& pre.contains_key(metadata_block_id()) ==> post[metadata_block_id()]
        == pre[metadata_block_id()]
}

/// The value `x`, held to what a size can represent.
pub open spec fn sat_u64(x: int) -> int {
    if x > u64::MAX {
        u64::MAX as int
    } else {
        x
    }
}

/// A content-addressable, encrypted, deduplicating object store over the
/// backend `S`.
pub struct Repository<S: DataStore> {
    store: S,
    metadata: RepositoryMetadata,
    master_key: Vec<u8>,
    header: Header,
    known: Vec<Vec<u8>>,
    chunks: Ghost<Map<Seq<u8>, Seq<u8>>>,
}

impl<S: DataStore> Repository<S> {
    /// The chunks this handle knows: digest to chunk plaintext.
    pub closed spec fn chunk_map(&self) -> Map<Seq<u8>, Seq<u8>> {
        self.chunks@
    }

    /// The header entries.
    pub closed spec fn entries(&self) -> Seq<EntryModel> {
        self.header@
    }

    /// The blocks of the backing store.
    pub closed spec fn stored_blocks(&self) -> Map<Seq<u8>, Seq<u8>> {
        self.store.blocks()
    }

    /// The repository configuration.
    pub closed spec fn config_spec(&self) -> RepositoryConfig {
        self.metadata.config
    }

    /// The repository identity.
    pub closed spec fn id_spec(&self) -> Seq<u8> {
        self.metadata.id@
    }

    /// The content of the object under `key`, if the key exists and all of
    /// its chunks are known to this handle.
    pub open spec fn content_of(&self, key: Seq<u8>) -> Option<Seq<u8>> {
        match entry_of(self.entries(), key) {
            Some(e) => Some(entry_content(e.chunks, self.chunk_map())),
            None => None,
        }
    }

    /// The internal consistency of a repository handle: the keys are
    /// distinct, and every chunk this handle knows is stored, as a valid
    /// encoding of its plaintext, under the block identifier derived from
    /// its digest.
    pub closed spec fn inv(&self) -> bool {
        &&& self.master_key@.len() == 32
        &&& self.metadata.config.chunker_bits <= 30
        &&& keys_unique(self.header@)
        &&& known_mirrors(self.chunks@, self.known@)
        &&& chunks_stored(
            self.chunks@,
            self.store.blocks(),
            self.metadata.config,
            self.master_key@,
        )
    }

    /// The configuration the repository was created with.
    pub fn config(&self) -> (r: RepositoryConfig)
        ensures
            r == self.config_spec(),
    {
        self.metadata.config
    }

    /// Information about this repository.
    pub fn info(&self) -> (r: RepositoryInfo)
        ensures
            r.id@ == self.id_spec(),
            r.config == self.config_spec(),
    {
        self.metadata.to_info()
    }

    /// The block identifier of a chunk digest.
    fn chunk_id(digest: &Vec<u8>) -> (r: Vec<u8>)
        ensures
            r@ == chunk_block_id(digest@),
    {
        let mut id: Vec<u8> = Vec::new();
        id.push(1u8);
        push_bytes(&mut id, digest.as_slice());
        proof {
            assert(id@ =~= chunk_block_id(digest@));
        }
        id
    }

    /// Store one plaintext chunk, content-addressed by its digest, and
    /// return the digest.  A chunk this handle has already stored is
    /// deduplicated: nothing is read or written again.
    pub fn put_chunk(&mut self, p: &Vec<u8>) -> (r: Result<Vec<u8>, RepoError>)
        requires
            old(self).inv(),
        ensures
            final(self).inv(),
            final(self).entries() == old(self).entries(),
            final(self).config_spec() == old(self).config_spec(),
            final(self).id_spec() == old(self).id_spec(),
            final(self).master_spec() == old(self).master_spec(),
            final(self).metadata_spec() == old(self).metadata_spec(),
            r matches Ok(d) ==> put_outcome(*old(self), *final(self), p@, d@),
            r is Err ==> final(self).chunk_map() == old(self).chunk_map()
                && final(self).stored_blocks() == old(self).stored_blocks(),
    {
        let digest = digest32(p.as_slice());
        let ghost d = digest@;
        if self.contains_chunk(&digest) {
            return Ok(digest);
        }
        let block = encode_chunk(
            self.metadata.config.compression,
            self.metadata.config.encryption,
            &self.master_key,
            p,
        )?;
        let id = Self::chunk_id(&digest);
        let r = self.store.write_block(&id, &block);
        match r {
            Ok(_) => {
                let kd = read_bytes(&digest, 0, digest.len());
                let ghost oldknown = self.known@;
                self.known.push(kd);
                proof {
                    assert(kd@ =~= d);
                    self.chunks@ = self.chunks@.insert(d, p@);
                    assert(known_mirrors(self.chunks@, self.known@)) by {
                        assert forall|x: Seq<u8>|
                            self.chunks@.contains_key(x) implies exists|i: int|
                            0 <= i < self.known@.len() && (#[trigger] self.known@[i])@ == x by {
                            if x == d {
                                assert(self.known@[self.known@.len() - 1]@ == d);
                            } else {
                                let i = choose|i: int|
                                    0 <= i < oldknown.len() && (#[trigger] oldknown[i])@ == x;
                                assert(self.known@[i]@ == x);
                            }
                        }
                        assert forall|x: Seq<u8>|
                            (exists|i: int|
                                0 <= i < self.known@.len() && (#[trigger] self.known@[i])@
                                    == x) implies self.chunks@.contains_key(x) by {
                            let i = choose|i: int|
                                0 <= i < self.known@.len() && (#[trigger] self.known@[i])@ == x;
                            if i < oldknown.len() {
                                assert(oldknown[i]@ == x);
                            }
                        }
                    }
                    assert forall|x: Seq<u8>| #![trigger self.chunks@.contains_key(x)]
                        self.chunks@.contains_key(x) implies {
                            &&& self.store.blocks().contains_key(chunk_block_id(x))
                            &&& block_valid(
                                self.metadata.config.compression,
                                self.metadata.config.encryption,
                                self.master_key@,
                                (#[trigger] self.chunks@[x]),
                                self.store.blocks()[chunk_block_id(x)],
                            )
                            &&& digest_of(self.chunks@[x]) == x
                        } by {
                            if x != d {
                                assert(old(self).chunks@.contains_key(x));
                                assert(self.chunks@[x] == old(self).chunks@[x]);
                                assert(chunk_block_id(x) != chunk_block_id(d)) by {
                                    assert(chunk_block_id(x).skip(1) =~= x);
                                    assert(chunk_block_id(d).skip(1) =~= d);
                                }
                                assert(self.store.blocks().contains_key(chunk_block_id(x)));
                                assert(self.store.blocks()[chunk_block_id(x)] == old(self).store.blocks()[chunk_block_id(x)]);
                            } else {
                                assert(self.store.blocks().contains_key(chunk_block_id(d)));
                                assert(self.store.blocks()[chunk_block_id(d)] == block@);
                                assert(self.chunks@[d] == p@);
                                assert(digest_of(p@) == d);
                            }
                    }
                    assert(chunks_stored(
                        self.chunks@,
                        self.store.blocks(),
                        self.metadata.config,
                        self.master_key@,
                    ));
                    assert(self.header@ == old(self).header@);
                }
                Ok(digest)
            },
            Err(e) => Err(e),
        }
    }

    /// Whether this handle already stored a chunk with this digest.
    fn contains_chunk(&self, digest: &Vec<u8>) -> (r: bool)
        requires
            self.inv(),
        ensures
            r == self.chunk_map().contains_key(digest@),
    {
        let mut i: usize = 0;
        let n = self.known.len();
        let mut found = false;
        while i < n
            invariant
                i <= n,
                n == self.known@.len(),
                found == exists|j: int| 0 <= j < i && (#[trigger] self.known@[j])@ == digest@,
            decreases n - i,
        {
            if bytes_eq(self.known[i].as_slice(), digest.as_slice()) {
                found = true;
            }
            i = i + 1;
        }
        found
    }

    /// Fetch one chunk by digest and decode it back to its plaintext.
    pub fn get_chunk(&mut self, digest: &Vec<u8>) -> (r: Result<Vec<u8>, RepoError>)
        requires
            old(self).inv(),
        ensures
            final(self).inv(),
            final(self).chunk_map() == old(self).chunk_map(),
            final(self).entries() == old(self).entries(),
            final(self).stored_blocks() == old(self).stored_blocks(),
            final(self).config_spec() == old(self).config_spec(),
            final(self).id_spec() == old(self).id_spec(),
            final(self).master_spec() == old(self).master_spec(),
            final(self).metadata_spec() == old(self).metadata_spec(),
            old(self).chunk_map().contains_key(digest@) ==> ((r matches Ok(v) && v@ == old(self).chunk_map()[digest@]) || r == Err::<Vec<u8>, RepoError>(RepoError::Backend)),
            r matches Ok(v) ==> digest_of(v@) == digest@,
            forall|p: Seq<u8>|
                (old(self).stored_blocks().contains_key(chunk_block_id(digest@)) && #[trigger] block_valid(
                    old(self).config_spec().compression,
                    old(self).config_spec().encryption,
                    old(self).master_spec(),
                    p,
                    old(self).stored_blocks()[chunk_block_id(digest@)],
                )) ==> (r matches Ok(v) ==> v@ == p),
    {
        let id = Self::chunk_id(digest);
        let blockopt = match self.store.read_block(&id) {
            Ok(b) => b,
            Err(e) => {
                proof {
                    assert(self.store.blocks() == old(self).store.blocks());
                }
                return Err(e);
            },
        };
        proof {
            assert(self.store.blocks() == old(self).store.blocks());
        }
        let block = match blockopt {
            Some(b) => b,
            None => {
                proof {
                    if old(self).chunks@.contains_key(digest@) {
                        assert(old(self).chunks@[digest@] == old(self).chunks@[digest@]);
                        assert(old(self).store.blocks().contains_key(chunk_block_id(digest@)));
                    }
                }
                return Err(RepoError::NotFound);
            },
        };
        proof {
            if old(self).chunks@.contains_key(digest@) {
                assert(self.store.blocks().contains_key(chunk_block_id(digest@)));
                assert(block@ == self.store.blocks()[chunk_block_id(digest@)]);
                assert(block_valid(
                    self.metadata.config.compression,
                    self.metadata.config.encryption,
                    self.master_key@,
                    self.chunks@[digest@],
                    block@,
                ));
            }
        }
        let pt_r = decode_chunk(
            self.metadata.config.compression,
            self.metadata.config.encryption,
            &self.master_key,
            &block,
        );
        let pt = match pt_r {
            Ok(v) => v,
            Err(e) => { return Err(e) },
        };
        let check = digest32(pt.as_slice());
        if !bytes_eq(check.as_slice(), digest.as_slice()) {
            return Err(RepoError::Corruption);
        }
        proof {
            assert forall|p: Seq<u8>|
                (old(self).stored_blocks().contains_key(chunk_block_id(digest@)) && #[trigger] block_valid(
                    old(self).config_spec().compression,
                    old(self).config_spec().encryption,
                    old(self).master_spec(),
                    p,
                    old(self).stored_blocks()[chunk_block_id(digest@)],
                )) implies pt@ == p by {
                assert(block@ == old(self).stored_blocks()[chunk_block_id(digest@)]);
            }
        }
        Ok(pt)
    }
}

/// What an entry list says of each key, spelled out.
pub proof fn lemma_entry_of_mem(hs: Seq<EntryModel>, k: Seq<u8>)
    ensures
        entry_of(hs, k) matches Some(e) ==> exists|i: int|
            0 <= i < hs.len() && (#[trigger] hs[i]) == e && e.key == k,
        entry_of(hs, k) is None ==> forall|i: int| 0 <= i < hs.len() ==> (#[trigger] hs[i]).key
            != k,
    decreases hs.len(),
{
    if hs.len() > 0 {
        lemma_entry_of_mem(hs.drop_first(), k);
        if hs[0].key != k {
            match entry_of(hs, k) {
                Some(e) => {
                    let i = choose|i: int|
                        0 <= i < hs.drop_first().len() && (#[trigger] hs.drop_first()[i]) == e
                            && e.key == k;
                    assert(hs[i + 1] == e);
                },
                None => {
                    assert forall|i: int| 0 <= i < hs.len() implies (#[trigger] hs[i]).key
                        != k by {
                        if i > 0 {
                            assert(hs.drop_first()[i - 1] == hs[i]);
                        }
                    }
                },
            }
        }
    }
}

/// With distinct keys, the entry under a key is the unique match.
pub proof fn lemma_entry_of_unique(hs: Seq<EntryModel>, k: Seq<u8>, i: int)
    requires
        keys_unique(hs),
        0 <= i < hs.len(),
        hs[i].key == k,
    ensures
        entry_of(hs, k) == Some(hs[i]),
{
    assert(forall|j: int| 0 <= j < i ==> (#[trigger] hs[j]).key != k);
    lemma_entry_of_find(hs, k, i);
}

impl<S: DataStore> Repository<S> {
    /// Whether the repository holds an object under `key`.
    pub fn contains(&self, key: &Vec<u8>) -> (r: bool)
        requires
            self.inv(),
        ensures
            r == (entry_of(self.entries(), key@) is Some),
    {
        let r = self.header.find(key);
        proof {
            match r {
                Some(i) => {
                    lemma_entry_of_unique(self.header@, key@, i as int);
                },
                None => {
                    lemma_entry_of_none(self.header@, key@);
                },
            }
        }
        r.is_some()
    }

    /// Create, or replace, the entry under `key` with the given ordered
    /// chunk references and total size.  Whatever the key held before is
    /// dropped from the index; its chunks stay in the store until a
    /// clean-up pass.
    pub fn set_entry(&mut self, key: &Vec<u8>, chunks: Vec<Chunk>, size: u64)
        requires
            old(self).inv(),
        ensures
            final(self).inv(),
            final(self).chunk_map() == old(self).chunk_map(),
            final(self).stored_blocks() == old(self).stored_blocks(),
            final(self).config_spec() == old(self).config_spec(),
            final(self).id_spec() == old(self).id_spec(),
            entry_of(final(self).entries(), key@) == Some(
                EntryModel { key: key@, chunks: chunks@.map_values(|c: Chunk| c@), size },
            ),
            forall|k: Seq<u8>|
                k != key@ ==> entry_of(final(self).entries(), k) == entry_of(
                    old(self).entries(),
                    k,
                ),
    {
        let found = self.header.find(key);
        let ghost hs0 = self.header@;
        match found {
            Some(i) => {
                self.header.entries.remove(i);
                proof {
                    assert(self.header@ =~= hs0.remove(i as int));
                }
            },
            None => {
            },
        }
        let ghost hs1 = self.header@;
        proof {
            assert(keys_unique(hs1)) by {
                match found {
                    Some(i) => {
                        assert(forall|a: int|
                            0 <= a < hs1.len() ==> #[trigger] hs1[a] == if a < i as int {
                                hs0[a]
                            } else {
                                hs0[a + 1]
                            });
                    },
                    None => {
                    },
                }
            }
            assert(forall|a: int| 0 <= a < hs1.len() ==> (#[trigger] hs1[a]).key != key@) by {
                match found {
                    Some(i) => {
                        assert(forall|a: int|
                            0 <= a < hs1.len() ==> #[trigger] hs1[a] == if a < i as int {
                                hs0[a]
                            } else {
                                hs0[a + 1]
                            });
                        assert(hs0[i as int].key == key@);
                    },
                    None => {
                    },
                }
            }
        }
        let kcopy = read_bytes(key, 0, key.len());
        proof {
            assert(kcopy@ =~= key@);
        }
        let ghost cm = chunks@.map_values(|c: Chunk| c@);
        let entry = HeaderEntry { key: kcopy, chunks, size };
        proof {
            assert(entry@ == (EntryModel { key: key@, chunks: cm, size }));
        }
        self.header.entries.push(entry);
        proof {
            let hs2 = self.header@;
            assert(hs2 =~= hs1.push(EntryModel { key: key@, chunks: cm, size }));
            assert(keys_unique(hs2)) by {
                assert(forall|a: int| 0 <= a < hs1.len() ==> #[trigger] hs2[a] == hs1[a]);
            }
            lemma_entry_of_unique(hs2, key@, hs2.len() - 1);
            assert forall|k: Seq<u8>| k != key@ implies entry_of(hs2, k) == entry_of(
                hs0,
                k,
            ) by {
                lemma_entry_of_mem(hs0, k);
                lemma_entry_of_mem(hs2, k);
                match entry_of(hs0, k) {
                    Some(e) => {
                        let a = choose|a: int|
                            0 <= a < hs0.len() && (#[trigger] hs0[a]) == e && e.key == k;
                        assert(exists|b: int| 0 <= b < hs2.len() && (#[trigger] hs2[b]) == e) by {
                            match found {
                                Some(i) => {
                                    if a < i as int {
                                        assert(hs2[a] == e);
                                    } else {
                                        assert(hs2[a - 1] == hs1[a - 1]);
                                        assert(hs1[a - 1] == hs0[a]);
                                        assert(hs2[a - 1] == e);
                                    }
                                },
                                None => {
                                    assert(hs2[a] == e);
                                },
                            }
                        }
                        let b = choose|b: int| 0 <= b < hs2.len() && (#[trigger] hs2[b]) == e;
                        lemma_entry_of_unique(hs2, k, b);
                    },
                    None => {
                        assert forall|b: int| 0 <= b < hs2.len() implies (#[trigger] hs2[b]).key
                            != k by {
                            if b < hs1.len() {
                                match found {
                                    Some(i) => {
                                        if b < i as int {
                                            assert(hs2[b] == hs0[b]);
                                        } else {
                                            assert(hs2[b] == hs0[b + 1]);
                                        }
                                    },
                                    None => {
                                        assert(hs2[b] == hs0[b]);
                                    },
                                }
                            }
                        }
                        lemma_entry_of_none(hs2, k);
                    },
                }
            }
        }
    }

    /// Create, or replace with an empty one, the entry under `key`.
    /// Whatever the key held before is dropped from the index; its chunks
    /// stay in the store until a clean-up pass.
    pub fn insert(&mut self, key: &Vec<u8>)
        requires
            old(self).inv(),
        ensures
            final(self).inv(),
            final(self).chunk_map() == old(self).chunk_map(),
            final(self).stored_blocks() == old(self).stored_blocks(),
            final(self).config_spec() == old(self).config_spec(),
            final(self).id_spec() == old(self).id_spec(),
            entry_of(final(self).entries(), key@) == Some(
                EntryModel { key: key@, chunks: Seq::empty(), size: 0 },
            ),
            forall|k: Seq<u8>|
                k != key@ ==> entry_of(final(self).entries(), k) == entry_of(
                    old(self).entries(),
                    k,
                ),
    {
        let empty: Vec<Chunk> = Vec::new();
        proof {
            assert(empty@.map_values(|c: Chunk| c@) =~= Seq::<ChunkModel>::empty());
        }
        self.set_entry(key, empty, 0);
    }

    /// Remove the entry under `key` from the index; the chunks it
    /// referenced stay in the store until a clean-up pass.
    pub fn remove(&mut self, key: &Vec<u8>) -> (r: bool)
        requires
            old(self).inv(),
        ensures
            final(self).inv(),
            final(self).chunk_map() == old(self).chunk_map(),
            final(self).stored_blocks() == old(self).stored_blocks(),
            final(self).config_spec() == old(self).config_spec(),
            final(self).id_spec() == old(self).id_spec(),
            r == (entry_of(old(self).entries(), key@) is Some),
            entry_of(final(self).entries(), key@) is None,
            forall|k: Seq<u8>|
                k != key@ ==> entry_of(final(self).entries(), k) == entry_of(
                    old(self).entries(),
                    k,
                ),
    {
        let found = self.header.find(key);
        let ghost hs0 = self.header@;
        proof {
            match found {
                Some(i) => {
                    lemma_entry_of_unique(hs0, key@, i as int);
                },
                None => {
                    lemma_entry_of_none(hs0, key@);
                },
            }
        }
        match found {
            Some(i) => {
                self.header.entries.remove(i);
                proof {
                    let hs1 = self.header@;
                    assert(hs1 =~= hs0.remove(i as int));
                    assert(forall|a: int|
                        0 <= a < hs1.len() ==> #[trigger] hs1[a] == if a < i as int {
                            hs0[a]
                        } else {
                            hs0[a + 1]
                        });
                    assert(keys_unique(hs1));
                    assert(forall|a: int| 0 <= a < hs1.len() ==> (#[trigger] hs1[a]).key != key@);
                    lemma_entry_of_none(hs1, key@);
                    assert forall|k: Seq<u8>| k != key@ implies entry_of(hs1, k) == entry_of(
                        hs0,
                        k,
                    ) by {
                        lemma_entry_of_mem(hs0, k);
                        lemma_entry_of_mem(hs1, k);
                        match entry_of(hs0, k) {
                            Some(e) => {
                                let a = choose|a: int|
                                    0 <= a < hs0.len() && (#[trigger] hs0[a]) == e && e.key == k;
                                assert(a != i as int);
                                if a < i as int {
                                    assert(hs1[a] == e);
                                    lemma_entry_of_unique(hs1, k, a);
                                } else {
                                    assert(hs1[a - 1] == e);
                                    lemma_entry_of_unique(hs1, k, a - 1);
                                }
                            },
                            None => {
                                assert forall|b: int|
                                    0 <= b < hs1.len() implies (#[trigger] hs1[b]).key != k by {
                                    if b < i as int {
                                        assert(hs1[b] == hs0[b]);
                                    } else {
                                        assert(hs1[b] == hs0[b + 1]);
                                    }
                                }
                                lemma_entry_of_none(hs1, k);
                            },
                        }
                    }
                }
                true
            },
            None => {
                proof {
                    lemma_entry_of_none(self.header@, key@);
                }
                false
            },
        }
    }

    /// Every logical key, in index order.
    pub fn keys(&self) -> (r: Vec<Vec<u8>>)
        requires
            self.inv(),
        ensures
            r@.len() == self.entries().len(),
            forall|i: int| 0 <= i < r@.len() ==> (#[trigger] r@[i])@ == self.entries()[i].key,
    {
        let n = self.header.entries.len();
        let mut out: Vec<Vec<u8>> = Vec::new();
        let mut i: usize = 0;
        while i < n
            invariant
                i <= n,
                n == self.header.entries@.len(),
                out@.len() == i,
                forall|j: int| 0 <= j < i ==> (#[trigger] out@[j])@ == self.entries()[j].key,
            decreases n - i,
        {
            let k = read_bytes(&self.header.entries[i].key, 0, self.header.entries[i].key.len());
            proof {
                assert(k@ =~= self.header.entries@[i as int].key@);
            }
            out.push(k);
            i = i + 1;
        }
        out
    }
}

/// The sum of the sizes of all entries.
pub open spec fn sum_entry_sizes(hs: Seq<EntryModel>) -> int
    decreases hs.len(),
{
    if hs.len() == 0 {
        0
    } else {
        hs[0].size + sum_entry_sizes(hs.drop_first())
    }
}

impl<S: DataStore> Repository<S> {
    /// The metadata record, as stored.
    pub closed spec fn metadata_spec(&self) -> crate::metadata::MetadataModel {
        self.metadata@
    }

    /// The unwrapped master data key this handle works with.
    pub closed spec fn master_spec(&self) -> Seq<u8> {
        self.master_key@
    }

    /// Serialize the header, push it through the chunker, codec and chunk
    /// store like any object, record the chunk list in a pointer block
    /// under a fresh identifier, and only then switch the metadata block
    /// to it — so a failure part-way leaves the prior metadata, pointing
    /// at the prior header, intact.
    fn commit_header(&mut self) -> (r: Result<(), RepoError>)
        requires
            old(self).inv(),
        ensures
            final(self).inv(),
            final(self).entries() == old(self).entries(),
            final(self).config_spec() == old(self).config_spec(),
            final(self).id_spec() == old(self).id_spec(),
            final(self).master_spec() == old(self).master_spec(),
            forall|d: Seq<u8>| #![trigger old(self).chunk_map().contains_key(d)]
                old(self).chunk_map().contains_key(d) ==> final(self).chunk_map().contains_key(d)
                    && final(self).chunk_map()[d] == old(self).chunk_map()[d],
            r is Ok ==> final(self).stored_blocks().contains_key(metadata_block_id()) && final(self).stored_blocks()[metadata_block_id()] == crate::metadata::metadata_bytes(
                final(self).metadata_spec(),
            ),
            r is Err ==> meta_block_preserved(
                old(self).stored_blocks(),
                final(self).stored_blocks(),
            ),
    {
        let bytes = encode_header(&self.header);
        let mut chunker = Chunker::new(self.metadata.config.chunker_bits);
        chunker.update(bytes.as_slice());
        let hchunks = chunker.finish();
        let mut refs: Vec<Chunk> = Vec::new();
        let mut total: u64 = 0;
        let n = hchunks.len();
        let mut i: usize = 0;
        while i < n
            invariant
                i <= n,
                n == hchunks@.len(),
                self.inv(),
                self.entries() == old(self).entries(),
                self.config_spec() == old(self).config_spec(),
                self.id_spec() == old(self).id_spec(),
                self.master_spec() == old(self).master_spec(),
                self.metadata_spec() == old(self).metadata_spec(),
                forall|d: Seq<u8>| #![trigger old(self).chunk_map().contains_key(d)]
                    old(self).chunk_map().contains_key(d) ==> self.chunk_map().contains_key(d)
                        && self.chunk_map()[d] == old(self).chunk_map()[d],
                meta_block_preserved(old(self).stored_blocks(), self.stored_blocks()),
            decreases n - i,
        {
            let clen = hchunks[i].len();
            if clen as u64 > u64::MAX - total {
                return Err(RepoError::Corruption);
            }
            let d = self.put_chunk(&hchunks[i])?;
            proof {
                assert(chunk_block_id(d@) != metadata_block_id()) by {
                    assert(chunk_block_id(d@)[0] == 1u8);
                    assert(metadata_block_id()[0] == 0u8);
                }
            }
            total = total + clen as u64;
            refs.push(Chunk { digest: d, size: clen as u64 });
            i = i + 1;
        }
        let ptr_header = Header {
            entries: {
                let mut es: Vec<HeaderEntry> = Vec::new();
                es.push(HeaderEntry { key: Vec::new(), chunks: refs, size: total });
                es
            },
        };
        let ptr_bytes = encode_header(&ptr_header);
        let ptr_block = encode_chunk(
            self.metadata.config.compression,
            self.metadata.config.encryption,
            &self.master_key,
            &ptr_bytes,
        )?;
        let mut ptr_id: Vec<u8> = Vec::new();
        ptr_id.push(2u8);
        let fresh = random_bytes(16)?;
        push_bytes(&mut ptr_id, fresh.as_slice());
        let ghost pre_ptr = *self;
        proof {
            assert(ptr_id@[0] == 2u8);
            assert(metadata_block_id()[0] == 0u8);
        }
        match self.store.write_block(&ptr_id, &ptr_block) {
            Ok(_) => {},
            Err(e) => {
                proof {
                    self.prove_inv_after_foreign_write(pre_ptr, ptr_id@);
                }
                return Err(e);
            },
        }
        proof {
            self.prove_inv_after_foreign_write(pre_ptr, ptr_id@);
            assert(ptr_id@ != metadata_block_id());
        }
        self.metadata.header_ptr = ptr_id;
        let meta_bytes = encode_metadata(&self.metadata);
        let mid: Vec<u8> = {
            let mut v: Vec<u8> = Vec::new();
            v.push(0u8);
            v
        };
        proof {
            assert(mid@ =~= metadata_block_id());
        }
        let ghost pre_meta = *self;
        match self.store.write_block(&mid, &meta_bytes) {
            Ok(_) => {},
            Err(e) => {
                proof {
                    self.prove_inv_after_foreign_write(pre_meta, metadata_block_id());
                }
                return Err(e);
            },
        }
        proof {
            self.prove_inv_after_foreign_write(pre_meta, metadata_block_id());
        }
        Ok(())
    }

    /// A write to a block identifier that is not a chunk block keeps the
    /// chunk invariant.
    proof fn prove_inv_after_foreign_write(&self, pre: Self, id: Seq<u8>)
        requires
            pre.inv(),
            self.master_key@ == pre.master_key@,
            self.metadata.config == pre.metadata.config,
            self.header@ == pre.header@,
            self.known@ == pre.known@,
            self.chunks@ == pre.chunks@,
            id.len() >= 1,
            id[0] != 1u8,
            self.store.blocks() == pre.store.blocks() || self.store.blocks()
                == pre.store.blocks().insert(id, self.store.blocks()[id]),
        ensures
            self.inv(),
    {
        assert(chunks_stored(
            self.chunks@,
            self.store.blocks(),
            self.metadata.config,
            self.master_key@,
        )) by {
            assert forall|x: Seq<u8>| #![trigger self.chunks@.contains_key(x)]
                self.chunks@.contains_key(x) implies {
                    &&& self.store.blocks().contains_key(chunk_block_id(x))
                    &&& block_valid(
                        self.metadata.config.compression,
                        self.metadata.config.encryption,
                        self.master_key@,
                        (self.chunks@[x]),
                        self.store.blocks()[chunk_block_id(x)],
                    )
                    &&& digest_of(self.chunks@[x]) == x
                } by {
                assert(pre.chunks@.contains_key(x));
                assert(self.chunks@[x] == pre.chunks@[x]);
                assert(chunk_block_id(x) != id) by {
                    assert(chunk_block_id(x)[0] == 1u8);
                }
            }
        }
    }

    /// Commit the header and metadata: the durability boundary.
    pub fn flush_all(&mut self) -> (r: Result<(), RepoError>)
        requires
            old(self).inv(),
        ensures
            final(self).inv(),
            final(self).entries() == old(self).entries(),
            final(self).config_spec() == old(self).config_spec(),
            final(self).id_spec() == old(self).id_spec(),
            forall|d: Seq<u8>| #![trigger old(self).chunk_map().contains_key(d)]
                old(self).chunk_map().contains_key(d) ==> final(self).chunk_map().contains_key(d)
                    && final(self).chunk_map()[d] == old(self).chunk_map()[d],
            r is Ok ==> final(self).stored_blocks().contains_key(metadata_block_id()) && final(self).stored_blocks()[metadata_block_id()] == crate::metadata::metadata_bytes(
                final(self).metadata_spec(),
            ),
            r is Err ==> meta_block_preserved(
                old(self).stored_blocks(),
                final(self).stored_blocks(),
            ),
    {
        self.commit_header()
    }

    /// Release the lock and hand the backing store back.
    pub fn close(self, table: &mut LockTable) -> (r: S)
        ensures
            !final(table).holds(self.id_spec()),
            forall|x: Seq<u8>|
                x != self.id_spec() ==> final(table).holds(x) == old(table).holds(x),
    {
        let Repository { store, metadata, master_key: _, header: _, known: _, chunks: _ } = self;
        table.release(&metadata.id);
        store
    }

    /// Apparent and actual storage use: the sum of all object sizes, and
    /// the bytes the backing store holds in blocks, each saturating at the
    /// largest representable size.
    pub fn stats(&mut self) -> (r: Result<RepositoryStats, RepoError>)
        requires
            old(self).inv(),
        ensures
            final(self).inv(),
            final(self).entries() == old(self).entries(),
            final(self).chunk_map() == old(self).chunk_map(),
            final(self).stored_blocks() == old(self).stored_blocks(),
            final(self).config_spec() == old(self).config_spec(),
            final(self).id_spec() == old(self).id_spec(),
            r matches Ok(st) ==> (sum_entry_sizes(old(self).entries()) <= u64::MAX
                ==> st.apparent_size == sum_entry_sizes(old(self).entries())),
            r matches Ok(st) ==> exists|ids: Seq<Seq<u8>>|
                {
                    &&& #[trigger] crate::store::lists_blocks_model(
                        old(self).stored_blocks(),
                        ids,
                    )
                    &&& st.actual_size == sat_u64(
                        sum_block_bytes(old(self).stored_blocks(), ids),
                    )
                },
    {
        let n = self.header.entries.len();
        let mut apparent: u64 = 0;
        let mut sat = false;
        let mut i: usize = 0;
        proof {
            assert(self.header@.take(0) =~= Seq::<EntryModel>::empty());
        }
        while i < n
            invariant
                i <= n,
                n == self.header.entries@.len(),
                !sat ==> apparent == sum_entry_sizes(self.entries().take(i as int)),
                sat ==> sum_entry_sizes(self.entries().take(i as int)) > u64::MAX,
                sum_entry_sizes(self.entries().take(i as int)) >= apparent,
            decreases n - i,
        {
            let sz = self.header.entries[i].size;
            proof {
                lemma_sum_entry_sizes_snoc(self.entries().take(i as int), self.entries()[i as int]);
                assert(self.entries().take(i + 1) =~= self.entries().take(i as int).push(
                    self.entries()[i as int],
                ));
            }
            if sz > u64::MAX - apparent {
                sat = true;
                apparent = u64::MAX;
            } else {
                if sat {
                    apparent = u64::MAX;
                } else {
                    apparent = apparent + sz;
                }
            }
            i = i + 1;
        }
        proof {
            assert(self.entries().take(n as int) =~= self.entries());
        }
        let ids = self.store.list_blocks()?;
        let ghost idv = ids@.map_values(|v: Vec<u8>| v@);
        let ghost blocks0 = self.stored_blocks();
        let mut actual: u64 = 0;
        let mut asat = false;
        let m = ids.len();
        let mut j: usize = 0;
        proof {
            assert(idv.take(0) =~= Seq::<Seq<u8>>::empty());
        }
        while j < m
            invariant
                j <= m,
                m == ids@.len(),
                idv == ids@.map_values(|v: Vec<u8>| v@),
                self.inv(),
                self.entries() == old(self).entries(),
                self.chunk_map() == old(self).chunk_map(),
                self.stored_blocks() == old(self).stored_blocks(),
                self.config_spec() == old(self).config_spec(),
                self.id_spec() == old(self).id_spec(),
                blocks0 == old(self).stored_blocks(),
                forall|k: int| 0 <= k < m ==> blocks0.contains_key((#[trigger] ids@[k])@),
                !asat ==> actual == sum_block_bytes(blocks0, idv.take(j as int)),
                asat ==> sum_block_bytes(blocks0, idv.take(j as int)) > u64::MAX && actual
                    == u64::MAX,
                sum_block_bytes(blocks0, idv.take(j as int)) >= actual,
            decreases m - j,
        {
            proof {
                lemma_sum_block_bytes_snoc(blocks0, idv.take(j as int), idv[j as int]);
                assert(idv.take(j + 1) =~= idv.take(j as int).push(idv[j as int]));
            }
            match self.store.read_block(&ids[j]) {
                Ok(Some(b)) => {
                    proof {
                        assert(b@ == blocks0[idv[j as int]]);
                    }
                    let bl = b.len() as u64;
                    if bl > u64::MAX - actual {
                        asat = true;
                        actual = u64::MAX;
                    } else {
                        if asat {
                            actual = u64::MAX;
                        } else {
                            actual = actual + bl;
                        }
                    }
                },
                Ok(None) => {
                    proof {
                        assert(blocks0.contains_key(ids@[j as int]@));
                        assert(false);
                    }
                },
                Err(e) => { return Err(e) },
            }
            j = j + 1;
        }
        proof {
            assert(idv.take(m as int) =~= idv);
            assert(crate::store::lists_blocks_model(blocks0, idv)) by {
                assert(crate::store::lists_blocks(blocks0, ids@));
                assert forall|k: int|
                    0 <= k < idv.len() implies blocks0.contains_key(#[trigger] idv[k]) by {
                    assert(idv[k] == ids@[k]@);
                }
                assert forall|id: Seq<u8>|
                    blocks0.contains_key(id) implies exists|k: int|
                    0 <= k < idv.len() && idv[k] == id by {
                    let k = choose|k: int| 0 <= k < ids@.len() && (#[trigger] ids@[k])@ == id;
                    assert(idv[k] == id);
                }
                assert forall|k1: int, k2: int|
                    0 <= k1 < k2 < idv.len() implies (#[trigger] idv[k1]) != (
                #[trigger] idv[k2]) by {
                    assert(idv[k1] == ids@[k1]@ && idv[k2] == ids@[k2]@);
                }
            }
        }
        Ok(RepositoryStats { apparent_size: apparent, actual_size: actual })
    }
}

pub proof fn lemma_sum_entry_sizes_snoc(hs: Seq<EntryModel>, e: EntryModel)
    ensures
        sum_entry_sizes(hs.push(e)) == sum_entry_sizes(hs) + e.size,
    decreases hs.len(),
{
    if hs.len() == 0 {
        assert(hs.push(e)[0] == e);
        assert(hs.push(e).drop_first() =~= Seq::<EntryModel>::empty());
        assert(sum_entry_sizes(Seq::<EntryModel>::empty()) == 0);
        assert(sum_entry_sizes(hs) == 0);
    } else {
        assert(hs.push(e).drop_first() =~= hs.drop_first().push(e));
        assert(hs.push(e)[0] == hs[0]);
        lemma_sum_entry_sizes_snoc(hs.drop_first(), e);
        assert(sum_entry_sizes(hs.push(e)) == hs[0].size + sum_entry_sizes(
            hs.drop_first().push(e),
        ));
    }
}

impl<S: DataStore> Repository<S> {
    /// Create a new repository on `store`, locked in `table`.
    ///
    /// Fails with `AlreadyExists` if the store already holds a repository.
    /// A fresh master data key is generated and wrapped under a key derived
    /// from `secret`; the configuration is immutable from here on.
    pub fn create(
        store: S,
        config: RepositoryConfig,
        secret: &Vec<u8>,
        now: u64,
        table: &mut LockTable,
    ) -> (r: Result<Repository<S>, RepoError>)
        requires
            config.chunker_bits <= 30,
            secret@.len() <= u32::MAX,
        ensures
            r matches Ok(repo) ==> {
                &&& repo.inv()
                &&& repo.entries().len() == 0
                &&& repo.config_spec() == config
                &&& final(table).holds(repo.id_spec())
                &&& !store.blocks().contains_key(metadata_block_id())
            },
            store.blocks().contains_key(metadata_block_id()) ==> (r matches Err(e) && (e
                == RepoError::AlreadyExists || e == RepoError::Backend)),
            r is Err ==> forall|x: Seq<u8>| final(table).holds(x) == old(table).holds(x),
    {
        let mut store = store;
        let mid: Vec<u8> = {
            let mut v: Vec<u8> = Vec::new();
            v.push(0u8);
            v
        };
        proof {
            assert(mid@ =~= metadata_block_id());
        }
        match store.read_block(&mid) {
            Ok(Some(_)) => { return Err(RepoError::AlreadyExists) },
            Ok(None) => {},
            Err(e) => { return Err(e) },
        }
        let salt = random_bytes(16)?;
        let master = random_bytes(32)?;
        let kek = derive_kek(secret, &salt, config.memory_limit, config.operations_limit)?;
        let wrapped = wrap_master(&kek, &master)?;
        let id = random_bytes(16)?;
        let idcopy = read_bytes(&id, 0, id.len());
        table.acquire(&idcopy, LockStrategy::Abort)?;
        let metadata = RepositoryMetadata {
            id,
            config,
            master_key: wrapped,
            salt,
            header_ptr: Vec::new(),
            creation_time: now,
        };
        let mut repo = Repository {
            store,
            metadata,
            master_key: master,
            header: Header::new(),
            known: Vec::new(),
            chunks: Ghost(Map::empty()),
        };
        proof {
            assert(known_mirrors(repo.chunks@, repo.known@)) by {
                assert(forall|d: Seq<u8>| !repo.chunks@.contains_key(d));
            }
            assert(chunks_stored(
                repo.chunks@,
                repo.store.blocks(),
                repo.metadata.config,
                repo.master_key@,
            )) by {
                assert(forall|d: Seq<u8>| !repo.chunks@.contains_key(d));
            }
            assert(repo.header@ =~= Seq::<EntryModel>::empty());
            assert(repo.inv());
        }
        match repo.commit_header() {
            Ok(_) => {},
            Err(e) => {
                proof {
                    assert(repo.metadata.id@ == idcopy@);
                }
                table.release(&repo.metadata.id);
                proof {
                    assert forall|x: Seq<u8>| table.holds(x) == old(table).holds(x) by {
                        if x != idcopy@ {
                        }
                    }
                }
                return Err(e);
            },
        }
        proof {
            assert(idcopy@ == repo.id_spec());
        }
        Ok(repo)
    }

    /// Open the repository on `store` with the given secret.
    ///
    /// A missing repository is `NotFound`; an unreadable format version is
    /// `UnsupportedFormat`; a held lock under the abort strategy is
    /// `AlreadyLocked`; a wrong secret fails the master-key authentication
    /// check.  A successful open carries exactly the master key that the
    /// stored metadata wraps under the secret-derived key — never a
    /// silently corrupt one.
    #[verifier::rlimit(100)]
    pub fn open(store: S, secret: &Vec<u8>, table: &mut LockTable) -> (r: Result<
        Repository<S>,
        RepoError,
    >)
        requires
            secret@.len() <= u32::MAX,
        ensures
            r matches Ok(repo) ==> {
                &&& repo.inv()
                &&& final(table).holds(repo.id_spec())
                &&& entries_sized(repo.entries())
                &&& crate::metadata::parse_metadata_spec(
                    store.blocks()[metadata_block_id()],
                ) matches Some(m) && repo.config_spec() == m.config && wrapped_valid(
                    kdf_of(
                        secret@,
                        m.salt,
                        m_cost_spec(m.config.memory_limit),
                        t_cost_spec(m.config.operations_limit),
                    ),
                    repo.master_spec(),
                    m.master_key,
                ) && (forall|hs: Seq<EntryModel>|
                    header_stored(store.blocks(), m, repo.master_spec(), hs)
                        ==> repo.entries() == hs)
            },
            !store.blocks().contains_key(metadata_block_id()) ==> (r matches Err(e) && (e
                == RepoError::NotFound || e == RepoError::Backend)),
            (store.blocks().contains_key(metadata_block_id())
                && crate::metadata::version_mismatch(store.blocks()[metadata_block_id()])) ==> (
            r matches Err(e) && (e == RepoError::UnsupportedFormat || e == RepoError::Backend)),
            (store.blocks().contains_key(metadata_block_id()) && (
            crate::metadata::parse_metadata_spec(store.blocks()[metadata_block_id()]) matches Some(
                m,
            ) && m.salt.len() == 16 && old(table).holds(m.id))) ==> (r matches Err(e) && (e
                == RepoError::AlreadyLocked || e == RepoError::Backend)),
            (store.blocks().contains_key(metadata_block_id()) && (
            crate::metadata::parse_metadata_spec(store.blocks()[metadata_block_id()]) matches Some(
                m,
            ) && m.salt.len() == 16 && !old(table).holds(m.id) && (forall|mk: Seq<u8>|
                !wrapped_valid(
                    kdf_of(
                        secret@,
                        m.salt,
                        m_cost_spec(m.config.memory_limit),
                        t_cost_spec(m.config.operations_limit),
                    ),
                    mk,
                    m.master_key,
                )))) ==> (r matches Err(e) && (e == RepoError::AuthenticationFailure || e
                == RepoError::Backend)),
    {
        let mut st = store;
        let mid: Vec<u8> = {
            let mut v: Vec<u8> = Vec::new();
            v.push(0u8);
            v
        };
        proof {
            assert(mid@ =~= metadata_block_id());
        }
        let meta_bytes = match st.read_block(&mid) {
            Ok(Some(b)) => b,
            Ok(None) => { return Err(RepoError::NotFound) },
            Err(e) => { return Err(e) },
        };
        proof {
            assert(store.blocks().contains_key(metadata_block_id()));
            assert(meta_bytes@ == store.blocks()[metadata_block_id()]);
        }
        let metadata = match decode_metadata(&meta_bytes) {
            Ok(m) => m,
            Err(e) => { return Err(e) },
        };
        proof {
            assert(crate::metadata::parse_metadata_spec(store.blocks()[metadata_block_id()])
                == Some(metadata@));
        }
        if metadata.salt.len() != 16 {
            return Err(RepoError::Corruption);
        }
        let idcopy = read_bytes(&metadata.id, 0, metadata.id.len());
        proof {
            assert(idcopy@ =~= metadata@.id);
        }
        match table.acquire(&idcopy, LockStrategy::Abort) {
            Ok(_) => {},
            Err(e) => { return Err(e) },
        }
        let kek = match derive_kek(
            secret,
            &metadata.salt,
            metadata.config.memory_limit,
            metadata.config.operations_limit,
        ) {
            Ok(k) => k,
            Err(e) => {
                table.release(&idcopy);
                return Err(e);
            },
        };
        let master = match unwrap_master(&kek, &metadata.master_key) {
            Ok(m) => m,
            Err(e) => {
                table.release(&idcopy);
                return Err(e);
            },
        };
        proof {
            assert(wrapped_valid(
                kdf_of(
                    secret@,
                    metadata@.salt,
                    m_cost_spec(metadata@.config.memory_limit),
                    t_cost_spec(metadata@.config.operations_limit),
                ),
                master@,
                metadata@.master_key,
            ));
        }
        if master.len() != 32 {
            table.release(&idcopy);
            return Err(RepoError::Corruption);
        }
        let mut repo = Repository {
            store: st,
            metadata,
            master_key: master,
            header: Header::new(),
            known: Vec::new(),
            chunks: Ghost(Map::empty()),
        };
        proof {
            assert(known_mirrors(repo.chunks@, repo.known@)) by {
                assert(forall|d: Seq<u8>| !repo.chunks@.contains_key(d));
            }
            assert(chunks_stored(
                repo.chunks@,
                repo.store.blocks(),
                repo.metadata.config,
                repo.master_key@,
            )) by {
                assert(forall|d: Seq<u8>| !repo.chunks@.contains_key(d));
            }
            assert(repo.header@ =~= Seq::<EntryModel>::empty());
            assert(repo.stored_blocks() == store.blocks());
        }
        match repo.load_header() {
            Ok(_) => {},
            Err(e) => {
                table.release(&repo.metadata.id);
                return Err(e);
            },
        }
        proof {
            assert(idcopy@ == repo.id_spec());
            assert(repo.metadata_spec() == metadata@);
            assert(repo.stored_blocks() == store.blocks());
        }
        Ok(repo)
    }

    /// Read the pointer block, fetch and decode the header's own chunks,
    /// and reassemble the header; its keys must be pairwise distinct.
    fn load_header(&mut self) -> (r: Result<(), RepoError>)
        requires
            old(self).inv(),
        ensures
            final(self).inv(),
            final(self).config_spec() == old(self).config_spec(),
            final(self).id_spec() == old(self).id_spec(),
            final(self).master_spec() == old(self).master_spec(),
            final(self).metadata_spec() == old(self).metadata_spec(),
            final(self).stored_blocks() == old(self).stored_blocks(),
            r is Ok ==> entries_sized(final(self).entries()),
            r is Ok ==> forall|hs: Seq<EntryModel>|
                header_stored(
                    old(self).stored_blocks(),
                    old(self).metadata_spec(),
                    old(self).master_spec(),
                    hs,
                ) ==> final(self).entries() == hs,
    {
        let ghost blocks0 = self.store.blocks();
        let ghost m0 = self.metadata@;
        let ghost master0 = self.master_key@;
        let ghost cfg0 = self.metadata.config;
        let ptr_id = read_bytes(&self.metadata.header_ptr, 0, self.metadata.header_ptr.len());
        proof {
            assert(ptr_id@ =~= m0.header_ptr);
        }
        let ptr_block = match self.store.read_block(&ptr_id) {
            Ok(Some(b)) => b,
            Ok(None) => { return Err(RepoError::Corruption) },
            Err(e) => { return Err(e) },
        };
        let ptr_bytes = decode_chunk(
            self.metadata.config.compression,
            self.metadata.config.encryption,
            &self.master_key,
            &ptr_block,
        )?;
        let ptr_header = decode_header(&ptr_bytes)?;
        if ptr_header.entries.len() != 1 {
            return Err(RepoError::Corruption);
        }
        let ghost refs_m = ptr_header@[0].chunks;
        let refs = &ptr_header.entries[0].chunks;
        proof {
            assert(refs@.map_values(|c: Chunk| c@) == refs_m);
        }
        let mut bytes: Vec<u8> = Vec::new();
        let n = refs.len();
        let mut i: usize = 0;
        let ghost mut actual: Seq<Seq<u8>> = Seq::empty();
        proof {
            assert(bytes@ =~= crate::chunker::concat_of(actual));
        }
        while i < n
            invariant
                i <= n,
                n == refs@.len(),
                refs@.map_values(|c: Chunk| c@) == refs_m,
                refs_m.len() == n,
                self.inv(),
                self.config_spec() == old(self).config_spec(),
                self.id_spec() == old(self).id_spec(),
                self.master_spec() == old(self).master_spec(),
                self.metadata_spec() == old(self).metadata_spec(),
                self.entries() == old(self).entries(),
                self.stored_blocks() == blocks0,
                blocks0 == old(self).stored_blocks(),
                m0 == old(self).metadata_spec(),
                master0 == old(self).master_spec(),
                cfg0 == m0.config,
                cfg0 == self.config_spec(),
                actual.len() == i,
                bytes@ == crate::chunker::concat_of(actual),
                forall|k: int, p: Seq<u8>|
                    0 <= k < i && blocks0.contains_key(chunk_block_id(refs_m[k].digest))
                        && #[trigger] block_valid(
                        cfg0.compression,
                        cfg0.encryption,
                        master0,
                        p,
                        blocks0[chunk_block_id(refs_m[k].digest)],
                    ) ==> actual[k] == p,
            decreases n - i,
        {
            let chunk = self.get_chunk(&refs[i].digest)?;
            let ghost oldactual = actual;
            push_bytes(&mut bytes, chunk.as_slice());
            proof {
                actual = actual.push(chunk@);
                assert(refs@[i as int]@ == refs_m[i as int]);
                crate::chunker::lemma_concat_push(oldactual, chunk@);
                assert(bytes@ == crate::chunker::concat_of(actual));
                assert forall|k: int, p: Seq<u8>|
                    0 <= k < i + 1 && blocks0.contains_key(chunk_block_id(refs_m[k].digest))
                        && #[trigger] block_valid(
                        cfg0.compression,
                        cfg0.encryption,
                        master0,
                        p,
                        blocks0[chunk_block_id(refs_m[k].digest)],
                    ) implies actual[k] == p by {
                    if k < i {
                        assert(oldactual[k] == p);
                        assert(actual[k] == oldactual[k]);
                    } else {
                        assert(chunk@ == p);
                    }
                }
            }
            i = i + 1;
        }
        let header = decode_header(&bytes)?;        let header = decode_header(&bytes)?;
        if !check_keys_unique(&header) {
            return Err(RepoError::Corruption);
        }
        if !check_entries_sized(&header) {
            return Err(RepoError::Corruption);
        }
        let ghost hm = header@;
        self.header = header;
        proof {
            assert forall|hs: Seq<EntryModel>|
                header_stored(blocks0, m0, master0, hs) implies self.entries() == hs by {
                let (pb, refsw, hb) = choose|pb: Seq<u8>, refsw: Seq<EntryModel>, hb: Seq<u8>|
                    {
                        &&& blocks0.contains_key(m0.header_ptr)
                        &&& #[trigger] block_valid(
                            m0.config.compression,
                            m0.config.encryption,
                            master0,
                            pb,
                            blocks0[m0.header_ptr],
                        )
                        &&& crate::header::parse_header_spec(pb) == Some(refsw)
                        &&& refsw.len() == 1
                        &&& #[trigger] chunks_decode_to(
                            blocks0,
                            m0.config,
                            master0,
                            refsw[0].chunks,
                            hb,
                        )
                        &&& crate::header::parse_header_spec(hb) == Some(hs)
                    };
                assert(ptr_block@ == blocks0[m0.header_ptr]);
                assert(ptr_bytes@ == pb);
                assert(ptr_header@ == refsw);
                assert(refsw[0].chunks == refs_m);
                let pieces = choose|pieces: Seq<Seq<u8>>|
                    #[trigger] pieces_decode(blocks0, m0.config, master0, refs_m, pieces) && hb
                        == crate::chunker::concat_of(pieces);
                assert(pieces.len() == n);
                assert forall|k: int| 0 <= k < n implies pieces[k] == actual[k] by {
                    assert(blocks0.contains_key(chunk_block_id(refs_m[k].digest)));
                    assert(block_valid(
                        cfg0.compression,
                        cfg0.encryption,
                        master0,
                        pieces[k],
                        blocks0[chunk_block_id(refs_m[k].digest)],
                    ));
                }
                assert(pieces =~= actual);
                assert(hb == bytes@);
                assert(self.entries() == hm);
            }
        }
        Ok(())
    }
}

/// Whether every entry's stored size is the sum of its chunk sizes.
fn check_entries_sized(h: &Header) -> (r: bool)
    ensures
        r == entries_sized(h@),
{
    let n = h.entries.len();
    let mut i: usize = 0;
    while i < n
        invariant
            i <= n,
            n == h.entries@.len(),
            forall|a: int| 0 <= a < i ==> sum_sizes((#[trigger] h@[a]).chunks) == h@[a].size,
        decreases n - i,
    {
        let e = &h.entries[i];
        let cn = e.chunks.len();
        let mut acc: u64 = 0;
        let mut j: usize = 0;
        proof {
            assert(e@.chunks.take(0) =~= Seq::<ChunkModel>::empty());
        }
        while j < cn
            invariant
                j <= cn,
                cn == e.chunks@.len(),
                acc == sum_sizes(e@.chunks.take(j as int)),
            decreases cn - j,
        {
            let sz = e.chunks[j].size;
            proof {
                crate::object::lemma_sum_sizes_take_step(e@.chunks, j as int);
                assert(e@.chunks[j as int].size == sz);
            }
            if sz > u64::MAX - acc {
                proof {
                    crate::object::lemma_sum_sizes_take(e@.chunks, j as int);
                    lemma_sum_sizes_skip_nonneg(e@.chunks, j + 1);
                    assert(sum_sizes(e@.chunks) > u64::MAX);
                    assert(e@ == h@[i as int]);
                    assert(sum_sizes(h@[i as int].chunks) != h@[i as int].size);
                    assert(!entries_sized(h@));
                }
                return false;
            }
            acc = acc + sz;
            j = j + 1;
        }
        proof {
            assert(e@.chunks.take(cn as int) =~= e@.chunks);
        }
        if acc != e.size {
            proof {
                assert(e@ == h@[i as int]);
                assert(sum_sizes(h@[i as int].chunks) != h@[i as int].size);
                assert(!entries_sized(h@));
            }
            return false;
        }
        i = i + 1;
    }
    true
}

/// Suffix sums of chunk sizes are nonnegative, so a prefix overflow means
/// the whole sum cannot match any stored size.
pub proof fn lemma_sum_sizes_skip_nonneg(cs: Seq<ChunkModel>, i: int)
    requires
        0 <= i <= cs.len(),
    ensures
        sum_sizes(cs) == sum_sizes(cs.take(i)) + sum_sizes(cs.skip(i)),
        sum_sizes(cs.skip(i)) >= 0,
    decreases i,
{
    if i == 0 {
        assert(cs.take(0) =~= Seq::<ChunkModel>::empty());
        assert(cs.skip(0) =~= cs);
        crate::object::lemma_sum_sizes_take(cs, cs.len() as int);
        assert(cs.take(cs.len() as int) =~= cs);
    } else {
        crate::object::lemma_sum_sizes_take_step(cs, i - 1);
        lemma_sum_sizes_skip_nonneg(cs, i - 1);
        assert(cs.skip(i - 1).drop_first() =~= cs.skip(i));
        assert(cs.skip(i - 1).len() == cs.len() - i + 1);
        if cs.skip(i - 1).len() > 0 {
            assert(cs.skip(i - 1)[0] == cs[i - 1]);
        }
        crate::object::lemma_sum_sizes_take(cs.skip(i), cs.skip(i).len() as int);
        assert(cs.skip(i).take(cs.skip(i).len() as int) =~= cs.skip(i));
    }
}

/// Whether all entry keys of a header are pairwise distinct.
fn check_keys_unique(h: &Header) -> (r: bool)
    ensures
        r == keys_unique(h@),
{
    let n = h.entries.len();
    let mut i: usize = 0;
    while i < n
        invariant
            i <= n,
            n == h.entries@.len(),
            forall|a: int, b: int|
                0 <= a < i && a < b < n ==> (#[trigger] h@[a]).key != (#[trigger] h@[b]).key,
        decreases n - i,
    {
        let mut j: usize = i + 1;
        while j < n
            invariant
                i < j <= n,
                n == h.entries@.len(),
                forall|b: int| (i as int) < b < j ==> (#[trigger] h@[b]).key != h@[i as int].key,
            decreases n - j,
        {
            if bytes_eq(h.entries[i].key.as_slice(), h.entries[j].key.as_slice()) {
                proof {
                    assert(h@[i as int].key == h@[j as int].key);
                }
                return false;
            }
            j = j + 1;
        }
        i = i + 1;
    }
    true
}

impl<S: DataStore> Repository<S> {
    /// The entry under `key`, if any.
    pub fn find_entry(&self, key: &Vec<u8>) -> (r: Option<&HeaderEntry>)
        requires
            self.inv(),
        ensures
            r matches Some(e) ==> entry_of(self.entries(), key@) == Some(e@),
            r is None ==> entry_of(self.entries(), key@) is None,
    {
        let found = self.header.find(key);
        proof {
            match found {
                Some(i) => {
                    lemma_entry_of_unique(self.header@, key@, i as int);
                },
                None => {
                    lemma_entry_of_none(self.header@, key@);
                },
            }
        }
        match found {
            Some(i) => Some(&self.header.entries[i]),
            None => None,
        }
    }

    /// Make sure the chunk a reference names is known to this handle, by
    /// fetching, validating and (if needed) re-storing it; its size must
    /// agree with the reference.
    pub fn hydrate_chunk(&mut self, c: &Chunk) -> (r: Result<(), RepoError>)
        requires
            old(self).inv(),
        ensures
            final(self).inv(),
            final(self).entries() == old(self).entries(),
            final(self).config_spec() == old(self).config_spec(),
            final(self).id_spec() == old(self).id_spec(),
            final(self).master_spec() == old(self).master_spec(),
            final(self).metadata_spec() == old(self).metadata_spec(),
            forall|d: Seq<u8>| #![trigger old(self).chunk_map().contains_key(d)]
                old(self).chunk_map().contains_key(d) ==> final(self).chunk_map().contains_key(d)
                    && final(self).chunk_map()[d] == old(self).chunk_map()[d],
            r is Ok ==> final(self).chunk_map().contains_key(c@.digest) && final(self).chunk_map()[c@.digest].len() == c@.size,
    {
        let pt = self.get_chunk(&c.digest)?;
        if pt.len() as u64 != c.size {
            return Err(RepoError::Corruption);
        }
        let d2 = self.put_chunk(&pt)?;
        proof {
            assert(d2@ == digest_of(pt@));
            assert(digest_of(pt@) == c.digest@);
        }
        Ok(())
    }
}

/// Deduplication is idempotent: once a chunk is stored, storing the same
/// bytes again changes neither the handle's chunks nor the backing store.
pub proof fn lemma_dedup_idempotent<S: DataStore>(
    r0: Repository<S>,
    r1: Repository<S>,
    r2: Repository<S>,
    p: Seq<u8>,
    d: Seq<u8>,
)
    requires
        put_outcome(r0, r1, p, d),
        put_outcome(r1, r2, p, d),
    ensures
        r2.chunk_map() == r1.chunk_map(),
        r2.stored_blocks() == r1.stored_blocks(),
{
}

/// Whether some entry references the chunk with this digest.
pub open spec fn referenced(hs: Seq<EntryModel>, d: Seq<u8>) -> bool {
    exists|i: int, j: int|
        0 <= i < hs.len() && 0 <= j < (#[trigger] hs[i]).chunks.len()
            && (#[trigger] hs[i].chunks[j]).digest == d
}

impl<S: DataStore> Repository<S> {
    /// Fetch, validate and (if needed) re-store every chunk of the entry
    /// under `key`, so that the handle tracks all of them — after this,
    /// reads of the entry are exact, also on a freshly opened repository.
    pub fn hydrate_entry(&mut self, key: &Vec<u8>) -> (r: Result<(), RepoError>)
        requires
            old(self).inv(),
        ensures
            final(self).inv(),
            final(self).entries() == old(self).entries(),
            final(self).config_spec() == old(self).config_spec(),
            final(self).id_spec() == old(self).id_spec(),
            final(self).master_spec() == old(self).master_spec(),
            final(self).metadata_spec() == old(self).metadata_spec(),
            forall|d: Seq<u8>| #![trigger old(self).chunk_map().contains_key(d)]
                old(self).chunk_map().contains_key(d) ==> final(self).chunk_map().contains_key(d)
                    && final(self).chunk_map()[d] == old(self).chunk_map()[d],
            r is Ok ==> (match entry_of(old(self).entries(), key@) {
                Some(e) => entry_tracked(e.chunks, final(self).chunk_map()),
                None => false,
            }),
            (entry_of(old(self).entries(), key@) is None) ==> (r matches Err(e) && e
                == RepoError::NotFound),
    {
        let ghost m0 = self.chunk_map();
        let found = self.find_entry(key).is_some();
        if !found {
            return Err(RepoError::NotFound);
        }
        let ghost e0 = entry_of(self.entries(), key@).unwrap();
        let n = {
            let entry = match self.find_entry(key) {
                Some(e) => e,
                None => { return Err(RepoError::Corruption) },
            };
            entry.chunks.len()
        };
        let mut j: usize = 0;
        while j < n
            invariant
                j <= n,
                self.inv(),
                self.entries() == old(self).entries(),
                self.config_spec() == old(self).config_spec(),
                self.id_spec() == old(self).id_spec(),
                self.master_spec() == old(self).master_spec(),
                self.metadata_spec() == old(self).metadata_spec(),
                entry_of(self.entries(), key@) == Some(e0),
                n == e0.chunks.len(),
                forall|d: Seq<u8>| #![trigger m0.contains_key(d)]
                    m0.contains_key(d) ==> self.chunk_map().contains_key(d)
                        && self.chunk_map()[d] == m0[d],
                m0 == old(self).chunk_map(),
                entry_tracked(e0.chunks.take(j as int), self.chunk_map()),
            decreases n - j,
        {
            let c = {
                let entry = match self.find_entry(key) {
                    Some(e) => e,
                    None => { return Err(RepoError::Corruption) },
                };
                entry.chunks[j].duplicate()
            };
            self.hydrate_chunk(&c)?;
            proof {
                assert(c@ == e0.chunks[j as int]);
                assert(e0.chunks.take(j + 1) =~= e0.chunks.take(j as int).push(
                    e0.chunks[j as int],
                ));
                assert(entry_tracked(e0.chunks.take(j + 1), self.chunk_map())) by {
                    assert(forall|k: int|
                        0 <= k < j + 1 ==> (#[trigger] e0.chunks.take(j + 1)[k]) == e0.chunks[k]);
                    assert(forall|k: int|
                        0 <= k < j ==> (#[trigger] e0.chunks.take(j as int)[k]) == e0.chunks[k]);
                }
            }
            j = j + 1;
        }
        proof {
            assert(e0.chunks.take(n as int) =~= e0.chunks);
        }
        Ok(())
    }

    /// Physically delete the chunk with this digest, but only when no
    /// header entry references it; a referenced chunk is left untouched.
    /// Deletion of unreachable chunks is deferred to passes like this one
    /// so removing an entry never destroys chunks shared with others.
    #[verifier::rlimit(100)]
    pub fn remove_if_unreferenced(&mut self, digest: &Vec<u8>) -> (r: Result<bool, RepoError>)
        requires
            old(self).inv(),
        ensures
            final(self).inv(),
            final(self).entries() == old(self).entries(),
            final(self).config_spec() == old(self).config_spec(),
            final(self).id_spec() == old(self).id_spec(),
            final(self).master_spec() == old(self).master_spec(),
            final(self).metadata_spec() == old(self).metadata_spec(),
            referenced(old(self).entries(), digest@) ==> final(self).stored_blocks() == old(self).stored_blocks() && final(self).chunk_map() == old(self).chunk_map(),
            r matches Ok(removed) ==> (removed == !referenced(old(self).entries(), digest@)),
            r == Ok::<bool, RepoError>(true) ==> final(self).stored_blocks() == old(self).stored_blocks().remove(chunk_block_id(digest@)) && final(self).chunk_map() == old(self).chunk_map().remove(digest@),
            r matches Ok(removed) ==> (!removed ==> final(self).stored_blocks() == old(self).stored_blocks() && final(self).chunk_map() == old(self).chunk_map()),
            r is Err ==> final(self).stored_blocks() == old(self).stored_blocks() && final(self).chunk_map() == old(self).chunk_map(),
    {
        let n = self.header.entries.len();
        let mut i: usize = 0;
        while i < n
            invariant
                i <= n,
                n == self.header.entries@.len(),
                old(self).inv(),
                *self == *old(self),
                forall|a: int, b: int|
                    0 <= a < i && 0 <= b < (#[trigger] self.entries()[a]).chunks.len() ==> (
                    #[trigger] self.entries()[a].chunks[b]).digest != digest@,
            decreases n - i,
        {
            let e = &self.header.entries[i];
            let cn = e.chunks.len();
            let mut b: usize = 0;
            while b < cn
                invariant
                    b <= cn,
                    i < n,
                    n == self.header.entries@.len(),
                    cn == self.entries()[i as int].chunks.len(),
                    e == &self.header.entries[i as int],
                    forall|k: int|
                        0 <= k < b ==> (#[trigger] self.entries()[i as int].chunks[k]).digest
                            != digest@,
                decreases cn - b,
            {
                if bytes_eq(e.chunks[b].digest.as_slice(), digest.as_slice()) {
                    proof {
                        assert(self.entries()[i as int].chunks[b as int].digest == digest@);
                        assert(referenced(self.entries(), digest@));
                    }
                    return Ok(false);
                }
                b = b + 1;
            }
            i = i + 1;
        }
        proof {
            assert(!referenced(self.entries(), digest@)) by {
                if referenced(self.entries(), digest@) {
                    let (a, b) = choose|a: int, b: int|
                        0 <= a < self.entries().len() && 0 <= b < (
                        #[trigger] self.entries()[a]).chunks.len() && (
                        #[trigger] self.entries()[a].chunks[b]).digest == digest@;
                    assert(self.entries()[a].chunks[b].digest != digest@);
                }
            }
        }
        let id = Self::chunk_id(digest);
        match self.store.remove_block(&id) {
            Ok(_) => {},
            Err(e) => { return Err(e) },
        }
        // drop the digest from the handle's chunk bookkeeping
        let ghost oldknown = self.known@;
        let kn = self.known.len();
        let mut kept: Vec<Vec<u8>> = Vec::new();
        let mut k: usize = 0;
        while k < kn
            invariant
                k <= kn,
                kn == self.known@.len(),
                self.known@ == oldknown,
                forall|a: int| 0 <= a < kept@.len() ==> (#[trigger] kept@[a])@ != digest@,
                forall|a: int|
                    0 <= a < kept@.len() ==> exists|m: int|
                        0 <= m < k && (#[trigger] kept@[a])@ == oldknown[m]@,
                forall|m: int|
                    0 <= m < k && (#[trigger] oldknown[m])@ != digest@ ==> exists|a: int|
                        0 <= a < kept@.len() && (#[trigger] kept@[a])@ == oldknown[m]@,
            decreases kn - k,
        {
            let ghost oldkept = kept@;
            if !bytes_eq(self.known[k].as_slice(), digest.as_slice()) {
                let kc = read_bytes(&self.known[k], 0, self.known[k].len());
                proof {
                    assert(kc@ =~= oldknown[k as int]@);
                }
                kept.push(kc);
                proof {
                    assert(forall|a: int| 0 <= a < oldkept.len() ==> kept@[a] == oldkept[a]);
                    assert(kept@[kept@.len() - 1]@ == oldknown[k as int]@);
                }
            }
            proof {
                assert forall|m: int|
                    0 <= m < k + 1 && (#[trigger] oldknown[m])@ != digest@ implies exists|a: int|
                    0 <= a < kept@.len() && (#[trigger] kept@[a])@ == oldknown[m]@ by {
                    if m < k {
                        let a = choose|a: int|
                            0 <= a < oldkept.len() && (#[trigger] oldkept[a])@ == oldknown[m]@;
                        assert(kept@[a]@ == oldknown[m]@);
                    } else {
                        assert(kept@[kept@.len() - 1]@ == oldknown[m]@);
                    }
                }
            }
            k = k + 1;
        }
        let ghost keptv = kept@;
        self.known = kept;
        proof {
            assert(self.known@ == keptv);
            self.chunks@ = self.chunks@.remove(digest@);
            assert(known_mirrors(self.chunks@, self.known@)) by {
                assert forall|d: Seq<u8>|
                    self.chunks@.contains_key(d) implies exists|a: int|
                    0 <= a < self.known@.len() && (#[trigger] self.known@[a])@ == d by {
                    assert(old(self).chunks@.contains_key(d) && d != digest@);
                    let m = choose|m: int|
                        0 <= m < oldknown.len() && (#[trigger] oldknown[m])@ == d;
                    assert(oldknown[m]@ != digest@);
                    let a = choose|a: int|
                        0 <= a < keptv.len() && (#[trigger] keptv[a])@ == oldknown[m]@;
                    assert(self.known@[a]@ == d);
                }
                assert forall|d: Seq<u8>|
                    (exists|a: int|
                        0 <= a < self.known@.len() && (#[trigger] self.known@[a])@
                            == d) implies self.chunks@.contains_key(d) by {
                    let a = choose|a: int|
                        0 <= a < self.known@.len() && (#[trigger] self.known@[a])@ == d;
                    assert(keptv[a]@ == d);
                    let m = choose|m: int|
                        0 <= m < oldknown.len() && (#[trigger] keptv[a])@ == oldknown[m]@;
                    assert(oldknown[m]@ == d);
                    assert(old(self).chunks@.contains_key(d));
                    assert(keptv[a]@ != digest@);
                    assert(d != digest@);
                }
            }
            assert(chunks_stored(
                self.chunks@,
                self.store.blocks(),
                self.metadata.config,
                self.master_key@,
            )) by {
                assert forall|x: Seq<u8>| #![trigger self.chunks@.contains_key(x)]
                    self.chunks@.contains_key(x) implies {
                        &&& self.store.blocks().contains_key(chunk_block_id(x))
                        &&& block_valid(
                            self.metadata.config.compression,
                            self.metadata.config.encryption,
                            self.master_key@,
                            (self.chunks@[x]),
                            self.store.blocks()[chunk_block_id(x)],
                        )
                        &&& digest_of(self.chunks@[x]) == x
                    } by {
                    assert(old(self).chunks@.contains_key(x));
                    assert(self.chunks@[x] == old(self).chunks@[x]);
                    assert(chunk_block_id(x) != chunk_block_id(digest@)) by {
                        assert(chunk_block_id(x).skip(1) =~= x);
                        assert(chunk_block_id(digest@).skip(1) =~= digest@);
                    }
                }
            }
        }
        Ok(true)
    }
}

impl<S: DataStore> Repository<S> {
    /// A block removal away from the chunk and metadata identifier spaces
    /// keeps the handle's invariant.
    proof fn prove_inv_after_foreign_remove(&self, pre: Self, id: Seq<u8>)
        requires
            pre.inv(),
            self.master_key@ == pre.master_key@,
            self.metadata.config == pre.metadata.config,
            self.header@ == pre.header@,
            self.known@ == pre.known@,
            self.chunks@ == pre.chunks@,
            id.len() >= 1,
            id[0] != 1u8,
            self.store.blocks() == pre.store.blocks() || self.store.blocks()
                == pre.store.blocks().remove(id),
        ensures
            self.inv(),
    {
        assert(chunks_stored(
            self.chunks@,
            self.store.blocks(),
            self.metadata.config,
            self.master_key@,
        )) by {
            assert forall|x: Seq<u8>| #![trigger self.chunks@.contains_key(x)]
                self.chunks@.contains_key(x) implies {
                    &&& self.store.blocks().contains_key(chunk_block_id(x))
                    &&& block_valid(
                        self.metadata.config.compression,
                        self.metadata.config.encryption,
                        self.master_key@,
                        (self.chunks@[x]),
                        self.store.blocks()[chunk_block_id(x)],
                    )
                    &&& digest_of(self.chunks@[x]) == x
                } by {
                assert(pre.chunks@.contains_key(x));
                assert(self.chunks@[x] == pre.chunks@[x]);
                assert(chunk_block_id(x) != id) by {
                    assert(chunk_block_id(x)[0] == 1u8);
                }
            }
        }
    }

    /// The deferred clean-up pass: walk every stored block, delete each
    /// chunk block that no header entry reaches, and drop stale header
    /// pointer blocks; every chunk an entry references, and the metadata
    /// block, are left exactly as they were.
    #[verifier::rlimit(100)]
    pub fn clean(&mut self) -> (r: Result<(), RepoError>)
        requires
            old(self).inv(),
        ensures
            final(self).inv(),
            final(self).entries() == old(self).entries(),
            final(self).config_spec() == old(self).config_spec(),
            final(self).id_spec() == old(self).id_spec(),
            final(self).master_spec() == old(self).master_spec(),
            final(self).metadata_spec() == old(self).metadata_spec(),
            meta_block_preserved(old(self).stored_blocks(), final(self).stored_blocks()),
            forall|d: Seq<u8>| #![trigger referenced(old(self).entries(), d)]
                referenced(old(self).entries(), d) && old(self).stored_blocks().contains_key(
                    chunk_block_id(d),
                ) ==> final(self).stored_blocks().contains_key(chunk_block_id(d)) && final(self).stored_blocks()[chunk_block_id(d)] == old(self).stored_blocks()[chunk_block_id(d)],
    {
        let ids = match self.store.list_blocks() {
            Ok(v) => v,
            Err(e) => { return Err(e) },
        };
        let m = ids.len();
        let mut j: usize = 0;
        while j < m
            invariant
                j <= m,
                m == ids@.len(),
                self.inv(),
                self.entries() == old(self).entries(),
                self.config_spec() == old(self).config_spec(),
                self.id_spec() == old(self).id_spec(),
                self.master_spec() == old(self).master_spec(),
                self.metadata_spec() == old(self).metadata_spec(),
                meta_block_preserved(old(self).stored_blocks(), self.stored_blocks()),
                forall|d: Seq<u8>| #![trigger referenced(old(self).entries(), d)]
                    referenced(old(self).entries(), d) && old(self).stored_blocks().contains_key(
                        chunk_block_id(d),
                    ) ==> self.stored_blocks().contains_key(chunk_block_id(d))
                        && self.stored_blocks()[chunk_block_id(d)] == old(self).stored_blocks()[chunk_block_id(d)],
            decreases m - j,
        {
            let id = &ids[j];
            if id.len() >= 1 {
                let tag = id[0];
                if tag == 1u8 {
                    let digest = read_bytes(id, 1, id.len() - 1);
                    proof {
                        assert(chunk_block_id(digest@) =~= id@);
                    }
                    let ghost pre = *self;
                    match self.remove_if_unreferenced(&digest) {
                        Ok(removed) => {
                            proof {
                                if removed {
                                    assert(!referenced(self.entries(), digest@));
                                    assert forall|d: Seq<u8>|
                                        #![trigger referenced(old(self).entries(), d)]
                                        referenced(old(self).entries(), d) && old(self).stored_blocks().contains_key(chunk_block_id(d)) implies self.stored_blocks().contains_key(
                                        chunk_block_id(d),
                                    ) && self.stored_blocks()[chunk_block_id(d)] == old(self).stored_blocks()[chunk_block_id(d)] by {
                                        assert(d != digest@);
                                        assert(chunk_block_id(d) != chunk_block_id(digest@)) by {
                                            assert(chunk_block_id(d).skip(1) =~= d);
                                            assert(chunk_block_id(digest@).skip(1) =~= digest@);
                                        }
                                        assert(pre.stored_blocks().contains_key(chunk_block_id(d)));
                                    }
                                    assert(chunk_block_id(digest@) != metadata_block_id()) by {
                                        assert(chunk_block_id(digest@)[0] == 1u8);
                                        assert(metadata_block_id()[0] == 0u8);
                                    }
                                }
                            }
                        },
                        Err(e) => { return Err(e) },
                    }
                } else if tag == 2u8 {
                    if !bytes_eq(id.as_slice(), self.metadata.header_ptr.as_slice()) {
                        let ghost pre = *self;
                        match self.store.remove_block(id) {
                            Ok(_) => {},
                            Err(e) => {
                                proof {
                                    self.prove_inv_after_foreign_remove(pre, id@);
                                }
                                return Err(e);
                            },
                        }
                        proof {
                            self.prove_inv_after_foreign_remove(pre, id@);
                            assert(id@ != metadata_block_id()) by {
                                assert(metadata_block_id()[0] == 0u8);
                            }
                            assert forall|d: Seq<u8>|
                                #![trigger referenced(old(self).entries(), d)]
                                referenced(old(self).entries(), d) && old(self).stored_blocks().contains_key(chunk_block_id(d)) implies self.stored_blocks().contains_key(
                                chunk_block_id(d),
                            ) && self.stored_blocks()[chunk_block_id(d)] == old(self).stored_blocks()[chunk_block_id(d)] by {
                                assert(chunk_block_id(d) != id@) by {
                                    assert(chunk_block_id(d)[0] == 1u8);
                                }
                                assert(pre.stored_blocks().contains_key(chunk_block_id(d)));
                            }
                        }
                    }
                }
            }
            j = j + 1;
        }
        Ok(())
    }
}

} // verus!
