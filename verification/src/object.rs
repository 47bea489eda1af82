//! The streaming object layer: a read/write/seek handle over one logical
//! key's chunk sequence.
//!
//! Writes feed the chunker; on flush the finished chunks go through the
//! codec into the chunk store and the affected suffix of the entry's chunk
//! list is replaced, then the header is committed.  Reads resolve the seek
//! position to a chunk, fetch and decode it into a per-chunk read buffer,
//! and reuse that buffer while the position stays inside the same chunk.
use vstd::prelude::*;

use crate::bytes::{bytes_eq, read_bytes};
use crate::chunker::Chunker;
use crate::errors::RepoError;
use crate::header::{Chunk, ChunkModel, EntryModel, HeaderEntry};
use crate::outside::digest_of;
use crate::repository::{
    entry_content, entry_of, entry_tracked, lemma_entry_content_len, lemma_entry_content_split,
    sum_sizes, Repository,
};
use crate::store::DataStore;

verus! {

/// The location of a seek position inside a chunk sequence.
#[derive(Debug)]
pub struct ChunkLocation {
    /// The chunk itself.
    pub chunk: Chunk,
    /// The offset of the start of the chunk from the start of the object.
    pub start: u64,
    /// The offset of the end of the chunk from the start of the object.
    pub end: u64,
    /// The seek position this location resolves.
    pub position: u64,
    /// The index of the chunk in the entry's chunk list.
    pub index: usize,
}

impl ChunkLocation {
    /// The offset of the seek position from the start of the chunk.
    pub fn relative_position(&self) -> (r: usize)
        requires
            self.start <= self.position,
            self.position - self.start <= usize::MAX,
        ensures
            r == self.position - self.start,
    {
        (self.position - self.start) as usize
    }
}

/// The state of one open object handle.
pub struct ObjectState {
    /// Buffers and cuts the bytes written since the last flush.
    pub chunker: Chunker,
    /// Whether a write session is open.
    pub writing: bool,
    /// Where the open write session began, if one is open.
    pub start_location: Option<ChunkLocation>,
    /// The current seek position.
    pub position: u64,
    /// The chunk most recently read from, if any.
    pub buffered_chunk: Option<Chunk>,
    /// The plaintext of the chunk most recently read from.
    pub read_buffer: Vec<u8>,
    /// The bytes of the object strictly before the write session.
    pub base: Ghost<Seq<u8>>,
}

impl ObjectState {
    /// A fresh state for a repository with the given chunk-size parameter.
    pub fn new(chunker_bits: u32) -> (r: ObjectState)
        requires
            chunker_bits <= 30,
        ensures
            r.chunker.wf(),
            r.chunker.bits() == chunker_bits,
            r.chunker.fed() == Seq::<u8>::empty(),
            !r.writing,
            r.position == 0,
            r.start_location is None,
            r.buffered_chunk is None,
            r.read_buffer@ == Seq::<u8>::empty(),
            r.base@ == Seq::<u8>::empty(),
    {
        ObjectState {
            chunker: Chunker::new(chunker_bits),
            writing: false,
            start_location: None,
            position: 0,
            buffered_chunk: None,
            read_buffer: Vec::new(),
            base: Ghost(Seq::empty()),
        }
    }
}

/// A read/write/seek handle over the object under one logical key.
pub struct Object {
    /// The logical key this handle works on.
    pub key: Vec<u8>,
    /// The handle's own state.
    pub state: ObjectState,
}

/// Whether the map keeps every tracked value of `m1`.
pub open spec fn map_extends(m1: Map<Seq<u8>, Seq<u8>>, m2: Map<Seq<u8>, Seq<u8>>) -> bool {
    forall|d: Seq<u8>| #![trigger m1.contains_key(d)]
        m1.contains_key(d) ==> m2.contains_key(d) && m2[d] == m1[d]
}

/// Tracked content only reads tracked values, so extending the map
/// changes neither trackedness nor content.
pub proof fn lemma_entry_content_mono(
    cs: Seq<ChunkModel>,
    m1: Map<Seq<u8>, Seq<u8>>,
    m2: Map<Seq<u8>, Seq<u8>>,
)
    requires
        entry_tracked(cs, m1),
        map_extends(m1, m2),
    ensures
        entry_tracked(cs, m2),
        entry_content(cs, m2) == entry_content(cs, m1),
    decreases cs.len(),
{
    if cs.len() > 0 {
        assert(m1.contains_key(cs[0].digest));
        assert(entry_tracked(cs.drop_first(), m1)) by {
            assert(forall|i: int|
                0 <= i < cs.len() - 1 ==> (#[trigger] cs.drop_first()[i]) == cs[i + 1]);
        }
        lemma_entry_content_mono(cs.drop_first(), m1, m2);
        assert(entry_tracked(cs, m2)) by {
            assert(forall|i: int|
                0 < i < cs.len() ==> (#[trigger] cs[i]) == cs.drop_first()[i - 1]);
        }
    }
}

/// Prefix sums of chunk sizes are bounded by the total.
pub proof fn lemma_sum_sizes_take(cs: Seq<ChunkModel>, i: int)
    requires
        0 <= i <= cs.len(),
    ensures
        0 <= sum_sizes(cs.take(i)) <= sum_sizes(cs),
        sum_sizes(cs) >= 0,
    decreases cs.len(),
{
    if cs.len() == 0 {
        assert(cs.take(i) =~= cs);
    } else {
        if i == 0 {
            assert(cs.take(0) =~= Seq::<ChunkModel>::empty());
            lemma_sum_sizes_take(cs.drop_first(), cs.len() - 1);
        } else {
            assert(cs.take(i).drop_first() =~= cs.drop_first().take(i - 1));
            assert(cs.take(i)[0] == cs[0]);
            lemma_sum_sizes_take(cs.drop_first(), i - 1);
        }
    }
}

/// The sum of sizes over one more chunk.
pub proof fn lemma_sum_sizes_take_step(cs: Seq<ChunkModel>, i: int)
    requires
        0 <= i < cs.len(),
    ensures
        sum_sizes(cs.take(i + 1)) == sum_sizes(cs.take(i)) + cs[i].size,
    decreases i,
{
    if i == 0 {
        assert(cs.take(0) =~= Seq::<ChunkModel>::empty());
        assert(cs.take(1)[0] == cs[0]);
        assert(cs.take(1).drop_first() =~= Seq::<ChunkModel>::empty());
    } else {
        assert(cs.take(i + 1)[0] == cs[0]);
        assert(cs.take(i)[0] == cs[0]);
        assert(cs.take(i + 1).drop_first() =~= cs.drop_first().take(i));
        assert(cs.take(i).drop_first() =~= cs.drop_first().take(i - 1));
        lemma_sum_sizes_take_step(cs.drop_first(), i - 1);
    }
}

/// Resolve a seek position to the chunk that contains it.
fn locate(entry: &HeaderEntry, pos: u64) -> (r: Option<ChunkLocation>)
    requires
        sum_sizes(entry@.chunks) <= u64::MAX,
    ensures
        r matches Some(loc) ==> {
            &&& 0 <= loc.index < entry@.chunks.len()
            &&& loc.start == sum_sizes(entry@.chunks.take(loc.index as int))
            &&& loc.end == sum_sizes(entry@.chunks.take(loc.index + 1))
            &&& loc.start <= pos < loc.end
            &&& loc.position == pos
            &&& loc.chunk@ == entry@.chunks[loc.index as int]
        },
        r is None ==> pos >= sum_sizes(entry@.chunks),
{
    let n = entry.chunks.len();
    let mut acc: u64 = 0;
    let mut i: usize = 0;
    proof {
        assert(entry@.chunks.take(0) =~= Seq::<ChunkModel>::empty());
    }
    while i < n
        invariant
            i <= n,
            n == entry@.chunks.len(),
            sum_sizes(entry@.chunks) <= u64::MAX,
            acc == sum_sizes(entry@.chunks.take(i as int)),
            pos >= acc,
        decreases n - i,
    {
        let sz = entry.chunks[i].size;
        proof {
            lemma_sum_sizes_take_step(entry@.chunks, i as int);
            lemma_sum_sizes_take(entry@.chunks, i + 1);
            assert(entry@.chunks[i as int].size == sz);
        }
        if pos < acc + sz {
            let chunk = entry.chunks[i].duplicate();
            return Some(
                ChunkLocation { chunk, start: acc, end: acc + sz, position: pos, index: i },
            );
        }
        acc = acc + sz;
        i = i + 1;
    }
    proof {
        assert(entry@.chunks.take(n as int) =~= entry@.chunks);
    }
    None
}

impl Object {
    /// What this handle intends the object's bytes to be once flushed:
    /// the kept prefix, then everything written since.
    pub open spec fn intent(&self) -> Seq<u8> {
        self.state.base@ + self.state.chunker.fed()
    }

    /// The current seek position.
    pub open spec fn position_spec(&self) -> u64 {
        self.state.position
    }

    /// Whether a write session is open.
    pub open spec fn pending(&self) -> bool {
        self.state.writing
    }

    /// The handle's consistency with its repository: the key exists, the
    /// chunker matches the repository's chunk-size parameter, and an open
    /// write session's kept prefix is the tracked content before it.
    pub open spec fn wf<S: DataStore>(&self, repo: &Repository<S>) -> bool {
        match entry_of(repo.entries(), self.key@) {
            Some(e) => {
                &&& self.state.chunker.wf()
                &&& self.state.chunker.bits() == repo.config_spec().chunker_bits
                &&& repo.config_spec().chunker_bits <= 30
                &&& sum_sizes(e.chunks) == e.size
                &&& if self.state.writing {
                    match self.state.start_location {
                        Some(loc) => {
                            &&& 0 <= loc.index <= e.chunks.len()
                            &&& entry_tracked(
                                e.chunks.take(loc.index as int),
                                repo.chunk_map(),
                            )
                            &&& self.state.base@ == entry_content(
                                e.chunks.take(loc.index as int),
                                repo.chunk_map(),
                            )
                        },
                        None => false,
                    }
                } else {
                    self.state.chunker.fed() == Seq::<u8>::empty() && self.state.base@
                        == Seq::<u8>::empty()
                }
                &&& match self.state.buffered_chunk {
                    Some(c) => repo.chunk_map().contains_key(c@.digest)
                        ==> self.state.read_buffer@ == repo.chunk_map()[c@.digest],
                    None => true,
                }
            },
            None => false,
        }
    }

    /// Create (or replace with an empty object) the entry under `key` and
    /// hand back a handle positioned at its start.
    pub fn insert<S: DataStore>(repo: &mut Repository<S>, key: &Vec<u8>) -> (r: Object)
        requires
            old(repo).inv(),
            old(repo).config_spec().chunker_bits <= 30,
        ensures
            final(repo).inv(),
            final(repo).chunk_map() == old(repo).chunk_map(),
            final(repo).stored_blocks() == old(repo).stored_blocks(),
            final(repo).config_spec() == old(repo).config_spec(),
            final(repo).id_spec() == old(repo).id_spec(),
            entry_of(final(repo).entries(), key@) == Some(
                EntryModel { key: key@, chunks: Seq::empty(), size: 0 },
            ),
            forall|k: Seq<u8>|
                k != key@ ==> entry_of(final(repo).entries(), k) == entry_of(
                    old(repo).entries(),
                    k,
                ),
            r.wf(&*final(repo)),
            r.key@ == key@,
            !r.pending(),
            r.position_spec() == 0,
    {
        repo.insert(key);
        let kcopy = read_bytes(key, 0, key.len());
        proof {
            assert(kcopy@ =~= key@);
        }
        let cfg = repo.config();
        let obj = Object { key: kcopy, state: ObjectState::new(cfg.chunker_bits) };
        proof {
            assert(sum_sizes(Seq::<ChunkModel>::empty()) == 0);
        }
        obj
    }

    /// Open a handle on the existing object under `key`; a missing key is
    /// `NotFound`.
    pub fn open<S: DataStore>(repo: &Repository<S>, key: &Vec<u8>) -> (r: Result<
        Object,
        RepoError,
    >)
        requires
            repo.inv(),
            repo.config_spec().chunker_bits <= 30,
            forall|e: EntryModel|
                entry_of(repo.entries(), key@) == Some(e) ==> sum_sizes(e.chunks) == e.size,
        ensures
            r matches Ok(obj) ==> obj.wf(repo) && obj.key@ == key@ && !obj.pending()
                && obj.position_spec() == 0,
            r is Err ==> entry_of(repo.entries(), key@) is None,
            (entry_of(repo.entries(), key@) is None) ==> (r matches Err(e) && e
                == RepoError::NotFound),
    {
        if !repo.contains(key) {
            return Err(RepoError::NotFound);
        }
        let kcopy = read_bytes(key, 0, key.len());
        proof {
            assert(kcopy@ =~= key@);
        }
        let cfg = repo.config();
        let obj = Object { key: kcopy, state: ObjectState::new(cfg.chunker_bits) };
        Ok(obj)
    }

    /// Move the seek position; a pending write session is flushed first.
    /// Seeking past the end of the data is legal and later reads there
    /// yield nothing.
    pub fn seek<S: DataStore>(&mut self, repo: &mut Repository<S>, pos: u64) -> (r: Result<
        (),
        RepoError,
    >)
        requires
            old(self).wf(&*old(repo)),
            old(repo).inv(),
        ensures
            final(repo).inv(),
            final(repo).config_spec() == old(repo).config_spec(),
            final(repo).id_spec() == old(repo).id_spec(),
            r is Ok ==> final(self).wf(&*final(repo)) && final(self).position_spec() == pos
                && !final(self).pending(),
            !old(self).pending() ==> final(repo).entries() == old(repo).entries() && final(repo).chunk_map() == old(repo).chunk_map(),
            !old(self).pending() ==> r is Ok,
    {
        if self.state.writing {
            self.flush(repo)?;
        }
        self.state.position = pos;
        Ok(())
    }
}


/// Whether storing these chunks can only be deduplicated cleanly: any
/// digest already known names the same bytes, and no two distinct chunks
/// share a digest.  A digest collision is the one input on which this
/// fails.
pub open spec fn chunks_clean(m: Map<Seq<u8>, Seq<u8>>, cs: Seq<Seq<u8>>) -> bool {
    &&& forall|k: int|
        0 <= k < cs.len() ==> (m.contains_key(digest_of(#[trigger] cs[k])) ==> m[digest_of(
            cs[k],
        )] == cs[k])
    &&& forall|k: int, l: int|
        0 <= k < l < cs.len() ==> (digest_of(#[trigger] cs[k]) == digest_of(#[trigger] cs[l])
            ==> cs[k] == cs[l])
}

/// The content of a chunk list whose map values are exactly these bytes.
pub proof fn lemma_entry_content_of_chunks(
    refs: Seq<ChunkModel>,
    cs: Seq<Seq<u8>>,
    m: Map<Seq<u8>, Seq<u8>>,
)
    requires
        refs.len() == cs.len(),
        forall|k: int| 0 <= k < refs.len() ==> (#[trigger] refs[k]).digest == digest_of(cs[k]),
        forall|k: int|
            0 <= k < cs.len() ==> m.contains_key(digest_of(#[trigger] cs[k])) && m[digest_of(
                cs[k],
            )] == cs[k],
    ensures
        entry_content(refs, m) == concat_of_bytes(cs),
    decreases refs.len(),
{
    if refs.len() > 0 {
        assert(refs[0].digest == digest_of(cs[0]));
        assert(m[refs[0].digest] == cs[0]);
        assert(forall|k: int|
            0 <= k < refs.len() - 1 ==> (#[trigger] refs.drop_first()[k]) == refs[k + 1]);
        assert(forall|k: int|
            0 <= k < cs.len() - 1 ==> (#[trigger] cs.drop_first()[k]) == cs[k + 1]);
        lemma_entry_content_of_chunks(refs.drop_first(), cs.drop_first(), m);
        assert(entry_content(refs, m) =~= concat_of_bytes(cs));
    }
}

/// The concatenation of a sequence of byte strings.
pub open spec fn concat_of_bytes(cs: Seq<Seq<u8>>) -> Seq<u8>
    decreases cs.len(),
{
    if cs.len() == 0 {
        Seq::empty()
    } else {
        cs[0] + concat_of_bytes(cs.drop_first())
    }
}

/// Both spellings of concatenation agree.
pub proof fn lemma_concat_agree(cs: Seq<Seq<u8>>)
    ensures
        concat_of_bytes(cs) == crate::chunker::concat_of(cs),
    decreases cs.len(),
{
    if cs.len() > 0 {
        lemma_concat_agree(cs.drop_first());
    }
}

impl Object {
    /// Append `buf` at the write session's cursor; the session begins at
    /// the current seek position (clamped to the end of the data) on the
    /// first write after a flush or seek.  Until `flush`, nothing of this
    /// is visible outside this handle.
    pub fn write<S: DataStore>(&mut self, repo: &mut Repository<S>, buf: &[u8]) -> (r: Result<
        (),
        RepoError,
    >)
        requires
            old(self).wf(&*old(repo)),
            old(repo).inv(),
        ensures
            final(repo).inv(),
            final(repo).entries() == old(repo).entries(),
            final(repo).config_spec() == old(repo).config_spec(),
            final(repo).id_spec() == old(repo).id_spec(),
            map_extends(old(repo).chunk_map(), final(repo).chunk_map()),
            r is Ok ==> final(self).wf(&*final(repo)) && final(self).pending() && final(self).key@ == old(self).key@,
            r is Ok && old(self).pending() ==> final(self).intent() == old(self).intent()
                + buf@,
            r is Ok && !old(self).pending() ==> (match entry_of(
                old(repo).entries(),
                old(self).key@,
            ) {
                Some(e) => entry_tracked(e.chunks, old(repo).chunk_map()) ==> final(self).intent() == entry_content(e.chunks, old(repo).chunk_map()).take(
                    clamp_spec(old(self).position_spec(), e.size),
                ) + buf@,
                None => false,
            }),
            old(self).pending() && old(self).position_spec() + buf@.len() <= u64::MAX ==> r
                is Ok,
    {
        if buf.len() as u64 > u64::MAX - self.state.position {
            return Err(RepoError::Corruption);
        }
        if !self.state.writing {
            self.begin_session(repo)?;
        }
        self.state.chunker.update(buf);
        self.state.position = self.state.position + buf.len() as u64;
        Ok(())
    }

    /// Open a write session at the clamped seek position: keep the chunks
    /// strictly before it and re-feed the partial chunk prefix, so the
    /// stream is re-chunked from the write position on while everything
    /// before it keeps its chunks (and so its deduplication value).
    fn begin_session<S: DataStore>(&mut self, repo: &mut Repository<S>) -> (r: Result<
        (),
        RepoError,
    >)
        requires
            old(self).wf(&*old(repo)),
            old(repo).inv(),
            !old(self).pending(),
        ensures
            final(repo).inv(),
            final(repo).entries() == old(repo).entries(),
            final(repo).config_spec() == old(repo).config_spec(),
            final(repo).id_spec() == old(repo).id_spec(),
            map_extends(old(repo).chunk_map(), final(repo).chunk_map()),
            r is Ok ==> final(self).wf(&*final(repo)) && final(self).pending() && final(self).key@ == old(self).key@ && final(self).position_spec() == old(self).position_spec(),
            r is Ok ==> (match entry_of(old(repo).entries(), old(self).key@) {
                Some(e) => entry_tracked(e.chunks, old(repo).chunk_map()) ==> final(self).intent() == entry_content(e.chunks, old(repo).chunk_map()).take(
                    clamp_spec(old(self).position_spec(), e.size),
                ),
                None => false,
            }),
    {
        let ghost m0 = repo.chunk_map();
        let ghost e0 = entry_of(repo.entries(), self.key@).unwrap();
        let (index, partial) = {
            let entry = match repo.find_entry(&self.key) {
                Some(e) => e,
                None => { return Err(RepoError::NotFound) },
            };
            let p = if self.state.position <= entry.size {
                self.state.position
            } else {
                entry.size
            };
            proof {
                lemma_sum_sizes_take(e0.chunks, e0.chunks.len() as int);
            }
            match locate(entry, p) {
                Some(loc) => {
                    let idx = loc.index;
                    (idx, Some(loc))
                },
                None => (entry.chunks.len(), None),
            }
        };
        let ghost p = clamp_spec(self.state.position, e0.size);
        let mut j: usize = 0;
        while j < index
            invariant
                j <= index,
                repo.inv(),
                repo.entries() == old(repo).entries(),
                repo.config_spec() == old(repo).config_spec(),
                repo.id_spec() == old(repo).id_spec(),
                map_extends(m0, repo.chunk_map()),
                m0 == old(repo).chunk_map(),
                entry_of(repo.entries(), self.key@) == Some(e0),
                index <= e0.chunks.len(),
                entry_tracked(e0.chunks.take(j as int), repo.chunk_map()),
                self.key@ == old(self).key@,
            decreases index - j,
        {
            let c = {
                let entry = match repo.find_entry(&self.key) {
                    Some(e) => e,
                    None => { return Err(RepoError::Corruption) },
                };
                entry.chunks[j].duplicate()
            };
            repo.hydrate_chunk(&c)?;
            proof {
                assert(c@ == e0.chunks[j as int]);
                assert(e0.chunks.take(j + 1) =~= e0.chunks.take(j as int).push(
                    e0.chunks[j as int],
                ));
                assert(entry_tracked(e0.chunks.take(j + 1), repo.chunk_map())) by {
                    assert(forall|k: int|
                        0 <= k < j + 1 ==> (#[trigger] e0.chunks.take(j + 1)[k]) == e0.chunks[k]);
                    assert(forall|k: int|
                        0 <= k < j ==> (#[trigger] e0.chunks.take(j as int)[k]) == e0.chunks[k]);
                }
            }
            j = j + 1;
        }
        match partial {
            Some(loc) => {
                repo.hydrate_chunk(&loc.chunk)?;
                let pt = match repo.get_chunk(&loc.chunk.digest) {
                    Ok(v) => v,
                    Err(_) => { return Err(RepoError::Corruption) },
                };
                proof {
                    assert(pt@ == repo.chunk_map()[loc.chunk@.digest]);
                }
                if loc.position - loc.start > pt.len() as u64 {
                    return Err(RepoError::Corruption);
                }
                let rel = (loc.position - loc.start) as usize;
                let prefix = read_bytes(&pt, 0, rel);
                self.state.chunker.update(prefix.as_slice());
                proof {
                    assert(self.state.chunker.fed() =~= repo.chunk_map()[loc.chunk@.digest].take(
                        rel as int,
                    ));
                }
                self.state.start_location = Some(loc);
            },
            None => {
                let entry_size = {
                    let entry = match repo.find_entry(&self.key) {
                        Some(e) => e,
                        None => { return Err(RepoError::Corruption) },
                    };
                    entry.size
                };
                self.state.start_location = Some(
                    ChunkLocation {
                        chunk: Chunk { digest: Vec::new(), size: 0 },
                        start: entry_size,
                        end: entry_size,
                        position: entry_size,
                        index,
                    },
                );
            },
        }
        self.state.writing = true;
        self.state.buffered_chunk = None;
        proof {
            self.state.base@ = entry_content(e0.chunks.take(index as int), repo.chunk_map());
            let mf = repo.chunk_map();
            if entry_tracked(e0.chunks, m0) {
                assert(entry_tracked(e0.chunks.take(index as int), m0)) by {
                    assert(forall|k: int|
                        0 <= k < index ==> (#[trigger] e0.chunks.take(index as int)[k])
                            == e0.chunks[k]);
                }
                lemma_entry_content_mono(e0.chunks.take(index as int), m0, mf);
                lemma_entry_content_split(e0.chunks, m0, index as int);
                lemma_entry_content_len(e0.chunks.take(index as int), m0);
                lemma_entry_content_len(e0.chunks, m0);
                lemma_sum_sizes_take(e0.chunks, index as int);
                if index < e0.chunks.len() {
                    // a partial chunk is being re-fed up to the position
                    assert(e0.chunks.skip(index as int)[0] == e0.chunks[index as int]);
                    assert(entry_content(e0.chunks.skip(index as int), m0) == m0[e0.chunks[
                        index as int].digest] + entry_content(
                        e0.chunks.skip(index as int).drop_first(),
                        m0,
                    ));
                    assert(m0.contains_key(e0.chunks[index as int].digest));
                    assert(self.state.chunker.fed() == m0[e0.chunks[index as int].digest].take(
                        p - sum_sizes(e0.chunks.take(index as int)),
                    ));
                    assert(self.intent() =~= entry_content(e0.chunks, m0).take(p as int));
                } else {
                    assert(e0.chunks.take(index as int) =~= e0.chunks);
                    assert(p == e0.size);
                    assert(self.state.chunker.fed() == Seq::<u8>::empty());
                    assert(self.intent() =~= entry_content(e0.chunks, m0).take(p as int));
                }
            }
        }
        Ok(())
    }
}

/// The smaller of a position and a size.
pub open spec fn clamp_spec(pos: u64, size: u64) -> int {
    if pos <= size {
        pos as int
    } else {
        size as int
    }
}


impl Object {
    /// Finalize the pending chunk, replace the affected suffix of the
    /// entry's chunk list with the newly stored chunks, update the total
    /// size, and commit the header and metadata — the durability boundary.
    ///
    /// If the chunks written can only have deduplicated cleanly (no digest
    /// collision), the object's bytes afterwards are exactly this handle's
    /// intent: the kept prefix followed by everything written.
    pub fn flush<S: DataStore>(&mut self, repo: &mut Repository<S>) -> (r: Result<
        (),
        RepoError,
    >)
        requires
            old(self).wf(&*old(repo)),
            old(repo).inv(),
        ensures
            final(repo).inv(),
            final(repo).config_spec() == old(repo).config_spec(),
            final(repo).id_spec() == old(repo).id_spec(),
            map_extends(old(repo).chunk_map(), final(repo).chunk_map()),
            forall|k: Seq<u8>|
                k != old(self).key@ ==> entry_of(final(repo).entries(), k) == entry_of(
                    old(repo).entries(),
                    k,
                ),
            r is Ok ==> final(self).wf(&*final(repo)) && !final(self).pending() && final(self).key@ == old(self).key@ && final(self).position_spec() == old(self).position_spec(),
            !old(self).pending() ==> final(repo).entries() == old(repo).entries(),
            r is Ok && old(self).pending() && chunks_clean(
                old(repo).chunk_map(),
                crate::chunker::chunks_of(
                    old(self).state.chunker.fed(),
                    old(repo).config_spec().chunker_bits,
                ),
            ) ==> final(repo).content_of(old(self).key@) == Some(old(self).intent()),
            r is Err ==> crate::repository::meta_block_preserved(
                old(repo).stored_blocks(),
                final(repo).stored_blocks(),
            ),
    {
        if !self.state.writing {
            self.state.buffered_chunk = None;
            let r = repo.flush_all();
            match r {
                Ok(_) => { return Ok(()) },
                Err(e) => { return Err(e) },
            }
        }
        let ghost m0 = repo.chunk_map();
        let ghost e0 = entry_of(repo.entries(), self.key@).unwrap();
        let ghost fed = self.state.chunker.fed();
        let ghost bits = repo.config_spec().chunker_bits;
        let index = match &self.state.start_location {
            Some(loc) => loc.index,
            None => { return Err(RepoError::Corruption) },
        };
        // keep the chunks strictly before the session
        let mut merged: Vec<Chunk> = Vec::new();
        let mut kept_size: u64 = 0;
        let mut j: usize = 0;
        proof {
            lemma_sum_sizes_take(e0.chunks, index as int);
        }
        while j < index
            invariant
                j <= index,
                repo.inv(),
                repo.entries() == old(repo).entries(),
                repo.config_spec() == old(repo).config_spec(),
                repo.id_spec() == old(repo).id_spec(),
                map_extends(m0, repo.chunk_map()),
                m0 == old(repo).chunk_map(),
                entry_of(repo.entries(), self.key@) == Some(e0),
                index <= e0.chunks.len(),
                merged@.len() == j,
                forall|k: int| 0 <= k < j ==> (#[trigger] merged@[k])@ == e0.chunks[k],
                kept_size == sum_sizes(e0.chunks.take(j as int)),
                kept_size <= u64::MAX,
                sum_sizes(e0.chunks.take(j as int)) <= sum_sizes(e0.chunks),
            decreases index - j,
        {
            let c = {
                let entry = match repo.find_entry(&self.key) {
                    Some(e) => e,
                    None => { return Err(RepoError::Corruption) },
                };
                entry.chunks[j].duplicate()
            };
            proof {
                lemma_sum_sizes_take_step(e0.chunks, j as int);
                lemma_sum_sizes_take(e0.chunks, j + 1);
                lemma_sum_sizes_take(e0.chunks, e0.chunks.len() as int);
                assert(c@ == e0.chunks[j as int]);
            }
            kept_size = kept_size + c.size;
            merged.push(c);
            j = j + 1;
        }
        // store the freshly cut chunks and append their references
        let drained = self.state.chunker.drain();
        self.state.writing = false;
        self.state.start_location = None;
        self.state.buffered_chunk = None;
        proof {
            self.state.base@ = Seq::empty();
        }
        let ghost cviews = crate::chunker::views_of(drained@);
        proof {
            assert(cviews == crate::chunker::chunks_of(fed, bits));
        }
        let mut new_size: u64 = kept_size;
        let n = drained.len();
        let mut k: usize = 0;
        while k < n
            invariant
                k <= n,
                n == drained@.len(),
                repo.inv(),
                repo.entries() == old(repo).entries(),
                repo.config_spec() == old(repo).config_spec(),
                repo.id_spec() == old(repo).id_spec(),
                map_extends(m0, repo.chunk_map()),
                m0 == old(repo).chunk_map(),
                entry_of(repo.entries(), self.key@) == Some(e0),
                cviews == crate::chunker::views_of(drained@),
                merged@.len() == index + k,
                index <= e0.chunks.len(),
                forall|a: int| 0 <= a < index ==> (#[trigger] merged@[a])@ == e0.chunks[a],
                forall|a: int|
                    index <= a < merged@.len() ==> (#[trigger] merged@[a])@.digest == digest_of(
                        cviews[a - index],
                    ) && merged@[a]@.size == cviews[a - index].len(),
                chunks_clean(m0, cviews) ==> forall|a: int|
                    0 <= a < k ==> repo.chunk_map().contains_key(digest_of(
                        #[trigger] cviews[a],
                    )) && repo.chunk_map()[digest_of(cviews[a])] == cviews[a],
                crate::repository::meta_block_preserved(
                    old(repo).stored_blocks(),
                    repo.stored_blocks(),
                ),
                forall|d: Seq<u8>| #![trigger repo.chunk_map().contains_key(d)]
                    repo.chunk_map().contains_key(d) ==> m0.contains_key(d) || exists|a: int|
                        0 <= a < k && digest_of(#[trigger] cviews[a]) == d,
                new_size == kept_size + sum_new_sizes(cviews.take(k as int)),
                new_size <= u64::MAX,
            decreases n - k,
        {
            let clen = drained[k].len();
            if clen as u64 > u64::MAX - new_size {
                return Err(RepoError::Corruption);
            }
            let ghost mpre = repo.chunk_map();
            let d = match repo.put_chunk(&drained[k]) {
                Ok(d) => d,
                Err(e) => { return Err(e) },
            };
            proof {
                assert(crate::repository::chunk_block_id(d@)
                    != crate::repository::metadata_block_id()) by {
                    assert(crate::repository::chunk_block_id(d@)[0] == 1u8);
                    assert(crate::repository::metadata_block_id()[0] == 0u8);
                }
                assert(drained@[k as int]@ == cviews[k as int]);
                lemma_sum_new_take_step(cviews, k as int);
                assert forall|dd: Seq<u8>| #![trigger repo.chunk_map().contains_key(dd)]
                    repo.chunk_map().contains_key(dd) implies m0.contains_key(dd) || exists|
                    a: int|
                    0 <= a < k + 1 && digest_of(#[trigger] cviews[a]) == dd by {
                    if !mpre.contains_key(dd) {
                        assert(dd == d@);
                        assert(digest_of(cviews[k as int]) == dd);
                    } else {
                        if !m0.contains_key(dd) {
                            let a = choose|a: int|
                                0 <= a < k && digest_of(#[trigger] cviews[a]) == dd;
                            assert(digest_of(cviews[a]) == dd);
                        }
                    }
                }
                if chunks_clean(m0, cviews) {
                    assert forall|a: int| 0 <= a < k + 1 implies repo.chunk_map().contains_key(
                        digest_of(#[trigger] cviews[a]),
                    ) && repo.chunk_map()[digest_of(cviews[a])] == cviews[a] by {
                        if a < k {
                            assert(mpre.contains_key(digest_of(cviews[a])) && mpre[digest_of(
                                cviews[a],
                            )] == cviews[a]);
                        } else {
                            if mpre.contains_key(d@) {
                                if m0.contains_key(d@) {
                                    assert(m0[d@] == cviews[k as int]);
                                    assert(mpre[d@] == m0[d@]);
                                } else {
                                    let b = choose|b: int|
                                        0 <= b < k && digest_of(#[trigger] cviews[b]) == d@;
                                    assert(mpre[digest_of(cviews[b])] == cviews[b]);
                                    assert(cviews[b] == cviews[k as int]);
                                }
                                assert(repo.chunk_map() == mpre);
                            }
                        }
                    }
                }
            }
            new_size = new_size + clen as u64;
            merged.push(Chunk { digest: d, size: clen as u64 });
            k = k + 1;
        }
        proof {
            assert(cviews.take(n as int) =~= cviews);
        }
        let ghost mergedm = merged@.map_values(|c: Chunk| c@);
        repo.set_entry(&self.key, merged, new_size);
        let r = repo.flush_all();
        match r {
            Ok(_) => {},
            Err(e) => { return Err(e) },
        }
        proof {
            let mf = repo.chunk_map();
            let ghost enew = entry_of(repo.entries(), self.key@).unwrap();
            assert(enew.chunks == mergedm);
            if chunks_clean(m0, cviews) && entry_tracked(e0.chunks.take(index as int), m0)
                && old(self).state.base@ == entry_content(e0.chunks.take(index as int), m0) {
                lemma_entry_content_split(mergedm, mf, index as int);
                assert(mergedm.take(index as int) =~= e0.chunks.take(index as int));
                lemma_entry_content_mono(e0.chunks.take(index as int), m0, mf);
                let newpart = mergedm.skip(index as int);
                assert(newpart.len() == cviews.len());
                assert forall|a: int| 0 <= a < newpart.len() implies (#[trigger] newpart[a]).digest
                    == digest_of(cviews[a]) by {
                    assert(newpart[a] == mergedm[a + index]);
                }
                assert forall|a: int|
                    0 <= a < cviews.len() implies mf.contains_key(digest_of(
                    #[trigger] cviews[a],
                )) && mf[digest_of(cviews[a])] == cviews[a] by {}
                lemma_entry_content_of_chunks(newpart, cviews, mf);
                lemma_concat_agree(cviews);
                crate::chunker::lemma_chunks_of_concat(fed, bits);
                assert(entry_content(mergedm, mf) == old(self).state.base@ + fed);
            }
            assert(self.wf(&*repo)) by {
                assert(sum_sizes(mergedm) == new_size) by {
                    lemma_sum_sizes_mixed(mergedm, e0.chunks, index as int, cviews, kept_size as int);
                }
            }
        }
        Ok(())
    }
}

/// The summed lengths of a list of byte strings.
pub open spec fn sum_new_sizes(cs: Seq<Seq<u8>>) -> int
    decreases cs.len(),
{
    if cs.len() == 0 {
        0
    } else {
        cs[0].len() + sum_new_sizes(cs.drop_first())
    }
}

pub proof fn lemma_sum_new_take_step(cs: Seq<Seq<u8>>, i: int)
    requires
        0 <= i < cs.len(),
    ensures
        sum_new_sizes(cs.take(i + 1)) == sum_new_sizes(cs.take(i)) + cs[i].len(),
    decreases i,
{
    if i == 0 {
        assert(cs.take(0) =~= Seq::<Seq<u8>>::empty());
        assert(cs.take(1)[0] == cs[0]);
        assert(cs.take(1).drop_first() =~= Seq::<Seq<u8>>::empty());
    } else {
        assert(cs.take(i + 1)[0] == cs[0]);
        assert(cs.take(i)[0] == cs[0]);
        assert(cs.take(i + 1).drop_first() =~= cs.drop_first().take(i));
        assert(cs.take(i).drop_first() =~= cs.drop_first().take(i - 1));
        lemma_sum_new_take_step(cs.drop_first(), i - 1);
    }
}

/// The size of a merged chunk list: the kept prefix plus the new bytes.
pub proof fn lemma_sum_sizes_mixed(
    merged: Seq<ChunkModel>,
    olds: Seq<ChunkModel>,
    index: int,
    cviews: Seq<Seq<u8>>,
    kept: int,
)
    requires
        0 <= index <= olds.len(),
        merged.len() == index + cviews.len(),
        forall|a: int| 0 <= a < index ==> (#[trigger] merged[a]) == olds[a],
        forall|a: int|
            index <= a < merged.len() ==> (#[trigger] merged[a]).size == cviews[a - index].len(),
        kept == sum_sizes(olds.take(index)),
    ensures
        sum_sizes(merged) == kept + sum_new_sizes(cviews),
    decreases merged.len(),
{
    if index > 0 {
        assert(merged[0] == olds[0]);
        assert(olds.take(index)[0] == olds[0]);
        assert(olds.take(index).drop_first() =~= olds.drop_first().take(index - 1));
        assert(forall|a: int|
            0 <= a < index - 1 ==> (#[trigger] merged.drop_first()[a]) == olds.drop_first()[a]);
        assert(forall|a: int|
            index - 1 <= a < merged.len() - 1 ==> (#[trigger] merged.drop_first()[a]).size
                == cviews[a - (index - 1)].len());
        lemma_sum_sizes_mixed(
            merged.drop_first(),
            olds.drop_first(),
            index - 1,
            cviews,
            sum_sizes(olds.drop_first().take(index - 1)),
        );
    } else {
        if merged.len() == 0 {
        } else {
            assert(merged[0].size == cviews[0].len());
            assert(forall|a: int|
                0 <= a < merged.len() - 1 ==> (#[trigger] merged.drop_first()[a]).size
                    == cviews.drop_first()[a].len());
            assert(olds.take(0) =~= Seq::<ChunkModel>::empty());
            lemma_sum_sizes_mixed(
                merged.drop_first(),
                olds,
                0,
                cviews.drop_first(),
                0,
            );
        }
    }
}


/// One tracked chunk is one aligned slice of the content.
pub proof fn lemma_entry_content_chunk_at(cs: Seq<ChunkModel>, m: Map<Seq<u8>, Seq<u8>>, i: int)
    requires
        entry_tracked(cs, m),
        0 <= i < cs.len(),
    ensures
        m[cs[i].digest] == entry_content(cs, m).subrange(
            sum_sizes(cs.take(i)),
            sum_sizes(cs.take(i + 1)),
        ),
{
    lemma_entry_content_split(cs, m, i);
    let a = entry_content(cs.take(i), m);
    let b = entry_content(cs.skip(i), m);
    assert(entry_tracked(cs.take(i), m)) by {
        assert(forall|k: int| 0 <= k < i ==> (#[trigger] cs.take(i)[k]) == cs[k]);
    }
    assert(entry_tracked(cs.skip(i), m)) by {
        assert(forall|k: int|
            0 <= k < cs.len() - i ==> (#[trigger] cs.skip(i)[k]) == cs[k + i]);
    }
    lemma_entry_content_len(cs.take(i), m);
    lemma_entry_content_len(cs.skip(i), m);
    lemma_sum_sizes_take_step(cs, i);
    assert(cs.skip(i)[0] == cs[i]);
    assert(b == m[cs[i].digest] + entry_content(cs.skip(i).drop_first(), m));
    assert(m.contains_key(cs[i].digest) && m[cs[i].digest].len() == cs[i].size);
    assert(m[cs[i].digest] =~= entry_content(cs, m).subrange(
        sum_sizes(cs.take(i)),
        sum_sizes(cs.take(i + 1)),
    ));
}

impl Object {
    /// Read up to `n` bytes from the current seek position; a pending
    /// write session is flushed first.  Reading at or past the end of the
    /// data yields nothing; a read that straddles chunk boundaries fetches
    /// each chunk in turn, reusing the read buffer within a chunk.
    #[verifier::rlimit(100)]
    pub fn read<S: DataStore>(&mut self, repo: &mut Repository<S>, n: usize) -> (r: Result<
        Vec<u8>,
        RepoError,
    >)
        requires
            old(self).wf(&*old(repo)),
            old(repo).inv(),
        ensures
            final(repo).inv(),
            final(repo).config_spec() == old(repo).config_spec(),
            final(repo).id_spec() == old(repo).id_spec(),
            map_extends(old(repo).chunk_map(), final(repo).chunk_map()),
            !old(self).pending() ==> final(repo).entries() == old(repo).entries() && final(repo).chunk_map() == old(repo).chunk_map(),
            r matches Ok(v) ==> final(self).wf(&*final(repo)) && final(self).key@ == old(self).key@ && final(self).position_spec() == old(self).position_spec() + v@.len(),
            !old(self).pending() ==> (match entry_of(old(repo).entries(), old(self).key@) {
                Some(e) => entry_tracked(e.chunks, old(repo).chunk_map()) ==> (match r {
                    Ok(v) => v@ == entry_content(e.chunks, old(repo).chunk_map()).subrange(
                        clamp_spec(old(self).position_spec(), e.size),
                        clamp_n_spec(old(self).position_spec(), n, e.size),
                    ),
                    Err(err) => err == RepoError::Backend,
                }),
                None => false,
            }),
    {
        if self.state.writing {
            self.flush(repo)?;
        }
        let ghost m0 = repo.chunk_map();
        let ghost es1 = repo.entries();
        let ghost e0 = entry_of(repo.entries(), self.key@).unwrap();
        let ghost content0 = entry_content(e0.chunks, m0);
        let ghost pos0 = self.state.position;
        let ghost start0 = clamp_spec(pos0, e0.size);
        let ghost stop0 = clamp_n_spec(pos0, n, e0.size);
        let ghost tracked0 = entry_tracked(e0.chunks, m0);
        proof {
            if !old(self).pending() {
                assert(es1 == old(repo).entries());
                assert(m0 == old(repo).chunk_map());
            }
            if tracked0 {
                lemma_entry_content_len(e0.chunks, m0);
                assert(content0.len() == e0.size);
            }
        }
        let mut out: Vec<u8> = Vec::new();
        while out.len() < n
            invariant
                out@.len() <= n,
                repo.inv(),
                repo.entries() == es1,
                repo.config_spec() == old(repo).config_spec(),
                repo.id_spec() == old(repo).id_spec(),
                repo.chunk_map() == m0,
                map_extends(old(repo).chunk_map(), m0),
                self.wf(&*repo),
                !self.pending(),
                self.key@ == old(self).key@,
                entry_of(repo.entries(), self.key@) == Some(e0),
                content0 == entry_content(e0.chunks, m0),
                pos0 == old(self).position_spec(),
                start0 == clamp_spec(pos0, e0.size),
                stop0 == clamp_n_spec(pos0, n, e0.size),
                tracked0 == entry_tracked(e0.chunks, m0),
                tracked0 ==> content0.len() == e0.size,
                self.state.position == pos0 + out@.len(),
                tracked0 ==> out@ == content0.subrange(start0, start0 + out@.len()) && start0
                    + out@.len() <= stop0,
            decreases n - out@.len(),
        {
            let pos = self.state.position;
            let loc = {
                let entry = match repo.find_entry(&self.key) {
                    Some(e) => e,
                    None => { return Err(RepoError::Corruption) },
                };
                if pos >= entry.size {
                    proof {
                        if tracked0 {
                            assert(out@ =~= content0.subrange(start0, stop0));
                        }
                    }
                    break;
                }
                proof {
                    lemma_sum_sizes_take(e0.chunks, e0.chunks.len() as int);
                }
                match locate(entry, pos) {
                    Some(loc) => loc,
                    None => { return Err(RepoError::Corruption) },
                }
            };
            let reuse = match &self.state.buffered_chunk {
                Some(c) => bytes_eq(c.digest.as_slice(), loc.chunk.digest.as_slice()),
                None => false,
            };
            if !reuse {
                let pt = match repo.get_chunk(&loc.chunk.digest) {
                    Ok(v) => v,
                    Err(e) => {
                        proof {
                            if tracked0 {
                                assert(m0.contains_key(e0.chunks[loc.index as int].digest));
                            }
                        }
                        return Err(e);
                    },
                };
                self.state.read_buffer = pt;
                self.state.buffered_chunk = Some(loc.chunk.duplicate());
            }
            proof {
                if tracked0 {
                    assert(m0.contains_key(e0.chunks[loc.index as int].digest));
                    assert(self.state.read_buffer@ == m0[e0.chunks[loc.index as int].digest]);
                    lemma_entry_content_chunk_at(e0.chunks, m0, loc.index as int);
                    lemma_sum_sizes_take(e0.chunks, loc.index + 1);
                    assert(self.state.read_buffer@ == content0.subrange(
                        loc.start as int,
                        loc.end as int,
                    ));
                    assert(self.state.read_buffer@.len() == e0.chunks[loc.index as int].size);
                }
            }
            let relu = loc.position - loc.start;
            if relu >= self.state.read_buffer.len() as u64 {
                proof {
                    if tracked0 {
                        assert(relu < e0.chunks[loc.index as int].size);
                        assert(false);
                    }
                }
                return Err(RepoError::Corruption);
            }
            let rel = relu as usize;
            let avail = self.state.read_buffer.len() - rel;
            let room = n - out.len();
            let take_n = if avail < room {
                avail
            } else {
                room
            };
            if take_n as u64 > u64::MAX - self.state.position {
                proof {
                    if tracked0 {
                        assert(pos + take_n <= loc.end);
                        assert(false);
                    }
                }
                return Err(RepoError::Corruption);
            }
            let ghost oldout = out@;
            let piece = read_bytes(&self.state.read_buffer, rel, take_n);
            crate::bytes::push_bytes(&mut out, piece.as_slice());
            self.state.position = self.state.position + take_n as u64;
            proof {
                if tracked0 {
                    assert(start0 == pos0);
                    assert(pos == pos0 + oldout.len());
                    assert(pos + take_n <= loc.end);
                    lemma_sum_sizes_take(e0.chunks, loc.index + 1);
                    assert(loc.end <= e0.size);
                    assert(piece@ == self.state.read_buffer@.subrange(rel as int, rel + take_n));
                    assert(piece@ =~= content0.subrange(pos as int, pos + take_n));
                    assert(out@ =~= content0.subrange(start0, start0 + out@.len()));
                    assert(start0 + out@.len() <= stop0);
                }
            }
        }
        proof {
            if tracked0 && out@.len() == n {
                assert(out@ =~= content0.subrange(start0, stop0));
            }
        }
        Ok(out)
    }
}

/// The clamped end of a read of `n` bytes from `pos`.
pub open spec fn clamp_n_spec(pos: u64, n: usize, size: u64) -> int {
    if pos as int + n as int <= size as int {
        pos as int + n as int
    } else {
        size as int
    }
}

} // verus!
