//! The header: the repository-wide index from logical keys to ordered
//! chunk sequences and object sizes.
//!
//! The header is serialized by the verified codec in this module, chunked
//! and stored through the same pipeline as any object, so its integrity
//! and confidentiality follow the same guarantees as user data.  The
//! decoder is specified against a specification parser: it returns exactly
//! what the bytes denote, or `Corruption`.
use vstd::prelude::*;

use crate::bytes::{
    lp_bytes, parse_lp, parse_lp_spec, parse_u64, parse_u64_spec, push_lp_bytes, push_u64_le,
    read_bytes, u64_le,
};
use crate::errors::RepoError;

verus! {

/// One stored chunk: the digest of its plaintext, and its plaintext size.
#[derive(Debug)]
pub struct Chunk {
    /// The content address: the digest of the chunk's plaintext.
    pub digest: Vec<u8>,
    /// The plaintext size of the chunk in bytes.
    pub size: u64,
}

/// The mathematical content of a chunk reference.
pub ghost struct ChunkModel {
    pub digest: Seq<u8>,
    pub size: u64,
}

impl View for Chunk {
    type V = ChunkModel;

    open spec fn view(&self) -> ChunkModel {
        ChunkModel { digest: self.digest@, size: self.size }
    }
}

impl Chunk {
    /// An identical copy of this chunk reference.
    pub fn duplicate(&self) -> (r: Chunk)
        ensures
            r@ == self@,
    {
        let digest = read_bytes(&self.digest, 0, self.digest.len());
        proof {
            assert(digest@ =~= self.digest@);
        }
        Chunk { digest, size: self.size }
    }
}

/// One header entry: a logical key, its ordered chunk references, and the
/// object's total size.
pub struct HeaderEntry {
    /// The logical key this entry belongs to.
    pub key: Vec<u8>,
    /// The ordered chunk references that make up the object.
    pub chunks: Vec<Chunk>,
    /// The total size of the object in bytes.
    pub size: u64,
}

/// The mathematical content of a header entry.
pub ghost struct EntryModel {
    pub key: Seq<u8>,
    pub chunks: Seq<ChunkModel>,
    pub size: u64,
}

impl View for HeaderEntry {
    type V = EntryModel;

    open spec fn view(&self) -> EntryModel {
        EntryModel {
            key: self.key@,
            chunks: self.chunks@.map_values(|c: Chunk| c@),
            size: self.size,
        }
    }
}

/// The header: all entries, with pairwise distinct keys.
pub struct Header {
    /// The entries; the repository keeps their keys distinct.
    pub entries: Vec<HeaderEntry>,
}

impl View for Header {
    type V = Seq<EntryModel>;

    open spec fn view(&self) -> Seq<EntryModel> {
        self.entries@.map_values(|e: HeaderEntry| e@)
    }
}

/// Whether all entry keys are pairwise distinct.
pub open spec fn keys_unique(hs: Seq<EntryModel>) -> bool {
    forall|i: int, j: int|
        0 <= i < j < hs.len() ==> (#[trigger] hs[i]).key != (#[trigger] hs[j]).key
}

impl Header {
    /// An empty header.
    pub fn new() -> (r: Header)
        ensures
            r@ == Seq::<EntryModel>::empty(),
    {
        let r = Header { entries: Vec::new() };
        proof {
            assert(r@ =~= Seq::<EntryModel>::empty());
        }
        r
    }

    /// The index of the entry under `key`, if any.
    pub fn find(&self, key: &Vec<u8>) -> (r: Option<usize>)
        ensures
            r matches Some(i) ==> 0 <= i < self@.len() && self@[i as int].key == key@,
            r is None ==> forall|j: int| 0 <= j < self@.len() ==> (#[trigger] self@[j]).key != key@,
    {
        let n = self.entries.len();
        let mut i: usize = 0;
        while i < n
            invariant
                i <= n,
                n == self.entries@.len(),
                forall|j: int| 0 <= j < i ==> (#[trigger] self@[j]).key != key@,
            decreases n - i,
        {
            if crate::bytes::bytes_eq(self.entries[i].key.as_slice(), key.as_slice()) {
                proof {
                    assert(self@[i as int].key == key@);
                }
                return Some(i);
            }
            i = i + 1;
        }
        None
    }
}

/// The stored bytes of one chunk reference.
pub open spec fn chunk_bytes(c: ChunkModel) -> Seq<u8> {
    lp_bytes(c.digest) + u64_le(c.size)
}

/// The stored bytes of a chunk list.
pub open spec fn chunks_bytes(cs: Seq<ChunkModel>) -> Seq<u8>
    decreases cs.len(),
{
    if cs.len() == 0 {
        Seq::empty()
    } else {
        chunk_bytes(cs[0]) + chunks_bytes(cs.drop_first())
    }
}

/// The stored bytes of one header entry.
pub open spec fn entry_bytes(e: EntryModel) -> Seq<u8> {
    lp_bytes(e.key) + u64_le(e.size) + u64_le(e.chunks.len() as u64) + chunks_bytes(e.chunks)
}

/// The stored bytes of an entry list.
pub open spec fn entries_bytes(hs: Seq<EntryModel>) -> Seq<u8>
    decreases hs.len(),
{
    if hs.len() == 0 {
        Seq::empty()
    } else {
        entry_bytes(hs[0]) + entries_bytes(hs.drop_first())
    }
}

/// The stored bytes of a whole header.
pub open spec fn header_bytes(hs: Seq<EntryModel>) -> Seq<u8> {
    u64_le(hs.len() as u64) + entries_bytes(hs)
}

pub proof fn lemma_chunks_bytes_snoc(cs: Seq<ChunkModel>, c: ChunkModel)
    ensures
        chunks_bytes(cs.push(c)) == chunks_bytes(cs) + chunk_bytes(c),
    decreases cs.len(),
{
    if cs.len() == 0 {
        assert(cs.push(c)[0] == c);
        assert(cs.push(c).drop_first() =~= Seq::<ChunkModel>::empty());
        assert(chunks_bytes(Seq::<ChunkModel>::empty()) =~= Seq::<u8>::empty());
        assert(chunks_bytes(cs.push(c)) =~= chunk_bytes(c) + Seq::<u8>::empty());
        assert(chunks_bytes(cs) =~= Seq::<u8>::empty());
        assert(chunks_bytes(cs.push(c)) =~= chunks_bytes(cs) + chunk_bytes(c));
    } else {
        assert(cs.push(c).drop_first() =~= cs.drop_first().push(c));
        assert(cs.push(c)[0] == cs[0]);
        lemma_chunks_bytes_snoc(cs.drop_first(), c);
        assert(chunks_bytes(cs.push(c)) == chunk_bytes(cs[0]) + chunks_bytes(
            cs.drop_first().push(c),
        ));
        assert(chunks_bytes(cs.push(c)) =~= chunks_bytes(cs) + chunk_bytes(c));
    }
}

pub proof fn lemma_entries_bytes_snoc(hs: Seq<EntryModel>, e: EntryModel)
    ensures
        entries_bytes(hs.push(e)) == entries_bytes(hs) + entry_bytes(e),
    decreases hs.len(),
{
    if hs.len() == 0 {
        assert(hs.push(e)[0] == e);
        assert(hs.push(e).drop_first() =~= Seq::<EntryModel>::empty());
        assert(entries_bytes(Seq::<EntryModel>::empty()) =~= Seq::<u8>::empty());
        assert(entries_bytes(hs.push(e)) =~= entry_bytes(e) + Seq::<u8>::empty());
        assert(entries_bytes(hs) =~= Seq::<u8>::empty());
        assert(entries_bytes(hs.push(e)) =~= entries_bytes(hs) + entry_bytes(e));
    } else {
        assert(hs.push(e).drop_first() =~= hs.drop_first().push(e));
        assert(hs.push(e)[0] == hs[0]);
        lemma_entries_bytes_snoc(hs.drop_first(), e);
        assert(entries_bytes(hs.push(e)) == entry_bytes(hs[0]) + entries_bytes(
            hs.drop_first().push(e),
        ));
        assert(entries_bytes(hs.push(e)) =~= entries_bytes(hs) + entry_bytes(e));
    }
}

/// The specification parser for a chunk list of known count.
pub open spec fn parse_chunks_spec(s: Seq<u8>, pos: int, n: nat) -> Option<(Seq<ChunkModel>, int)>
    decreases n,
{
    if n == 0 {
        Some((Seq::empty(), pos))
    } else {
        match parse_lp_spec(s, pos) {
            Some((digest, p1)) => match parse_u64_spec(s, p1) {
                Some((size, p2)) => match parse_chunks_spec(s, p2, (n - 1) as nat) {
                    Some((rest, p3)) => Some(
                        (seq![ChunkModel { digest, size }] + rest, p3),
                    ),
                    None => None,
                },
                None => None,
            },
            None => None,
        }
    }
}

/// The specification parser for one header entry.
pub open spec fn parse_entry_spec(s: Seq<u8>, pos: int) -> Option<(EntryModel, int)> {
    match parse_lp_spec(s, pos) {
        Some((key, p1)) => match parse_u64_spec(s, p1) {
            Some((size, p2)) => match parse_u64_spec(s, p2) {
                Some((count, p3)) => match parse_chunks_spec(s, p3, count as nat) {
                    Some((chunks, p4)) => Some((EntryModel { key, chunks, size }, p4)),
                    None => None,
                },
                None => None,
            },
            None => None,
        },
        None => None,
    }
}

/// The specification parser for an entry list of known count.
pub open spec fn parse_entries_spec(s: Seq<u8>, pos: int, n: nat) -> Option<(Seq<EntryModel>, int)>
    decreases n,
{
    if n == 0 {
        Some((Seq::empty(), pos))
    } else {
        match parse_entry_spec(s, pos) {
            Some((e, p1)) => match parse_entries_spec(s, p1, (n - 1) as nat) {
                Some((rest, p2)) => Some((seq![e] + rest, p2)),
                None => None,
            },
            None => None,
        }
    }
}

/// The specification parser for a whole header.
pub open spec fn parse_header_spec(s: Seq<u8>) -> Option<Seq<EntryModel>> {
    match parse_u64_spec(s, 0) {
        Some((count, p0)) => match parse_entries_spec(s, p0, count as nat) {
            Some((hs, _)) => Some(hs),
            None => None,
        },
        None => None,
    }
}

/// Encode a header for storage.
#[verifier::rlimit(100)]
pub fn encode_header(h: &Header) -> (r: Vec<u8>)
    ensures
        r@ == header_bytes(h@),
{
    let mut out: Vec<u8> = Vec::new();
    let n = h.entries.len();
    push_u64_le(&mut out, n as u64);
    proof {
        assert(h@.take(0) =~= Seq::<EntryModel>::empty());
        assert(out@ =~= u64_le(n as u64) + entries_bytes(h@.take(0)));
    }
    let mut i: usize = 0;
    while i < n
        invariant
            i <= n,
            n == h.entries@.len(),
            out@ == u64_le(n as u64) + entries_bytes(h@.take(i as int)),
        decreases n - i,
    {
        let e = &h.entries[i];
        push_lp_bytes(&mut out, &e.key);
        push_u64_le(&mut out, e.size);
        let cn = e.chunks.len();
        push_u64_le(&mut out, cn as u64);
        let ghost mid = out@;
        let mut j: usize = 0;
        while j < cn
            invariant
                j <= cn,
                cn == e.chunks@.len(),
                out@ == mid + chunks_bytes(e@.chunks.take(j as int)),
            decreases cn - j,
        {
            push_lp_bytes(&mut out, &e.chunks[j].digest);
            push_u64_le(&mut out, e.chunks[j].size);
            proof {
                assert(e@.chunks.take(j + 1) =~= e@.chunks.take(j as int).push(
                    e@.chunks[j as int],
                ));
                lemma_chunks_bytes_snoc(e@.chunks.take(j as int), e@.chunks[j as int]);
                assert(out@ =~= mid + chunks_bytes(e@.chunks.take(j + 1)));
            }
            j = j + 1;
        }
        proof {
            assert(e@.chunks.take(cn as int) =~= e@.chunks);
            assert(h@.take(i + 1) =~= h@.take(i as int).push(h@[i as int]));
            lemma_entries_bytes_snoc(h@.take(i as int), h@[i as int]);
            assert(out@ =~= u64_le(n as u64) + entries_bytes(h@.take(i + 1)));
        }
        i = i + 1;
    }
    proof {
        assert(h@.take(n as int) =~= h@);
    }
    out
}

/// What the chunk-list loop has established so far, glued to what remains.
pub open spec fn glue_chunks(prefix: Seq<ChunkModel>, rest: Option<(Seq<ChunkModel>, int)>) -> Option<
    (Seq<ChunkModel>, int),
> {
    match rest {
        Some((cs, p)) => Some((prefix + cs, p)),
        None => None,
    }
}

/// What the entry-list loop has established so far, glued to what remains.
pub open spec fn glue_entries(prefix: Seq<EntryModel>, rest: Option<(Seq<EntryModel>, int)>) -> Option<
    (Seq<EntryModel>, int),
> {
    match rest {
        Some((es, p)) => Some((prefix + es, p)),
        None => None,
    }
}

/// Decode one entry at `pos`, exactly as the specification parser does.
fn decode_entry(s: &Vec<u8>, pos: usize) -> (r: Option<(HeaderEntry, usize)>)
    ensures
        r matches Some((e, p)) ==> parse_entry_spec(s@, pos as int) == Some((e@, p as int)) && p
            <= s@.len(),
        r is None ==> parse_entry_spec(s@, pos as int) is None,
{
    let (key, p1) = match parse_lp(s, pos) {
        Some(x) => x,
        None => { return None },
    };
    let (size, p2) = match parse_u64(s, p1) {
        Some(x) => x,
        None => { return None },
    };
    let (count, p3) = match parse_u64(s, p2) {
        Some(x) => x,
        None => { return None },
    };
    let mut chunks: Vec<Chunk> = Vec::new();
    let mut cur: usize = p3;
    let mut k: u64 = 0;
    proof {
        assert(chunks@.map_values(|c: Chunk| c@) =~= Seq::<ChunkModel>::empty());
    }
    while k < count
        invariant
            k <= count,
            cur <= s@.len(),
            parse_chunks_spec(s@, p3 as int, count as nat) == glue_chunks(
                chunks@.map_values(|c: Chunk| c@),
                parse_chunks_spec(s@, cur as int, (count - k) as nat),
            ),
            chunks@.len() == k,
        decreases count - k,
    {
        let (digest, q1) = match parse_lp(s, cur) {
            Some(x) => x,
            None => { return None },
        };
        let (size_k, q2) = match parse_u64(s, q1) {
            Some(x) => x,
            None => { return None },
        };
        let ghost oldchunks = chunks@.map_values(|c: Chunk| c@);
        chunks.push(Chunk { digest, size: size_k });
        proof {
            assert(chunks@.map_values(|c: Chunk| c@) =~= oldchunks.push(
                ChunkModel { digest: digest@, size: size_k },
            ));
            assert(oldchunks.push(ChunkModel { digest: digest@, size: size_k }) + match parse_chunks_spec(
                s@,
                q2 as int,
                (count - k - 1) as nat,
            ) {
                Some((cs, _)) => cs,
                None => Seq::empty(),
            } =~= oldchunks + (seq![ChunkModel { digest: digest@, size: size_k }] + match parse_chunks_spec(
                s@,
                q2 as int,
                (count - k - 1) as nat,
            ) {
                Some((cs, _)) => cs,
                None => Seq::empty(),
            }));
        }
        cur = q2;
        k = k + 1;
    }
    proof {
        assert(parse_chunks_spec(s@, cur as int, 0) == Some(
            (Seq::<ChunkModel>::empty(), cur as int),
        ));
        assert(chunks@.map_values(|c: Chunk| c@) + Seq::<ChunkModel>::empty() =~= chunks@.map_values(
            |c: Chunk| c@,
        ));
    }
    let e = HeaderEntry { key, chunks, size };
    proof {
        assert(parse_entry_spec(s@, pos as int) == Some((e@, cur as int)));
    }
    Some((e, cur))
}

/// Decode a stored header, exactly as the specification parser does: every
/// well-formed encoding decodes to what it encodes, anything else is
/// `Corruption`.
pub fn decode_header(s: &Vec<u8>) -> (r: Result<Header, RepoError>)
    ensures
        r matches Ok(h) ==> parse_header_spec(s@) == Some(h@),
        r is Err ==> parse_header_spec(s@) is None,
        r matches Err(e) ==> e == RepoError::Corruption,
{
    let (count, p0) = match parse_u64(s, 0) {
        Some(x) => x,
        None => { return Err(RepoError::Corruption) },
    };
    let mut entries: Vec<HeaderEntry> = Vec::new();
    let mut cur: usize = p0;
    let mut k: u64 = 0;
    proof {
        assert(entries@.map_values(|e: HeaderEntry| e@) =~= Seq::<EntryModel>::empty());
    }
    while k < count
        invariant
            k <= count,
            cur <= s@.len(),
            parse_entries_spec(s@, p0 as int, count as nat) == glue_entries(
                entries@.map_values(|e: HeaderEntry| e@),
                parse_entries_spec(s@, cur as int, (count - k) as nat),
            ),
            entries@.len() == k,
        decreases count - k,
    {
        let (e, p) = match decode_entry(s, cur) {
            Some(x) => x,
            None => { return Err(RepoError::Corruption) },
        };
        let ghost oldentries = entries@.map_values(|e2: HeaderEntry| e2@);
        let ghost em = e@;
        entries.push(e);
        proof {
            assert(entries@.map_values(|e2: HeaderEntry| e2@) =~= oldentries.push(em));
            assert(oldentries.push(em) + match parse_entries_spec(
                s@,
                p as int,
                (count - k - 1) as nat,
            ) {
                Some((es, _)) => es,
                None => Seq::empty(),
            } =~= oldentries + (seq![em] + match parse_entries_spec(
                s@,
                p as int,
                (count - k - 1) as nat,
            ) {
                Some((es, _)) => es,
                None => Seq::empty(),
            }));
        }
        cur = p;
        k = k + 1;
    }
    proof {
        assert(parse_entries_spec(s@, cur as int, 0) == Some(
            (Seq::<EntryModel>::empty(), cur as int),
        ));
        assert(entries@.map_values(|e: HeaderEntry| e@) + Seq::<EntryModel>::empty()
            =~= entries@.map_values(|e: HeaderEntry| e@));
    }
    let h = Header { entries };
    proof {
        assert(parse_header_spec(s@) == Some(h@));
    }
    Ok(h)
}

} // verus!
