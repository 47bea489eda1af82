//! The pluggable block-store boundary, and a verified in-memory store.
//!
//! A backend is anything that can upsert, read, remove and list opaque
//! blocks under opaque identifiers.  The repository core is generic over
//! this capability set; `MemoryStore` is the verified reference backend.
use vstd::prelude::*;

use crate::bytes::{bytes_eq, read_bytes};
use crate::errors::RepoError;

verus! {

/// The capability set a storage backend must satisfy, specified over the
/// mathematical content `blocks()`: a map from block identifier to bytes.
pub trait DataStore: Sized {
    /// The stored content: block identifier to block bytes.
    spec fn blocks(&self) -> Map<Seq<u8>, Seq<u8>>;

    /// Upsert one block.
    fn write_block(&mut self, id: &Vec<u8>, data: &Vec<u8>) -> (r: Result<(), RepoError>)
        ensures
            r is Ok ==> final(self).blocks() == old(self).blocks().insert(id@, data@),
            r is Err ==> final(self).blocks() == old(self).blocks(),
            r matches Err(e) ==> e == RepoError::Backend;

    /// Read one block; a missing identifier yields `None`, not an error.
    fn read_block(&mut self, id: &Vec<u8>) -> (r: Result<Option<Vec<u8>>, RepoError>)
        ensures
            final(self).blocks() == old(self).blocks(),
            r matches Ok(Some(v)) ==> old(self).blocks().contains_key(id@) && v@ == old(
                self,
            ).blocks()[id@],
            r matches Ok(None) ==> !old(self).blocks().contains_key(id@),
            r matches Err(e) ==> e == RepoError::Backend;

    /// Remove one block; removing a missing block succeeds.
    fn remove_block(&mut self, id: &Vec<u8>) -> (r: Result<(), RepoError>)
        ensures
            r is Ok ==> final(self).blocks() == old(self).blocks().remove(id@),
            r is Err ==> final(self).blocks() == old(self).blocks(),
            r matches Err(e) ==> e == RepoError::Backend;

    /// List every stored block identifier, each exactly once.
    fn list_blocks(&mut self) -> (r: Result<Vec<Vec<u8>>, RepoError>)
        ensures
            final(self).blocks() == old(self).blocks(),
            r matches Ok(ids) ==> lists_blocks(old(self).blocks(), ids@),
            r matches Err(e) ==> e == RepoError::Backend;
}

/// What a successful listing owes: exactly the stored identifiers, each once.
pub open spec fn lists_blocks(m: Map<Seq<u8>, Seq<u8>>, ids: Seq<Vec<u8>>) -> bool {
    &&& forall|k: int| 0 <= k < ids.len() ==> m.contains_key((#[trigger] ids[k])@)
    &&& forall|id: Seq<u8>|
        m.contains_key(id) ==> exists|k: int| 0 <= k < ids.len() && (#[trigger] ids[k])@ == id
    &&& forall|k1: int, k2: int|
        0 <= k1 < k2 < ids.len() ==> (#[trigger] ids[k1])@ != (#[trigger] ids[k2])@
}

/// What a successful listing owes, over the bare identifier sequences.
pub open spec fn lists_blocks_model(m: Map<Seq<u8>, Seq<u8>>, ids: Seq<Seq<u8>>) -> bool {
    &&& forall|k: int| 0 <= k < ids.len() ==> m.contains_key(#[trigger] ids[k])
    &&& forall|id: Seq<u8>|
        m.contains_key(id) ==> exists|k: int| 0 <= k < ids.len() && #[trigger] ids[k] == id
    &&& forall|k1: int, k2: int|
        0 <= k1 < k2 < ids.len() ==> (#[trigger] ids[k1]) != (#[trigger] ids[k2])
}

/// The identifier/bytes pairs a pair list denotes.
pub open spec fn pair_views(s: Seq<(Vec<u8>, Vec<u8>)>) -> Seq<(Seq<u8>, Seq<u8>)> {
    s.map_values(|p: (Vec<u8>, Vec<u8>)| (p.0@, p.1@))
}

/// The block map described by an association list; a later pair with the
/// same identifier overrides an earlier one.
pub open spec fn map_of(s: Seq<(Seq<u8>, Seq<u8>)>) -> Map<Seq<u8>, Seq<u8>>
    decreases s.len(),
{
    if s.len() == 0 {
        Map::empty()
    } else {
        map_of(s.drop_last()).insert(s.last().0, s.last().1)
    }
}

pub proof fn lemma_map_of_contains(s: Seq<(Seq<u8>, Seq<u8>)>, k: Seq<u8>)
    ensures
        map_of(s).contains_key(k) <==> exists|i: int|
            0 <= i < s.len() && (#[trigger] s[i]).0 == k,
    decreases s.len(),
{
    if s.len() > 0 {
        lemma_map_of_contains(s.drop_last(), k);
        if s.last().0 == k {
            assert(s[s.len() - 1].0 == k);
        } else {
            if map_of(s).contains_key(k) {
                let i = choose|i: int|
                    0 <= i < s.drop_last().len() && (#[trigger] s.drop_last()[i]).0 == k;
                assert(s[i].0 == k);
            }
            if exists|i: int| 0 <= i < s.len() && (#[trigger] s[i]).0 == k {
                let i = choose|i: int| 0 <= i < s.len() && (#[trigger] s[i]).0 == k;
                assert(i < s.len() - 1);
                assert(s.drop_last()[i].0 == k);
            }
        }
    }
}

/// The association list with every pair under `k` dropped.
pub open spec fn drop_key_spec(s: Seq<(Seq<u8>, Seq<u8>)>, k: Seq<u8>) -> Seq<(Seq<u8>, Seq<u8>)>
    decreases s.len(),
{
    if s.len() == 0 {
        s
    } else if s.last().0 == k {
        drop_key_spec(s.drop_last(), k)
    } else {
        drop_key_spec(s.drop_last(), k).push(s.last())
    }
}

pub proof fn lemma_map_of_drop_key(s: Seq<(Seq<u8>, Seq<u8>)>, k: Seq<u8>)
    ensures
        map_of(drop_key_spec(s, k)) == map_of(s).remove(k),
    decreases s.len(),
{
    if s.len() == 0 {
        assert(map_of(drop_key_spec(s, k)) =~= map_of(s).remove(k));
    } else {
        lemma_map_of_drop_key(s.drop_last(), k);
        if s.last().0 == k {
            assert(map_of(drop_key_spec(s, k)) =~= map_of(s).remove(k));
        } else {
            let t = drop_key_spec(s.drop_last(), k).push(s.last());
            assert(t.drop_last() =~= drop_key_spec(s.drop_last(), k));
            assert(t.last() == s.last());
            assert(map_of(drop_key_spec(s, k)) =~= map_of(s).remove(k));
        }
    }
}

/// Whether a later pair shares the identifier of the pair at `j`.
pub open spec fn has_later_dup(s: Seq<(Seq<u8>, Seq<u8>)>, j: int) -> bool {
    exists|m: int| j < m < s.len() && (#[trigger] s[m]).0 == s[j].0
}

/// Some pair under `id` has no later duplicate.
pub proof fn lemma_last_occurrence_exists(s: Seq<(Seq<u8>, Seq<u8>)>, id: Seq<u8>)
    requires
        exists|i: int| 0 <= i < s.len() && (#[trigger] s[i]).0 == id,
    ensures
        exists|j: int| 0 <= j < s.len() && (#[trigger] s[j]).0 == id && !has_later_dup(s, j),
    decreases s.len(),
{
    let n = s.len() as int;
    if s[n - 1].0 == id {
        assert(s[n - 1].0 == id && !has_later_dup(s, n - 1));
    } else {
        let i0 = choose|i: int| 0 <= i < s.len() && (#[trigger] s[i]).0 == id;
        assert(s.drop_last()[i0].0 == id);
        lemma_last_occurrence_exists(s.drop_last(), id);
        let j = choose|j: int|
            0 <= j < s.drop_last().len() && (#[trigger] s.drop_last()[j]).0 == id
                && !has_later_dup(s.drop_last(), j);
        assert(s[j].0 == id);
        assert forall|m: int| j < m < s.len() implies (#[trigger] s[m]).0 != s[j].0 by {
            if m < n - 1 {
                assert(s.drop_last()[m].0 == s[m].0);
                assert(!has_later_dup(s.drop_last(), j));
            }
        }
        assert(s[j].0 == id && !has_later_dup(s, j));
    }
}

/// The identifiers among the first `i` pairs that have no later duplicate:
/// each stored identifier exactly once, at its last occurrence.
pub open spec fn keys_nodup(vs: Seq<(Seq<u8>, Seq<u8>)>, i: int) -> Seq<Seq<u8>>
    decreases i,
{
    if i <= 0 {
        Seq::empty()
    } else if has_later_dup(vs, i - 1) {
        keys_nodup(vs, i - 1)
    } else {
        keys_nodup(vs, i - 1).push(vs[i - 1].0)
    }
}

pub proof fn lemma_keys_nodup(vs: Seq<(Seq<u8>, Seq<u8>)>, i: int)
    requires
        0 <= i <= vs.len(),
    ensures
        forall|k: int|
            0 <= k < keys_nodup(vs, i).len() ==> exists|j: int|
                0 <= j < i && (#[trigger] keys_nodup(vs, i)[k]) == vs[j].0 && !has_later_dup(
                    vs,
                    j,
                ),
        forall|j: int|
            0 <= j < i && !has_later_dup(vs, j) ==> keys_nodup(vs, i).contains(
                (#[trigger] vs[j]).0,
            ),
        forall|a: int, b: int|
            0 <= a < b < keys_nodup(vs, i).len() ==> (#[trigger] keys_nodup(vs, i)[a]) != (
            #[trigger] keys_nodup(vs, i)[b]),
    decreases i,
{
    if i > 0 {
        lemma_keys_nodup(vs, i - 1);
        let prev = keys_nodup(vs, i - 1);
        let cur = keys_nodup(vs, i);
        assert forall|k: int| 0 <= k < cur.len() implies exists|j: int|
            0 <= j < i && (#[trigger] cur[k]) == vs[j].0 && !has_later_dup(vs, j) by {
            if k < prev.len() {
                assert(cur[k] == prev[k]);
                let j = choose|j: int|
                    0 <= j < i - 1 && (#[trigger] prev[k]) == vs[j].0 && !has_later_dup(vs, j);
                assert(0 <= j < i && cur[k] == vs[j].0 && !has_later_dup(vs, j));
            } else {
                assert(!has_later_dup(vs, i - 1) && cur[k] == vs[i - 1].0);
            }
        }
        if !has_later_dup(vs, i - 1) {
            assert forall|j: int|
                0 <= j < i && !has_later_dup(vs, j) implies cur.contains(
                (#[trigger] vs[j]).0,
            ) by {
                if j < i - 1 {
                    assert(prev.contains(vs[j].0));
                    let k = choose|k: int| 0 <= k < prev.len() && prev[k] == vs[j].0;
                    assert(cur[k] == vs[j].0);
                } else {
                    assert(cur[cur.len() - 1] == vs[j].0);
                }
            }
            assert forall|a: int, b: int| 0 <= a < b < cur.len() implies (#[trigger] cur[a]) != (
            #[trigger] cur[b]) by {
                if b < cur.len() - 1 {
                    assert(cur[a] == prev[a] && cur[b] == prev[b]);
                } else {
                    assert(cur[b] == vs[i - 1].0);
                    assert(cur[a] == prev[a]);
                    let j = choose|j: int|
                        0 <= j < i - 1 && (#[trigger] prev[a]) == vs[j].0 && !has_later_dup(
                            vs,
                            j,
                        );
                    if cur[a] == cur[b] {
                        assert(vs[i - 1].0 == vs[j].0);
                        assert(has_later_dup(vs, j));
                    }
                }
            }
        } else {
            assert forall|j: int|
                0 <= j < i && !has_later_dup(vs, j) implies cur.contains(
                (#[trigger] vs[j]).0,
            ) by {
                assert(j != i - 1);
            }
        }
    }
}

/// A verified in-memory backend: the reference implementation of
/// `DataStore`, used directly and as the model of what an outside backend
/// must provide.
pub struct MemoryStore {
    entries: Vec<(Vec<u8>, Vec<u8>)>,
}

impl MemoryStore {
    /// An empty store.
    pub fn new() -> (r: MemoryStore)
        ensures
            r.blocks() == Map::<Seq<u8>, Seq<u8>>::empty(),
    {
        let r = MemoryStore { entries: Vec::new() };
        proof {
            assert(pair_views(r.entries@) =~= Seq::<(Seq<u8>, Seq<u8>)>::empty());
        }
        r
    }
}

impl DataStore for MemoryStore {
    closed spec fn blocks(&self) -> Map<Seq<u8>, Seq<u8>> {
        map_of(pair_views(self.entries@))
    }

    fn write_block(&mut self, id: &Vec<u8>, data: &Vec<u8>) -> (r: Result<(), RepoError>) {
        let k = read_bytes(id, 0, id.len());
        let v = read_bytes(data, 0, data.len());
        proof {
            assert(k@ =~= id@);
            assert(v@ =~= data@);
        }
        let ghost olde = self.entries@;
        self.entries.push((k, v));
        proof {
            assert(pair_views(self.entries@).drop_last() =~= pair_views(olde));
            assert(pair_views(self.entries@).last() == (id@, data@));
        }
        Ok(())
    }

    fn read_block(&mut self, id: &Vec<u8>) -> (r: Result<Option<Vec<u8>>, RepoError>) {
        let ghost vs = pair_views(self.entries@);
        let n = self.entries.len();
        proof {
            assert(vs.take(n as int) =~= vs);
        }
        let mut i: usize = n;
        while i > 0
            invariant
                i <= n,
                n == self.entries@.len(),
                vs == pair_views(self.entries@),
                map_of(vs).contains_key(id@) == map_of(vs.take(i as int)).contains_key(id@),
                map_of(vs).contains_key(id@) ==> map_of(vs)[id@] == map_of(
                    vs.take(i as int),
                )[id@],
            decreases i,
        {
            proof {
                assert(vs.take(i as int).drop_last() =~= vs.take(i - 1));
                assert(vs.take(i as int).last() == vs[i - 1]);
            }
            if bytes_eq(self.entries[i - 1].0.as_slice(), id.as_slice()) {
                let out = read_bytes(&self.entries[i - 1].1, 0, self.entries[i - 1].1.len());
                proof {
                    assert(out@ =~= vs[i - 1].1);
                }
                return Ok(Some(out));
            }
            i = i - 1;
        }
        proof {
            assert(vs.take(0) =~= Seq::<(Seq<u8>, Seq<u8>)>::empty());
        }
        Ok(None)
    }

    fn remove_block(&mut self, id: &Vec<u8>) -> (r: Result<(), RepoError>) {
        let ghost vs = pair_views(self.entries@);
        let n = self.entries.len();
        let mut kept: Vec<(Vec<u8>, Vec<u8>)> = Vec::new();
        let mut i: usize = 0;
        while i < n
            invariant
                i <= n,
                n == self.entries@.len(),
                vs == pair_views(self.entries@),
                pair_views(kept@) == drop_key_spec(vs.take(i as int), id@),
            decreases n - i,
        {
            proof {
                assert(vs.take(i + 1).drop_last() =~= vs.take(i as int));
                assert(vs.take(i + 1).last() == vs[i as int]);
            }
            if bytes_eq(self.entries[i].0.as_slice(), id.as_slice()) {
                proof {
                    assert(pair_views(kept@) =~= drop_key_spec(vs.take(i + 1), id@));
                }
            } else {
                let k = read_bytes(&self.entries[i].0, 0, self.entries[i].0.len());
                let v = read_bytes(&self.entries[i].1, 0, self.entries[i].1.len());
                proof {
                    assert(k@ =~= self.entries@[i as int].0@);
                    assert(v@ =~= self.entries@[i as int].1@);
                }
                let ghost oldkept = kept@;
                kept.push((k, v));
                proof {
                    assert(pair_views(kept@) =~= pair_views(oldkept).push(vs[i as int]));
                    assert(pair_views(kept@) =~= drop_key_spec(vs.take(i + 1), id@));
                }
            }
            i = i + 1;
        }
        proof {
            assert(vs.take(n as int) =~= vs);
            lemma_map_of_drop_key(vs, id@);
        }
        self.entries = kept;
        Ok(())
    }

    #[verifier::rlimit(60)]
    fn list_blocks(&mut self) -> (r: Result<Vec<Vec<u8>>, RepoError>) {
        let ghost vs = pair_views(self.entries@);
        let n = self.entries.len();
        let mut out: Vec<Vec<u8>> = Vec::new();
        let mut i: usize = 0;
        while i < n
            invariant
                i <= n,
                n == self.entries@.len(),
                vs == pair_views(self.entries@),
                out@.len() == keys_nodup(vs, i as int).len(),
                forall|k: int| 0 <= k < out@.len() ==> (#[trigger] out@[k])@ == keys_nodup(
                    vs,
                    i as int,
                )[k],
            decreases n - i,
        {
            let mut dup = false;
            let mut j: usize = i + 1;
            while j < n
                invariant
                    i < j <= n,
                    n == self.entries@.len(),
                    vs == pair_views(self.entries@),
                    dup == exists|m: int| i < m < j && (#[trigger] vs[m]).0 == vs[i as int].0,
                decreases n - j,
            {
                proof {
                    assert(vs[j as int].0 == self.entries@[j as int].0@);
                    assert(vs[i as int].0 == self.entries@[i as int].0@);
                }
                if bytes_eq(self.entries[j].0.as_slice(), self.entries[i].0.as_slice()) {
                    dup = true;
                    proof {
                        assert(vs[j as int].0 == vs[i as int].0);
                    }
                }
                j = j + 1;
            }
            proof {
                assert(dup == has_later_dup(vs, i as int));
            }
            if !dup {
                let k = read_bytes(&self.entries[i].0, 0, self.entries[i].0.len());
                proof {
                    assert(k@ =~= vs[i as int].0);
                }
                out.push(k);
            }
            i = i + 1;
        }
        proof {
            assert(vs.len() == self.entries@.len());
            lemma_list_post(vs, out@);
            assert(old(self).blocks() == map_of(vs));
        }
        proof {
            assert(lists_blocks(old(self).blocks(), out@));
        }
        Ok(out)
    }
}

/// The listing a block map owes: its keys, each exactly once.
proof fn lemma_list_post(vs: Seq<(Seq<u8>, Seq<u8>)>, outv: Seq<Vec<u8>>)
    requires
        outv.len() == keys_nodup(vs, vs.len() as int).len(),
        forall|k: int|
            0 <= k < outv.len() ==> (#[trigger] outv[k])@ == keys_nodup(vs, vs.len() as int)[k],
    ensures
        forall|k: int| 0 <= k < outv.len() ==> map_of(vs).contains_key((#[trigger] outv[k])@),
        forall|id: Seq<u8>|
            map_of(vs).contains_key(id) ==> exists|k: int|
                0 <= k < outv.len() && (#[trigger] outv[k])@ == id,
        forall|k1: int, k2: int|
            0 <= k1 < k2 < outv.len() ==> (#[trigger] outv[k1])@ != (#[trigger] outv[k2])@,
{
    let n = vs.len() as int;
    let kn = keys_nodup(vs, n);
    lemma_keys_nodup(vs, n);
    assert forall|k: int| 0 <= k < outv.len() implies map_of(vs).contains_key(
        (#[trigger] outv[k])@,
    ) by {
        assert(outv[k]@ == kn[k]);
        let j = choose|j: int| 0 <= j < n && (#[trigger] kn[k]) == vs[j].0 && !has_later_dup(vs, j);
        lemma_map_of_contains(vs, kn[k]);
    }
    assert forall|id: Seq<u8>| map_of(vs).contains_key(id) implies exists|k: int|
        0 <= k < outv.len() && (#[trigger] outv[k])@ == id by {
        lemma_map_of_contains(vs, id);
        lemma_last_occurrence_exists(vs, id);
        let j = choose|j: int|
            0 <= j < vs.len() && (#[trigger] vs[j]).0 == id && !has_later_dup(vs, j);
        assert(kn.contains(vs[j].0));
        let k = choose|k: int| 0 <= k < kn.len() && kn[k] == id;
        assert(outv[k]@ == id);
    }
    assert forall|k1: int, k2: int| 0 <= k1 < k2 < outv.len() implies (#[trigger] outv[k1])@ != (
    #[trigger] outv[k2])@ by {
        assert(outv[k1]@ == kn[k1] && outv[k2]@ == kn[k2]);
    }
}

} // verus!
