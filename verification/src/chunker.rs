//! Content-defined chunking with a rolling-hash boundary predicate.
//!
//! A byte stream is split after any byte at which the rolling hash of the
//! last `CHUNK_WINDOW` bytes of the current chunk hits a sentinel value
//! modulo `2^bits`, so the average chunk is about `2^bits` bytes long.
//! Boundaries depend only on the bytes of the current chunk, never on how
//! the stream was fed in, which is what keeps deduplication stable across
//! edits: `update` may be called with arbitrary increments and the final
//! chunk sequence is a function of the concatenated bytes alone.
use vstd::prelude::*;

use crate::bytes::read_bytes;

verus! {

/// How many trailing bytes of the current chunk the boundary hash reads.
pub const CHUNK_WINDOW: usize = 16;

/// The rolling hash of the `k` bytes of `s` ending at index `i`.
pub open spec fn whash_rec(s: Seq<u8>, i: int, k: nat) -> int
    decreases k,
{
    if k == 0 {
        0
    } else {
        (whash_rec(s, i - 1, (k - 1) as nat) * 31 + s[i]) % 0x1_0000_0000
    }
}

/// Whether a chunk of `s` may end after index `i`: the window hash hits the
/// all-ones residue modulo `2^bits`, and a full window is available.
pub open spec fn is_cut(s: Seq<u8>, i: int, bits: u32) -> bool {
    &&& i >= CHUNK_WINDOW - 1
    &&& i < s.len()
    &&& whash_rec(s, i, CHUNK_WINDOW as nat) % ((1u64 << bits) as int) == (1u64 << bits) - 1
}

/// The end (exclusive) of the chunk that starts at `i`: one past the first
/// cut at or after `i`, or the end of the stream.
pub open spec fn scan_from(s: Seq<u8>, bits: u32, i: int) -> int
    recommends
        0 <= i <= s.len(),
    decreases s.len() - i when 0 <= i <= s.len()
{
    if i >= s.len() {
        s.len() as int
    } else if is_cut(s, i, bits) {
        i + 1
    } else {
        scan_from(s, bits, i + 1)
    }
}

/// The length of the first chunk of `s`.
pub open spec fn first_len(s: Seq<u8>, bits: u32) -> int {
    scan_from(s, bits, 0)
}

pub proof fn lemma_scan_bounds(s: Seq<u8>, bits: u32, i: int)
    requires
        0 <= i <= s.len(),
    ensures
        scan_from(s, bits, i) <= s.len(),
        i < s.len() ==> i + 1 <= scan_from(s, bits, i),
        i == s.len() ==> scan_from(s, bits, i) == s.len(),
    decreases s.len() - i,
{
    if i < s.len() && !is_cut(s, i, bits) {
        lemma_scan_bounds(s, bits, i + 1);
    }
}

#[via_fn]
proof fn chunks_of_decreases(s: Seq<u8>, bits: u32) {
    if s.len() > 0 {
        lemma_scan_bounds(s, bits, 0);
    }
}

/// The chunk sequence of a byte stream: a pure function of the bytes and of
/// the boundary parameter, independent of feed granularity.
pub open spec fn chunks_of(s: Seq<u8>, bits: u32) -> Seq<Seq<u8>>
    decreases s.len() via chunks_of_decreases
{
    if s.len() == 0 {
        Seq::empty()
    } else {
        seq![s.take(first_len(s, bits))] + chunks_of(s.skip(first_len(s, bits)), bits)
    }
}

/// The concatenation of a sequence of byte strings.
pub open spec fn concat_of(ss: Seq<Seq<u8>>) -> Seq<u8>
    decreases ss.len(),
{
    if ss.len() == 0 {
        Seq::empty()
    } else {
        ss[0] + concat_of(ss.drop_first())
    }
}

/// The views of a vector of byte vectors.
pub open spec fn views_of(vs: Seq<Vec<u8>>) -> Seq<Seq<u8>> {
    vs.map_values(|v: Vec<u8>| v@)
}

pub proof fn lemma_concat_push(ss: Seq<Seq<u8>>, c: Seq<u8>)
    ensures
        concat_of(ss.push(c)) == concat_of(ss) + c,
    decreases ss.len(),
{
    if ss.len() == 0 {
        assert(ss.push(c)[0] == c);
        assert(ss.push(c).drop_first() =~= Seq::<Seq<u8>>::empty());
        assert(concat_of(Seq::<Seq<u8>>::empty()) =~= Seq::<u8>::empty());
        assert(concat_of(ss.push(c)) =~= c + Seq::<u8>::empty());
        assert(concat_of(ss) =~= Seq::<u8>::empty());
        assert(concat_of(ss.push(c)) =~= concat_of(ss) + c);
    } else {
        assert(ss.push(c).drop_first() =~= ss.drop_first().push(c));
        lemma_concat_push(ss.drop_first(), c);
        assert(concat_of(ss.push(c)) == ss.push(c)[0] + concat_of(ss.push(c).drop_first()));
        assert(ss.push(c)[0] == ss[0]);
        assert(concat_of(ss.push(c)) =~= concat_of(ss) + c);
    }
}

/// The window hash reads only the `k` bytes ending at `i`.
pub proof fn lemma_whash_agree(s1: Seq<u8>, s2: Seq<u8>, i1: int, i2: int, k: nat)
    requires
        k <= i1 + 1,
        k <= i2 + 1,
        forall|j: int| #![trigger s1[j]] i1 - k < j <= i1 ==> s1[j] == s2[j + (i2 - i1)],
    ensures
        whash_rec(s1, i1, k) == whash_rec(s2, i2, k),
    decreases k,
{
    if k > 0 {
        assert(s1[i1] == s2[i1 + (i2 - i1)]);
        lemma_whash_agree(s1, s2, i1 - 1, i2 - 1, (k - 1) as nat);
    }
}

/// Whether a position is a cut depends only on the bytes up to it.
pub proof fn lemma_is_cut_agree(s1: Seq<u8>, s2: Seq<u8>, i: int, bits: u32)
    requires
        0 <= i < s1.len(),
        i < s2.len(),
        forall|j: int| 0 <= j <= i ==> s1[j] == s2[j],
    ensures
        is_cut(s1, i, bits) == is_cut(s2, i, bits),
{
    if i >= CHUNK_WINDOW - 1 {
        assert forall|j: int| #![trigger s1[j]]
            i - CHUNK_WINDOW < j <= i implies s1[j] == s2[j + (i - i)] by {
            assert(s1[j] == s2[j]);
        }
        lemma_whash_agree(s1, s2, i, i, CHUNK_WINDOW as nat);
    }
}

/// A scan over a stretch with no cut runs to the end of the stream.
pub proof fn lemma_scan_nocut(s: Seq<u8>, bits: u32, i: int)
    requires
        0 <= i <= s.len(),
        forall|m: int| i <= m < s.len() ==> !is_cut(s, m, bits),
    ensures
        scan_from(s, bits, i) == s.len(),
    decreases s.len() - i,
{
    if i < s.len() {
        lemma_scan_nocut(s, bits, i + 1);
    }
}

/// A scan stops exactly at the first cut.
pub proof fn lemma_scan_stops(s: Seq<u8>, bits: u32, i: int, cutpos: int)
    requires
        0 <= i <= cutpos < s.len(),
        is_cut(s, cutpos, bits),
        forall|m: int| i <= m < cutpos ==> !is_cut(s, m, bits),
    ensures
        scan_from(s, bits, i) == cutpos + 1,
    decreases cutpos - i,
{
    if i < cutpos {
        lemma_scan_stops(s, bits, i + 1, cutpos);
    }
}

/// A byte string that ends at its only cut: exactly one chunk.
pub open spec fn complete_chunk(c: Seq<u8>, bits: u32) -> bool {
    &&& c.len() >= 1
    &&& is_cut(c, c.len() - 1, bits)
    &&& forall|i: int| 0 <= i < c.len() - 1 ==> !is_cut(c, i, bits)
}

/// A byte string with no cut at all: at most one (still open) chunk.
pub open spec fn no_cut(s: Seq<u8>, bits: u32) -> bool {
    forall|i: int| 0 <= i < s.len() ==> !is_cut(s, i, bits)
}

/// Chunking starts over after a complete chunk.
pub proof fn lemma_chunks_of_prepend(c: Seq<u8>, rest: Seq<u8>, bits: u32)
    requires
        complete_chunk(c, bits),
    ensures
        chunks_of(c + rest, bits) == seq![c] + chunks_of(rest, bits),
{
    let s = c + rest;
    assert(forall|j: int| 0 <= j < c.len() ==> s[j] == c[j]);
    assert forall|m: int| 0 <= m < c.len() - 1 implies !is_cut(s, m, bits) by {
        lemma_is_cut_agree(c, s, m, bits);
    }
    lemma_is_cut_agree(c, s, c.len() - 1, bits);
    lemma_scan_stops(s, bits, 0, c.len() - 1);
    assert(first_len(s, bits) == c.len());
    assert(s.take(c.len() as int) =~= c);
    assert(s.skip(c.len() as int) =~= rest);
    assert(chunks_of(c + rest, bits) =~= seq![c] + chunks_of(rest, bits));
}

/// A cut-free byte string is one chunk (or none, if empty).
pub proof fn lemma_chunks_of_nocut(s: Seq<u8>, bits: u32)
    requires
        no_cut(s, bits),
    ensures
        s.len() == 0 ==> chunks_of(s, bits) == Seq::<Seq<u8>>::empty(),
        s.len() > 0 ==> chunks_of(s, bits) == seq![s],
{
    if s.len() > 0 {
        lemma_scan_nocut(s, bits, 0);
        assert(s.take(s.len() as int) =~= s);
        assert(s.skip(s.len() as int) =~= Seq::<u8>::empty());
        assert(chunks_of(Seq::<u8>::empty(), bits) =~= Seq::<Seq<u8>>::empty());
        assert(chunks_of(s, bits) =~= seq![s] + Seq::<Seq<u8>>::empty());
        assert(seq![s] + Seq::<Seq<u8>>::empty() =~= seq![s]);
    }
}

/// The chunks of "complete chunks, then a cut-free tail" are just those.
pub proof fn lemma_chunks_of_complete_list(cs: Seq<Seq<u8>>, tail: Seq<u8>, bits: u32)
    requires
        forall|k: int| 0 <= k < cs.len() ==> complete_chunk(#[trigger] cs[k], bits),
        no_cut(tail, bits),
    ensures
        tail.len() == 0 ==> chunks_of(concat_of(cs) + tail, bits) == cs,
        tail.len() > 0 ==> chunks_of(concat_of(cs) + tail, bits) == cs.push(tail),
    decreases cs.len(),
{
    if cs.len() == 0 {
        assert(concat_of(cs) + tail =~= tail);
        lemma_chunks_of_nocut(tail, bits);
        if tail.len() > 0 {
            assert(cs.push(tail) =~= seq![tail]);
        }
    } else {
        let rest = concat_of(cs.drop_first()) + tail;
        assert(concat_of(cs) + tail =~= cs[0] + rest);
        lemma_chunks_of_prepend(cs[0], rest, bits);
        lemma_chunks_of_complete_list(cs.drop_first(), tail, bits);
        if tail.len() == 0 {
            assert(seq![cs[0]] + cs.drop_first() =~= cs);
        } else {
            assert(seq![cs[0]] + cs.drop_first().push(tail) =~= cs.push(tail));
        }
    }
}

/// An incremental content-defined chunker.
///
/// Bytes are fed in through `update` in increments of any size; `finish`
/// returns the chunk sequence of the whole stream, which depends only on
/// the concatenation of everything fed in.
pub struct Chunker {
    bits: u32,
    buf: Vec<u8>,
    done: Vec<Vec<u8>>,
    fed: Ghost<Seq<u8>>,
}

impl Chunker {
    /// The bytes fed in so far.
    pub closed spec fn fed(&self) -> Seq<u8> {
        self.fed@
    }

    /// The boundary parameter: chunks average about `2^bits` bytes.
    pub closed spec fn bits(&self) -> u32 {
        self.bits
    }

    /// The chunker's internal consistency: everything emitted is a complete
    /// chunk, the open buffer holds no cut, and together they are the fed
    /// bytes.
    pub closed spec fn wf(&self) -> bool {
        &&& self.bits <= 30
        &&& self.fed@ == concat_of(views_of(self.done@)) + self.buf@
        &&& forall|k: int|
            0 <= k < self.done@.len() ==> complete_chunk(
                #[trigger] views_of(self.done@)[k],
                self.bits,
            )
        &&& no_cut(self.buf@, self.bits)
    }

    /// A fresh chunker that has seen no bytes.
    pub fn new(bits: u32) -> (r: Chunker)
        requires
            bits <= 30,
        ensures
            r.wf(),
            r.fed() == Seq::<u8>::empty(),
            r.bits() == bits,
    {
        let r = Chunker { bits, buf: Vec::new(), done: Vec::new(), fed: Ghost(Seq::empty()) };
        proof {
            assert(views_of(r.done@) =~= Seq::<Seq<u8>>::empty());
            assert(r.fed@ =~= concat_of(views_of(r.done@)) + r.buf@);
        }
        r
    }

    /// Feed more bytes; boundaries found so far are kept internally.
    pub fn update(&mut self, data: &[u8])
        requires
            old(self).wf(),
        ensures
            final(self).wf(),
            final(self).fed() == old(self).fed() + data@,
            final(self).bits() == old(self).bits(),
    {
        let ghost fed0 = self.fed@;
        let mut idx: usize = 0;
        while idx < data.len()
            invariant
                idx <= data@.len(),
                self.wf(),
                self.bits == old(self).bits,
                self.fed@ == fed0 + data@.subrange(0, idx as int),
            decreases data@.len() - idx,
        {
            let b = data[idx];
            let ghost oldbuf = self.buf@;
            self.buf.push(b);
            proof {
                self.fed@ = self.fed@.push(b);
                assert(self.fed@ =~= fed0 + data@.subrange(0, idx + 1));
                assert(self.fed@ =~= concat_of(views_of(self.done@)) + self.buf@);
                assert forall|i: int| 0 <= i < oldbuf.len() implies !is_cut(
                    self.buf@,
                    i,
                    self.bits,
                ) by {
                    lemma_is_cut_agree(oldbuf, self.buf@, i, self.bits);
                }
            }
            let blen = self.buf.len();
            if blen >= CHUNK_WINDOW {
                let start = blen - CHUNK_WINDOW;
                let mut h: u64 = 0;
                let mut j: usize = 0;
                while j < CHUNK_WINDOW
                    invariant
                        j <= CHUNK_WINDOW,
                        blen == self.buf@.len(),
                        blen >= CHUNK_WINDOW,
                        start == blen - CHUNK_WINDOW,
                        h < 0x1_0000_0000,
                        h == whash_rec(self.buf@, start + j - 1, j as nat),
                    decreases CHUNK_WINDOW - j,
                {
                    h = (h * 31 + self.buf[start + j] as u64) % 0x1_0000_0000;
                    j = j + 1;
                }
                let m: u64 = 1u64 << self.bits;
                proof {
                    let bits = self.bits;
                    assert(bits <= 30 ==> 1u64 <= (1u64 << bits) <= 0x4000_0000u64)
                        by (bit_vector);
                }
                if h % m == m - 1 {
                    proof {
                        assert(is_cut(self.buf@, blen - 1, self.bits));
                    }
                    let chunk = read_bytes(&self.buf, 0, blen);
                    proof {
                        assert(chunk@ =~= self.buf@);
                    }
                    let ghost olddone = self.done@;
                    self.done.push(chunk);
                    self.buf = Vec::new();
                    proof {
                        assert(views_of(self.done@) =~= views_of(olddone).push(chunk@));
                        lemma_concat_push(views_of(olddone), chunk@);
                        assert(self.fed@ =~= concat_of(views_of(self.done@)) + self.buf@);
                        assert(complete_chunk(chunk@, self.bits));
                        assert(forall|k: int|
                            0 <= k < olddone.len() ==> views_of(self.done@)[k] == views_of(
                                olddone,
                            )[k]);
                    }
                }
            }
            idx = idx + 1;
        }
        proof {
            assert(data@.subrange(0, data@.len() as int) =~= data@);
        }
    }

    /// Close the stream and reset the chunker: the chunk sequence of
    /// everything fed in, a pure function of the concatenated bytes
    /// however they were fed.
    pub fn drain(&mut self) -> (r: Vec<Vec<u8>>)
        requires
            old(self).wf(),
        ensures
            final(self).wf(),
            final(self).bits() == old(self).bits(),
            final(self).fed() == Seq::<u8>::empty(),
            views_of(r@) == chunks_of(old(self).fed(), old(self).bits()),
            forall|k: int| 0 <= k < r@.len() ==> (#[trigger] r@[k]@).len() > 0,
    {
        let mut done: Vec<Vec<u8>> = Vec::new();
        core::mem::swap(&mut self.done, &mut done);
        let mut buf: Vec<u8> = Vec::new();
        core::mem::swap(&mut self.buf, &mut buf);
        proof {
            self.fed@ = Seq::empty();
            assert(views_of(self.done@) =~= Seq::<Seq<u8>>::empty());
            assert(self.fed@ =~= concat_of(views_of(self.done@)) + self.buf@);
        }
        let ghost olddone = done@;
        proof {
            lemma_chunks_of_complete_list(views_of(done@), buf@, self.bits);
        }
        if buf.len() > 0 {
            let ghost pending = buf@;
            done.push(buf);
            proof {
                assert(views_of(done@) =~= views_of(olddone).push(pending));
            }
        } else {
            proof {
                assert(buf@ =~= Seq::<u8>::empty());
            }
        }
        proof {
            assert forall|k: int| 0 <= k < done@.len() implies (#[trigger] done@[k]@).len()
                > 0 by {
                assert(views_of(done@)[k] == done@[k]@);
                if k < olddone.len() {
                    assert(views_of(done@)[k] == views_of(olddone)[k]);
                    assert(complete_chunk(views_of(olddone)[k], self.bits));
                }
            }
        }
        done
    }

    /// Close the stream: the chunk sequence of everything fed in.
    ///
    /// This is the determinism guarantee: the result is exactly
    /// `chunks_of` of the concatenated bytes, however they were fed.
    pub fn finish(self) -> (r: Vec<Vec<u8>>)
        requires
            self.wf(),
        ensures
            views_of(r@) == chunks_of(self.fed(), self.bits()),
            forall|k: int| 0 <= k < r@.len() ==> (#[trigger] r@[k]@).len() > 0,
    {
        let Chunker { bits, buf, mut done, fed } = self;
        let ghost olddone = done@;
        proof {
            lemma_chunks_of_complete_list(views_of(done@), buf@, bits);
        }
        if buf.len() > 0 {
            let ghost pending = buf@;
            done.push(buf);
            proof {
                assert(views_of(done@) =~= views_of(olddone).push(pending));
            }
        } else {
            proof {
                assert(buf@ =~= Seq::<u8>::empty());
            }
        }
        proof {
            assert forall|k: int| 0 <= k < done@.len() implies (#[trigger] done@[k]@).len()
                > 0 by {
                assert(views_of(done@)[k] == done@[k]@);
                if k < olddone.len() {
                    assert(views_of(done@)[k] == views_of(olddone)[k]);
                    assert(complete_chunk(views_of(olddone)[k], bits));
                }
            }
            assert(views_of(done@) =~= done@.map_values(|v: Vec<u8>| v@));
        }
        done
    }
}

/// The chunks of a stream concatenate back to the stream.
pub proof fn lemma_chunks_of_concat(s: Seq<u8>, bits: u32)
    ensures
        concat_of(chunks_of(s, bits)) == s,
    decreases s.len(),
{
    if s.len() == 0 {
        assert(concat_of(chunks_of(s, bits)) =~= s);
    } else {
        lemma_scan_bounds(s, bits, 0);
        let fl = first_len(s, bits);
        lemma_chunks_of_concat(s.skip(fl), bits);
        assert(chunks_of(s, bits)[0] == s.take(fl));
        assert(chunks_of(s, bits).drop_first() =~= chunks_of(s.skip(fl), bits));
        assert(concat_of(chunks_of(s, bits)) == s.take(fl) + concat_of(
            chunks_of(s.skip(fl), bits),
        ));
        assert(s.take(fl) + s.skip(fl) =~= s);
    }
}

/// No cut lies strictly inside a scanned stretch.
pub proof fn lemma_scan_clean(s: Seq<u8>, bits: u32, i: int)
    requires
        0 <= i <= s.len(),
    ensures
        forall|m: int| i <= m < scan_from(s, bits, i) - 1 ==> !is_cut(s, m, bits),
    decreases s.len() - i,
{
    if i < s.len() && !is_cut(s, i, bits) {
        lemma_scan_clean(s, bits, i + 1);
    }
}

#[via_fn]
proof fn closed_chunks_before_decreases(s: Seq<u8>, p: int, bits: u32) {
    if s.len() > 0 {
        lemma_scan_bounds(s, bits, 0);
    }
}

/// How many chunks end at a cut at or before position `p`.
pub open spec fn closed_chunks_before(s: Seq<u8>, p: int, bits: u32) -> int
    decreases s.len() via closed_chunks_before_decreases
{
    if s.len() == 0 {
        0
    } else {
        let fl = first_len(s, bits);
        if fl <= p && is_cut(s, fl - 1, bits) {
            1 + closed_chunks_before(s.skip(fl), p - fl, bits)
        } else {
            0
        }
    }
}

/// Editing a stream leaves every chunk that closed at a cut strictly
/// before the edit exactly as it was: two streams that agree up to `p`
/// close the same chunks there, with identical bytes (and so identical
/// digests).
#[verifier::rlimit(100)]
pub proof fn lemma_edit_prefix_stability(s1: Seq<u8>, s2: Seq<u8>, p: int, bits: u32)
    requires
        0 <= p <= s1.len(),
        p <= s2.len(),
        s1.take(p) == s2.take(p),
    ensures
        closed_chunks_before(s2, p, bits) == closed_chunks_before(s1, p, bits),
        chunks_of(s2, bits).take(closed_chunks_before(s1, p, bits)) == chunks_of(
            s1,
            bits,
        ).take(closed_chunks_before(s1, p, bits)),
    decreases s1.len(),
{
    assert(forall|j: int| 0 <= j < p ==> s1[j] == s2[j]) by {
        assert(forall|j: int| 0 <= j < p ==> s1.take(p)[j] == s1[j] && s2.take(p)[j] == s2[j]);
    }
    assert forall|i: int| 0 <= i < p implies is_cut(s1, i, bits) == is_cut(s2, i, bits) by {
        lemma_is_cut_agree(s1, s2, i, bits);
    }
    if s1.len() == 0 {
        if s2.len() > 0 {
            lemma_scan_bounds(s2, bits, 0);
        }
    } else {
        lemma_scan_bounds(s1, bits, 0);
        let fl1 = first_len(s1, bits);
        if fl1 <= p && is_cut(s1, fl1 - 1, bits) {
            lemma_scan_clean(s1, bits, 0);
            assert forall|m: int| 0 <= m < fl1 - 1 implies !is_cut(s2, m, bits) by {
                assert(!is_cut(s1, m, bits));
            }
            lemma_scan_stops(s2, bits, 0, fl1 - 1);
            assert(first_len(s2, bits) == fl1);
            assert(s1.take(fl1) =~= s2.take(fl1));
            let t1 = s1.skip(fl1);
            let t2 = s2.skip(fl1);
            assert(t1.take(p - fl1) =~= t2.take(p - fl1)) by {
                assert(forall|j: int| 0 <= j < p - fl1 ==> t1[j] == s1[j + fl1]);
                assert(forall|j: int| 0 <= j < p - fl1 ==> t2[j] == s2[j + fl1]);
            }
            lemma_edit_prefix_stability(t1, t2, p - fl1, bits);
            let c = closed_chunks_before(s1, p, bits);
            assert(chunks_of(s1, bits) == seq![s1.take(fl1)] + chunks_of(t1, bits));
            assert(chunks_of(s2, bits) == seq![s2.take(fl1)] + chunks_of(t2, bits));
            let cr = closed_chunks_before(t1, p - fl1, bits);
            assert(0 <= cr <= chunks_of(t1, bits).len()) by {
                lemma_closed_chunks_bound(t1, p - fl1, bits);
            }
            assert(0 <= cr <= chunks_of(t2, bits).len()) by {
                lemma_closed_chunks_bound(t2, p - fl1, bits);
            }
            assert(c == 1 + cr);
            assert forall|a: int| 0 <= a < c implies chunks_of(s2, bits).take(c)[a] == chunks_of(
                s1,
                bits,
            ).take(c)[a] by {
                if a == 0 {
                    assert(chunks_of(s2, bits)[0] == s2.take(fl1));
                    assert(chunks_of(s1, bits)[0] == s1.take(fl1));
                } else {
                    assert(chunks_of(s2, bits)[a] == chunks_of(t2, bits)[a - 1]);
                    assert(chunks_of(s1, bits)[a] == chunks_of(t1, bits)[a - 1]);
                    assert(chunks_of(t2, bits).take(cr)[a - 1] == chunks_of(t1, bits).take(
                        cr,
                    )[a - 1]);
                }
            }
            assert(chunks_of(s2, bits).take(c) =~= chunks_of(s1, bits).take(c));
        } else {
            if s2.len() > 0 {
                lemma_scan_bounds(s2, bits, 0);
                let fl2 = first_len(s2, bits);
                if fl2 <= p && is_cut(s2, fl2 - 1, bits) {
                    assert(is_cut(s1, fl2 - 1, bits));
                    lemma_scan_clean(s2, bits, 0);
                    assert forall|m: int| 0 <= m < fl2 - 1 implies !is_cut(s1, m, bits) by {
                        assert(!is_cut(s2, m, bits));
                    }
                    lemma_scan_stops(s1, bits, 0, fl2 - 1);
                    assert(false);
                }
            }
            assert(closed_chunks_before(s2, p, bits) == 0);
            assert(chunks_of(s2, bits).take(0) =~= chunks_of(s1, bits).take(0));
        }
    }
}

/// The closed-chunk count never exceeds the chunk count.
pub proof fn lemma_closed_chunks_bound(s: Seq<u8>, p: int, bits: u32)
    ensures
        0 <= closed_chunks_before(s, p, bits) <= chunks_of(s, bits).len(),
    decreases s.len(),
{
    if s.len() > 0 {
        lemma_scan_bounds(s, bits, 0);
        let fl = first_len(s, bits);
        if fl <= p && is_cut(s, fl - 1, bits) {
            lemma_closed_chunks_bound(s.skip(fl), p - fl, bits);
        }
    }
}

} // verus!
