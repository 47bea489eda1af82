//! Little-endian integer framing and byte-sequence helpers.
//!
//! The header and metadata blocks are framed with 64-bit little-endian
//! length prefixes; these are the verified primitives both codecs share.
use vstd::prelude::*;

verus! {

/// The eight little-endian bytes of `x`.
pub open spec fn u64_le(x: u64) -> Seq<u8> {
    seq![
        (x & 0xff) as u8,
        ((x >> 8) & 0xff) as u8,
        ((x >> 16) & 0xff) as u8,
        ((x >> 24) & 0xff) as u8,
        ((x >> 32) & 0xff) as u8,
        ((x >> 40) & 0xff) as u8,
        ((x >> 48) & 0xff) as u8,
        ((x >> 56) & 0xff) as u8,
    ]
}

/// The value of eight little-endian bytes.
pub open spec fn le_val(s: Seq<u8>) -> int
    recommends
        s.len() == 8,
{
    s[0] + 0x100 * s[1] + 0x1_0000 * s[2] + 0x100_0000 * s[3] + 0x1_0000_0000 * s[4]
        + 0x100_0000_0000 * s[5] + 0x1_0000_0000_0000 * s[6] + 0x100_0000_0000_0000 * s[7]
}

/// A byte sequence framed by its own length.
pub open spec fn lp_bytes(b: Seq<u8>) -> Seq<u8> {
    u64_le(b.len() as u64) + b
}

pub proof fn lemma_le_val_bound(s: Seq<u8>)
    requires
        s.len() == 8,
    ensures
        0 <= le_val(s) <= u64::MAX,
{
    assert(s[0] <= 0xff && s[1] <= 0xff && s[2] <= 0xff && s[3] <= 0xff && s[4] <= 0xff
        && s[5] <= 0xff && s[6] <= 0xff && s[7] <= 0xff);
}

pub proof fn lemma_u64_le_round_trip(x: u64)
    ensures
        le_val(u64_le(x)) == x,
{
    let b0 = x & 0xff;
    let b1 = (x >> 8) & 0xff;
    let b2 = (x >> 16) & 0xff;
    let b3 = (x >> 24) & 0xff;
    let b4 = (x >> 32) & 0xff;
    let b5 = (x >> 40) & 0xff;
    let b6 = (x >> 48) & 0xff;
    let b7 = (x >> 56) & 0xff;
    assert((x & 0xff) <= 0xff && ((x >> 8) & 0xff) <= 0xff && ((x >> 16) & 0xff) <= 0xff && ((x
        >> 24) & 0xff) <= 0xff && ((x >> 32) & 0xff) <= 0xff && ((x >> 40) & 0xff) <= 0xff && ((x
        >> 48) & 0xff) <= 0xff && ((x >> 56) & 0xff) <= 0xff) by (bit_vector);
    assert((x & 0xff) + 0x100 * ((x >> 8) & 0xff) + 0x1_0000 * ((x >> 16) & 0xff) + 0x100_0000 * ((
    x >> 24) & 0xff) + 0x1_0000_0000 * ((x >> 32) & 0xff) + 0x100_0000_0000 * ((x >> 40) & 0xff)
        + 0x1_0000_0000_0000 * ((x >> 48) & 0xff) + 0x100_0000_0000_0000 * ((x >> 56) & 0xff) == x)
        by (bit_vector);
    assert(u64_le(x)[0] == b0 as u8 && u64_le(x)[1] == b1 as u8 && u64_le(x)[2] == b2 as u8
        && u64_le(x)[3] == b3 as u8 && u64_le(x)[4] == b4 as u8 && u64_le(x)[5] == b5 as u8
        && u64_le(x)[6] == b6 as u8 && u64_le(x)[7] == b7 as u8);
    assert(le_val(u64_le(x)) == b0 + 0x100 * b1 + 0x1_0000 * b2 + 0x100_0000 * b3 + 0x1_0000_0000
        * b4 + 0x100_0000_0000 * b5 + 0x1_0000_0000_0000 * b6 + 0x100_0000_0000_0000 * b7);
}

/// Append the little-endian bytes of `x`.
pub fn push_u64_le(out: &mut Vec<u8>, x: u64)
    ensures
        final(out)@ == old(out)@ + u64_le(x),
{
    out.push((x & 0xff) as u8);
    out.push(((x >> 8) & 0xff) as u8);
    out.push(((x >> 16) & 0xff) as u8);
    out.push(((x >> 24) & 0xff) as u8);
    out.push(((x >> 32) & 0xff) as u8);
    out.push(((x >> 40) & 0xff) as u8);
    out.push(((x >> 48) & 0xff) as u8);
    out.push(((x >> 56) & 0xff) as u8);
    assert(out@ =~= old(out)@ + u64_le(x));
}

/// Read the eight little-endian bytes starting at `i`.
pub fn read_u64_le(s: &Vec<u8>, i: usize) -> (r: u64)
    requires
        i + 8 <= s@.len(),
    ensures
        r == le_val(s@.subrange(i as int, i + 8)),
{
    proof {
        lemma_le_val_bound(s@.subrange(i as int, i + 8));
    }
    let n: usize = s.len();
    let b0 = s[i] as u64;
    let b1 = s[i + 1] as u64;
    let b2 = s[i + 2] as u64;
    let b3 = s[i + 3] as u64;
    let b4 = s[i + 4] as u64;
    let b5 = s[i + 5] as u64;
    let b6 = s[i + 6] as u64;
    let b7 = s[i + 7] as u64;
    let r: u64 = b0 + 0x100 * b1 + 0x1_0000 * b2 + 0x100_0000 * b3 + 0x1_0000_0000 * b4
        + 0x100_0000_0000 * b5 + 0x1_0000_0000_0000 * b6 + 0x100_0000_0000_0000 * b7;
    r
}

/// Append all of `data`.
pub fn push_bytes(out: &mut Vec<u8>, data: &[u8])
    ensures
        final(out)@ == old(out)@ + data@,
{
    let mut j: usize = 0;
    while j < data.len()
        invariant
            j <= data@.len(),
            out@ == old(out)@ + data@.subrange(0, j as int),
        decreases data@.len() - j,
    {
        out.push(data[j]);
        j = j + 1;
        assert(out@ =~= old(out)@ + data@.subrange(0, j as int));
    }
    assert(data@.subrange(0, data@.len() as int) =~= data@);
}

/// Copy `n` bytes starting at `i` out of `s`.
pub fn read_bytes(s: &Vec<u8>, i: usize, n: usize) -> (r: Vec<u8>)
    requires
        i + n <= s@.len(),
    ensures
        r@ == s@.subrange(i as int, i + n),
{
    let total: usize = s.len();
    let mut r: Vec<u8> = Vec::new();
    let mut j: usize = 0;
    while j < n
        invariant
            j <= n,
            i + n <= s@.len(),
            s@.len() == total,
            r@ == s@.subrange(i as int, i + j),
        decreases n - j,
    {
        r.push(s[i + j]);
        j = j + 1;
        assert(r@ =~= s@.subrange(i as int, i + j));
    }
    r
}

/// Whether two byte strings hold the same bytes.
pub fn bytes_eq(a: &[u8], b: &[u8]) -> (r: bool)
    ensures
        r == (a@ == b@),
{
    if a.len() != b.len() {
        return false;
    }
    let mut j: usize = 0;
    while j < a.len()
        invariant
            j <= a@.len(),
            a@.len() == b@.len(),
            forall|k: int| 0 <= k < j ==> a@[k] == b@[k],
        decreases a@.len() - j,
    {
        if a[j] != b[j] {
            return false;
        }
        j = j + 1;
    }
    proof {
        assert(a@ =~= b@);
    }
    true
}

/// Parse a 64-bit little-endian value at cursor `i`.
pub open spec fn parse_u64_spec(s: Seq<u8>, i: int) -> Option<(u64, int)> {
    if 0 <= i && i + 8 <= s.len() {
        Some((le_val(s.subrange(i, i + 8)) as u64, i + 8))
    } else {
        None
    }
}

/// Parse a length-prefixed byte string at cursor `i`.
pub open spec fn parse_lp_spec(s: Seq<u8>, i: int) -> Option<(Seq<u8>, int)> {
    match parse_u64_spec(s, i) {
        Some((n, j)) => if j + n <= s.len() {
            Some((s.subrange(j, j + n), j + n))
        } else {
            None
        },
        None => None,
    }
}

/// Parsing a length prefix finds exactly the framed bytes.
pub proof fn lemma_parse_lp(s: Seq<u8>, i: int, b: Seq<u8>)
    requires
        0 <= i,
        i + 8 + b.len() <= s.len(),
        b.len() <= u64::MAX,
        s.subrange(i, i + 8 + b.len()) == lp_bytes(b),
    ensures
        parse_lp_spec(s, i) == Some((b, i + 8 + b.len())),
{
    let enc = lp_bytes(b);
    assert(s.subrange(i, i + 8) =~= enc.subrange(0, 8));
    assert(enc.subrange(0, 8) =~= u64_le(b.len() as u64));
    lemma_u64_le_round_trip(b.len() as u64);
    assert(parse_u64_spec(s, i) == Some((b.len() as u64, i + 8)));
    assert(s.subrange(i + 8, i + 8 + b.len()) =~= enc.subrange(8, 8 + b.len() as int));
    assert(enc.subrange(8, 8 + b.len() as int) =~= b);
}

/// Parsing a bare u64 finds exactly the encoded value.
pub proof fn lemma_parse_u64(s: Seq<u8>, i: int, x: u64)
    requires
        0 <= i,
        i + 8 <= s.len(),
        s.subrange(i, i + 8) == u64_le(x),
    ensures
        parse_u64_spec(s, i) == Some((x, i + 8)),
{
    lemma_u64_le_round_trip(x);
}

/// Parse a 64-bit little-endian value at cursor `i`, as the spec parser does.
pub fn parse_u64(s: &Vec<u8>, i: usize) -> (r: Option<(u64, usize)>)
    ensures
        r matches Some((x, j)) ==> parse_u64_spec(s@, i as int) == Some((x, j as int)) && i < j
            <= s@.len(),
        r is None ==> parse_u64_spec(s@, i as int) is None,
{
    let n = s.len();
    if i > n || n - i < 8 {
        return None;
    }
    let x = read_u64_le(s, i);
    proof {
        lemma_le_val_bound(s@.subrange(i as int, i + 8));
    }
    Some((x, i + 8))
}

/// Parse a length-prefixed byte string at cursor `i`, as the spec parser does.
pub fn parse_lp(s: &Vec<u8>, i: usize) -> (r: Option<(Vec<u8>, usize)>)
    ensures
        r matches Some((v, j)) ==> parse_lp_spec(s@, i as int) == Some((v@, j as int)) && i < j
            <= s@.len(),
        r is None ==> parse_lp_spec(s@, i as int) is None,
{
    let n = s.len();
    match parse_u64(s, i) {
        Some((len, j)) => {
            if len > (n - j) as u64 {
                return None;
            }
            let v = read_bytes(s, j, len as usize);
            Some((v, j + len as usize))
        },
        None => None,
    }
}

/// Append a length-prefixed byte string.
pub fn push_lp_bytes(out: &mut Vec<u8>, data: &Vec<u8>)
    ensures
        final(out)@ == old(out)@ + lp_bytes(data@),
{
    push_u64_le(out, data.len() as u64);
    push_bytes(out, data.as_slice());
    assert(out@ =~= old(out)@ + lp_bytes(data@));
}

} // verus!
