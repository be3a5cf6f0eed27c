//! Binary encodings: big-endian integers and length-prefixed byte chunks.
//!
//! Everything the ledger persists is laid out with these two primitives:
//! a 4-byte big-endian length followed by the raw bytes ("chunk").  The
//! length prefix is what makes every composite key and record unambiguous.

use vstd::prelude::*;
use vstd::utf8::valid_utf8;
use vstd::utf8::encode_utf8;

verus! {

/// The 4 big-endian bytes of `n`.
pub open spec fn spec_be32(n: u32) -> Seq<u8> {
    seq![(n >> 24) as u8, (n >> 16) as u8, (n >> 8) as u8, n as u8]
}

/// The value read back from 4 big-endian bytes.
pub open spec fn spec_be32_val(s: Seq<u8>) -> u32
    recommends
        s.len() == 4,
{
    (((s[0] as u32) << 24) | ((s[1] as u32) << 16) | ((s[2] as u32) << 8) | (s[3] as u32)) as u32
}

pub proof fn lemma_be32_roundtrip(n: u32)
    ensures
        spec_be32_val(spec_be32(n)) == n,
{
    assert((((((n >> 24) as u8) as u32) << 24) | ((((n >> 16) as u8) as u32) << 16) | ((((n >> 8)
        as u8) as u32) << 8) | ((n as u8) as u32)) as u32 == n) by (bit_vector);
}

/// Big-endian encodings are injective.
pub proof fn lemma_be32_injective(a: u32, b: u32)
    requires
        spec_be32(a) == spec_be32(b),
    ensures
        a == b,
{
    lemma_be32_roundtrip(a);
    lemma_be32_roundtrip(b);
}

pub fn be32_encode(n: u32) -> (r: Vec<u8>)
    ensures
        r@ == spec_be32(n),
{
    let mut r: Vec<u8> = Vec::new();
    r.push((n >> 24) as u8);
    r.push((n >> 16) as u8);
    r.push((n >> 8) as u8);
    r.push(n as u8);
    proof {
        assert(r@ =~= spec_be32(n));
    }
    r
}

/// Read the 4 big-endian bytes starting at `start`.
pub fn be32_decode_at(b: &Vec<u8>, start: usize) -> (n: u32)
    requires
        start + 4 <= b@.len(),
    ensures
        n == spec_be32_val(b@.subrange(start as int, start + 4)),
{
    let l: usize = b.len();
    let n0 = b[start];
    let n1 = b[start + 1];
    let n2 = b[start + 2];
    let n3 = b[start + 3];
    proof {
        assert(b@.subrange(start as int, start + 4)[0] == b@[start as int]);
        assert(b@.subrange(start as int, start + 4)[1] == b@[start as int + 1]);
        assert(b@.subrange(start as int, start + 4)[2] == b@[start as int + 2]);
        assert(b@.subrange(start as int, start + 4)[3] == b@[start as int + 3]);
    }
    ((n0 as u32) << 24) | ((n1 as u32) << 16) | ((n2 as u32) << 8) | (n3 as u32)
}

/// The 8 big-endian bytes of `n`; used only to mix values into hash input.
pub open spec fn spec_be64(n: u64) -> Seq<u8> {
    seq![
        (n >> 56) as u8,
        (n >> 48) as u8,
        (n >> 40) as u8,
        (n >> 32) as u8,
        (n >> 24) as u8,
        (n >> 16) as u8,
        (n >> 8) as u8,
        n as u8,
    ]
}

pub fn be64_encode(n: u64) -> (r: Vec<u8>)
    ensures
        r@ == spec_be64(n),
{
    let mut r: Vec<u8> = Vec::new();
    r.push((n >> 56) as u8);
    r.push((n >> 48) as u8);
    r.push((n >> 40) as u8);
    r.push((n >> 32) as u8);
    r.push((n >> 24) as u8);
    r.push((n >> 16) as u8);
    r.push((n >> 8) as u8);
    r.push(n as u8);
    proof {
        assert(r@ =~= spec_be64(n));
    }
    r
}

/// Does a byte string fit behind a 4-byte length prefix?
pub open spec fn spec_fits_u32(b: Seq<u8>) -> bool {
    b.len() < 0x1_0000_0000
}

/// A length-prefixed chunk: 4 big-endian length bytes, then the bytes.
pub open spec fn spec_chunk(c: Seq<u8>) -> Seq<u8>
    recommends
        spec_fits_u32(c),
{
    spec_be32(c.len() as u32) + c
}

/// Parse one chunk of `b` starting at `start`: the bytes and the position
/// just past them, or nothing if `b` is too short there.  Opaque: callers
/// reason through the lemmas below.
#[verifier::opaque]
pub open spec fn spec_read_chunk(b: Seq<u8>, start: int) -> Option<(Seq<u8>, int)> {
    if start < 0 || start + 4 > b.len() {
        None
    } else {
        let n = spec_be32_val(b.subrange(start, start + 4)) as int;
        if start + 4 + n > b.len() {
            None
        } else {
            Some((b.subrange(start + 4, start + 4 + n), start + 4 + n))
        }
    }
}

/// Reading at the position where a chunk was written yields it back.
pub proof fn lemma_read_chunk_of_chunk(b: Seq<u8>, start: int, c: Seq<u8>)
    requires
        0 <= start,
        spec_fits_u32(c),
        start + spec_chunk(c).len() <= b.len(),
        b.subrange(start, start + spec_chunk(c).len()) == spec_chunk(c),
    ensures
        spec_read_chunk(b, start) == Some((c, start + 4 + c.len())),
{
    reveal(spec_read_chunk);
    let whole = b.subrange(start, start + spec_chunk(c).len());
    assert(b.subrange(start, start + 4) =~= whole.subrange(0, 4));
    assert(whole.subrange(0, 4) =~= spec_be32(c.len() as u32));
    lemma_be32_roundtrip(c.len() as u32);
    assert(b.subrange(start + 4, start + 4 + c.len()) =~= whole.subrange(
        4,
        spec_chunk(c).len() as int,
    ));
    assert(whole.subrange(4, spec_chunk(c).len() as int) =~= c);
}

/// Reading at the position right after `pre` in `pre + chunk(c) + post`
/// yields `c`.
pub proof fn lemma_read_chunk_in_concat(pre: Seq<u8>, c: Seq<u8>, post: Seq<u8>)
    requires
        spec_fits_u32(c),
    ensures
        spec_read_chunk(pre + spec_chunk(c) + post, pre.len() as int) == Some(
            (c, (pre.len() + 4 + c.len()) as int),
        ),
{
    let b = pre + spec_chunk(c) + post;
    assert(b.subrange(pre.len() as int, pre.len() + spec_chunk(c).len() as int) =~= spec_chunk(c));
    lemma_read_chunk_of_chunk(b, pre.len() as int, c);
}

/// Parsing positions inside three consecutive chunks.
pub proof fn lemma_triple_chunks(x: Seq<u8>, y: Seq<u8>, z: Seq<u8>)
    requires
        spec_fits_u32(x),
        spec_fits_u32(y),
        spec_fits_u32(z),
    ensures
        spec_read_chunk(spec_chunk(x) + spec_chunk(y) + spec_chunk(z), 0) == Some(
            (x, spec_chunk(x).len() as int),
        ),
        spec_read_chunk(spec_chunk(x) + spec_chunk(y) + spec_chunk(z), spec_chunk(x).len() as int)
            == Some((y, spec_chunk(x).len() + spec_chunk(y).len() as int)),
        spec_read_chunk(
            spec_chunk(x) + spec_chunk(y) + spec_chunk(z),
            spec_chunk(x).len() + spec_chunk(y).len() as int,
        ) == Some((z, spec_chunk(x).len() + spec_chunk(y).len() + spec_chunk(z).len() as int)),
{
    let b = spec_chunk(x) + spec_chunk(y) + spec_chunk(z);
    assert(b =~= Seq::<u8>::empty() + spec_chunk(x) + (spec_chunk(y) + spec_chunk(z)));
    lemma_read_chunk_in_concat(Seq::<u8>::empty(), x, spec_chunk(y) + spec_chunk(z));
    lemma_read_chunk_in_concat(spec_chunk(x), y, spec_chunk(z));
    assert(b =~= spec_chunk(x) + spec_chunk(y) + spec_chunk(z) + Seq::<u8>::empty());
    lemma_read_chunk_in_concat(spec_chunk(x) + spec_chunk(y), z, Seq::<u8>::empty());
}

/// Copy `b[start..end]` into a fresh vector.
pub fn bytes_range(b: &Vec<u8>, start: usize, end: usize) -> (r: Vec<u8>)
    requires
        start <= end <= b@.len(),
    ensures
        r@ == b@.subrange(start as int, end as int),
{
    let mut r: Vec<u8> = Vec::new();
    let mut i: usize = start;
    while i < end
        invariant
            start <= i <= end <= b@.len(),
            r@ == b@.subrange(start as int, i as int),
        decreases end - i,
    {
        r.push(b[i]);
        proof {
            assert(r@ =~= b@.subrange(start as int, i + 1));
        }
        i = i + 1;
    }
    proof {
        if start == end {
            assert(r@ =~= b@.subrange(start as int, end as int));
        }
    }
    r
}

/// Append the chunk encoding of `c` to `out`.
pub fn push_chunk(out: &mut Vec<u8>, c: &Vec<u8>)
    requires
        spec_fits_u32(c@),
    ensures
        final(out)@ == old(out)@ + spec_chunk(c@),
{
    let ghost start = out@;
    let len_bytes = be32_encode(c.len() as u32);
    let mut i: usize = 0;
    while i < 4
        invariant
            len_bytes@ == spec_be32(c@.len() as u32),
            0 <= i <= 4,
            out@ == start + len_bytes@.subrange(0, i as int),
        decreases 4 - i,
    {
        out.push(len_bytes[i]);
        proof {
            assert(start + len_bytes@.subrange(0, i + 1) =~= (start + len_bytes@.subrange(
                0,
                i as int,
            )).push(len_bytes@[i as int]));
        }
        i = i + 1;
    }
    let mut j: usize = 0;
    while j < c.len()
        invariant
            len_bytes@ == spec_be32(c@.len() as u32),
            0 <= j <= c@.len(),
            out@ == start + len_bytes@.subrange(0, 4) + c@.subrange(0, j as int),
        decreases c@.len() - j,
    {
        out.push(c[j]);
        proof {
            assert(start + len_bytes@.subrange(0, 4) + c@.subrange(0, j + 1) =~= (start
                + len_bytes@.subrange(0, 4) + c@.subrange(0, j as int)).push(c@[j as int]));
        }
        j = j + 1;
    }
    proof {
        assert(len_bytes@.subrange(0, 4) =~= len_bytes@);
        assert(c@.subrange(0, c@.len() as int) =~= c@);
        assert(start + len_bytes@ + c@ =~= start + spec_chunk(c@));
    }
}

/// Parse one chunk of `b` at `start`, returning the bytes and the position
/// just past them.
pub fn read_chunk(b: &Vec<u8>, start: usize) -> (r: Option<(Vec<u8>, usize)>)
    ensures
        match r {
            Some(p) => spec_read_chunk(b@, start as int) == Some((p.0@, p.1 as int))
                && spec_fits_u32(p.0@),
            None => spec_read_chunk(b@, start as int) is None,
        },
{
    proof {
        reveal(spec_read_chunk);
    }
    if start > b.len() || b.len() - start < 4 {
        return None;
    }
    let n = be32_decode_at(b, start);
    if (b.len() - start - 4) < (n as usize) {
        return None;
    }
    let chunk_start = start + 4;
    let chunk_end = chunk_start + (n as usize);
    let chunk = bytes_range(b, chunk_start, chunk_end);
    Some((chunk, chunk_end))
}

/// A character sequence's UTF-8 form takes at most four bytes per
/// character.
pub proof fn lemma_encode_utf8_len(chars: Seq<char>)
    ensures
        encode_utf8(chars).len() <= 4 * chars.len(),
    decreases chars.len(),
{
    if chars.len() > 0 {
        assert(vstd::utf8::encode_scalar(chars[0] as u32).len() <= 4);
        lemma_encode_utf8_len(chars.drop_first());
    }
}

/// Relies on `String::from_utf8`: it succeeds exactly on valid UTF-8 input
/// and returns the string whose UTF-8 encoding is that input.
#[verifier::external_body]
pub(crate) fn string_from_utf8(v: Vec<u8>) -> (r: Option<String>)
    ensures
        r is Some <==> valid_utf8(v@),
        r matches Some(s) ==> encode_utf8(s@) == v@,
{
    match String::from_utf8(v) {
        Ok(s) => Some(s),
        Err(_) => None,
    }
}

} // verus!
