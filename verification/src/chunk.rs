//! Splitting a serialized payload into fixed-size byte chunks. A payload
//! shorter than the chunk size crosses in one reply tagged `(0, 0)`; a
//! longer one is served slice by slice, each reply carrying the requested
//! index and the index of the last chunk as the consumer's retry bound.
//! Concatenating the chunks in index order reproduces the payload exactly.

use vstd::prelude::*;

use vstd::arithmetic::div_mod::lemma_fundamental_div_mod;
use vstd::slice::{slice_subrange, slice_to_vec};

verus! {

/// The byte range chunk `i` covers in a payload: `m` bytes from offset
/// `i * m`, both ends clamped to the payload's end.
pub open spec fn chunk_of(bytes: Seq<u8>, i: int, m: int) -> Seq<u8> {
    let len = bytes.len() as int;
    let start = if i * m < len {
        i * m
    } else {
        len
    };
    let end = if start + m < len {
        start + m
    } else {
        len
    };
    bytes.subrange(start, end)
}

/// The index of the last chunk a producer reports for a payload that does
/// not fit one chunk.
pub open spec fn spec_last_chunk_index(len: int, m: int) -> int {
    if m < len {
        len / m
    } else {
        0
    }
}

/// The first `n` chunks, concatenated in index order.
pub open spec fn concat_chunks(bytes: Seq<u8>, n: int, m: int) -> Seq<u8>
    decreases n,
{
    if n <= 0 {
        Seq::empty()
    } else {
        concat_chunks(bytes, n - 1, m) + chunk_of(bytes, n - 1, m)
    }
}

/// The first `n` chunks cover exactly the first `n * m` bytes.
pub proof fn lemma_concat_chunks_covers(bytes: Seq<u8>, n: int, m: int)
    requires
        m >= 1,
        n >= 0,
    ensures
        concat_chunks(bytes, n, m) == bytes.take(
            if n * m < bytes.len() {
                n * m
            } else {
                bytes.len() as int
            },
        ),
    decreases n,
{
    let len = bytes.len() as int;
    if n == 0 {
        assert(concat_chunks(bytes, 0, m) =~= bytes.take(0));
    } else {
        lemma_concat_chunks_covers(bytes, n - 1, m);
        assert((n - 1) * m == n * m - m) by (nonlinear_arith);
        assert(concat_chunks(bytes, n, m) =~= bytes.take(
            if n * m < len {
                n * m
            } else {
                len
            },
        ));
    }
}

/// Enough chunks cover the whole payload.
pub proof fn lemma_concat_chunks_all(bytes: Seq<u8>, n: int, m: int)
    requires
        m >= 1,
        n >= 0,
        n * m >= bytes.len(),
    ensures
        concat_chunks(bytes, n, m) == bytes,
{
    lemma_concat_chunks_covers(bytes, n, m);
    assert(bytes.take(bytes.len() as int) =~= bytes);
}

/// For a payload of length `L` split at `M` bytes per chunk, concatenating
/// chunks `0` through `ceil(L / M) - 1` in order reproduces the payload
/// exactly.
pub proof fn lemma_chunk_round_trip(bytes: Seq<u8>, m: int)
    requires
        m >= 1,
    ensures
        concat_chunks(
            bytes,
            if bytes.len() as int % m == 0 {
                bytes.len() as int / m
            } else {
                bytes.len() as int / m + 1
            },
            m,
        ) == bytes,
{
    let len = bytes.len() as int;
    let q = len / m;
    let r = len % m;
    lemma_fundamental_div_mod(len, m);
    let n = if r == 0 {
        q
    } else {
        q + 1
    };
    assert(n * m >= len) by (nonlinear_arith)
        requires
            len == q * m + r,
            0 <= r < m,
            n == if r == 0 {
                q
            } else {
                q + 1
            },
    ;
    assert(n >= 0) by (nonlinear_arith)
        requires
            len == q * m + r,
            0 <= r < m,
            m >= 1,
            len >= 0,
            n == if r == 0 {
                q
            } else {
                q + 1
            },
    ;
    lemma_concat_chunks_all(bytes, n, m);
}

/// The consumer fetches chunks `0` through the reported last index; that
/// always covers the payload.
pub proof fn lemma_chunks_to_last_cover(bytes: Seq<u8>, m: int)
    requires
        m >= 1,
        m <= bytes.len(),
    ensures
        concat_chunks(bytes, spec_last_chunk_index(bytes.len() as int, m) + 1, m) == bytes,
{
    let len = bytes.len() as int;
    let last = spec_last_chunk_index(len, m);
    lemma_fundamental_div_mod(len, m);
    if m < len {
        assert((last + 1) * m >= len) by (nonlinear_arith)
            requires
                last == len / m,
                len == (len / m) * m + len % m,
                0 <= len % m < m,
        ;
    } else {
        assert((last + 1) * m == m) by (nonlinear_arith)
            requires
                last == 0,
        ;
    }
    lemma_concat_chunks_all(bytes, last + 1, m);
}

/// One producer reply: the requested slice of the payload and the retry
/// bound, or the whole payload tagged `(0, 0)` when it fits one chunk.
pub fn chunk_slice(bytes: &Vec<u8>, chunk: usize, max_bytes_per_chunk: usize) -> (r: (
    Vec<u8>,
    (usize, usize),
))
    requires
        max_bytes_per_chunk >= 1,
    ensures
        bytes@.len() < max_bytes_per_chunk ==> r.0@ == bytes@ && r.1 == (0usize, 0usize),
        bytes@.len() >= max_bytes_per_chunk ==> {
            &&& r.0@ == chunk_of(bytes@, chunk as int, max_bytes_per_chunk as int)
            &&& r.1.0 == chunk
            &&& r.1.1 == spec_last_chunk_index(bytes@.len() as int, max_bytes_per_chunk as int)
        },
{
    let len = bytes.len();
    if len < max_bytes_per_chunk {
        let out = slice_to_vec(bytes.as_slice());
        return (out, (0, 0));
    }
    let last = if max_bytes_per_chunk < len {
        len / max_bytes_per_chunk
    } else {
        0
    };
    let wide: u128 = {
        let c: u128 = chunk as u64 as u128;
        let m: u128 = max_bytes_per_chunk as u64 as u128;
        proof {
            assert(c * m <= u128::MAX) by (nonlinear_arith)
                requires
                    c <= u64::MAX,
                    m <= u64::MAX,
            ;
        }
        c * m
    };
    let start: usize = if wide >= len as u128 {
        len
    } else {
        wide as usize
    };
    let end: usize = if max_bytes_per_chunk < len - start {
        start + max_bytes_per_chunk
    } else {
        len
    };
    let out = slice_to_vec(slice_subrange(bytes.as_slice(), start, end));
    (out, (chunk, last))
}

} // verus!
