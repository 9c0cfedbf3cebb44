//! Line-aligned chunking of an input byte stream.
//!
//! A chunk gathers whole lines until it reaches or exceeds a target block
//! size, or the input ends.  A chunk boundary therefore never falls in the
//! middle of a line, so a record is never split across two frames.

use vstd::prelude::*;

verus! {

/// True when `e` is a position at which a chunk may end: the end of the
/// input, or the position just after a newline byte.
pub open spec fn is_line_boundary(input: Seq<u8>, e: int) -> bool {
    e == input.len() || (0 < e <= input.len() && input[e - 1] == 10u8)
}

/// True when `end` is where the chunk starting at `start` ends: the first
/// line boundary at which at least `block_size` bytes have been gathered,
/// or the end of the input if no boundary reaches that size.
pub open spec fn is_chunk_end(input: Seq<u8>, start: int, block_size: int, end: int) -> bool {
    &&& start < end <= input.len()
    &&& is_line_boundary(input, end)
    &&& end - start >= block_size || end == input.len()
    &&& forall|e: int|
        start < e < end && is_line_boundary(input, e) ==> e - start < block_size
}

/// The position just after the line that contains position `i`: just after
/// the next newline byte, or the end of the input.
pub open spec fn line_end(input: Seq<u8>, i: int) -> int
    decreases input.len() - i,
    when 0 <= i <= input.len()
{
    if i >= input.len() {
        i
    } else if input[i] == 10u8 {
        i + 1
    } else {
        line_end(input, i + 1)
    }
}

/// Where the chunk that starts at `start` ends, as a function: whole lines
/// are gathered until `block_size` bytes are reached or the input ends.
pub open spec fn chunk_end_at(input: Seq<u8>, start: int, block_size: int) -> int
    decreases input.len() - start,
    when 0 <= start <= input.len()
{
    let le = line_end(input, start);
    if le >= input.len() || le - start >= block_size {
        le
    } else {
        proof {
            lemma_line_end_bounds(input, start);
        }
        chunk_end_at(input, le, block_size - (le - start))
    }
}

/// A line's end lies strictly beyond its start and within the input, and
/// the bytes before it (from its start) are not newlines.
pub proof fn lemma_line_end_bounds(input: Seq<u8>, i: int)
    requires
        0 <= i <= input.len(),
    ensures
        i <= line_end(input, i) <= input.len(),
        i < input.len() ==> i < line_end(input, i),
        is_line_boundary(input, line_end(input, i)),
        forall|e: int| i < e < line_end(input, i) ==> !is_line_boundary(input, e),
    decreases input.len() - i,
{
    if i >= input.len() {
    } else if input[i] == 10u8 {
    } else {
        lemma_line_end_bounds(input, i + 1);
        assert forall|e: int| i < e < line_end(input, i) implies !is_line_boundary(input, e) by {
            if e == i + 1 {
                assert(input[e - 1] != 10u8);
            }
        }
    }
}

/// The functional chunk end satisfies the relational description: it is a
/// line boundary, it is past `start`, and it is the first boundary at which
/// the gathered bytes reach `block_size` (or the end of the input).  In
/// particular every chunk ends immediately after a newline or at the end of
/// the input, for any input and any positive block size.
pub proof fn lemma_chunk_end_at_correct(input: Seq<u8>, start: int, block_size: int)
    requires
        0 <= start < input.len(),
        block_size > 0,
    ensures
        is_chunk_end(input, start, block_size, chunk_end_at(input, start, block_size)),
    decreases input.len() - start,
{
    let le = line_end(input, start);
    lemma_line_end_bounds(input, start);
    if le >= input.len() || le - start >= block_size {
    } else {
        lemma_chunk_end_at_correct(input, le, block_size - (le - start));
        let end = chunk_end_at(input, le, block_size - (le - start));
        assert forall|e: int|
            start < e < end && is_line_boundary(input, e) implies e - start < block_size by {
            if e < le {
                assert(!is_line_boundary(input, e));
            } else if e == le {
                assert(le - start < block_size);
            } else {
                assert(e - le < block_size - (le - start));
            }
        }
    }
}

/// Only one position can satisfy the chunk-end description.
pub proof fn lemma_chunk_end_unique(
    input: Seq<u8>,
    start: int,
    block_size: int,
    e1: int,
    e2: int,
)
    requires
        is_chunk_end(input, start, block_size, e1),
        is_chunk_end(input, start, block_size, e2),
    ensures
        e1 == e2,
{
    if e1 < e2 {
        assert(e1 - start < block_size);
        assert(e1 == input.len());
    } else if e2 < e1 {
        assert(e2 - start < block_size);
        assert(e2 == input.len());
    }
}

/// Where the `k`-th chunk of `input` starts: chunk `0` starts at the
/// beginning, and each later chunk starts where the previous one ended.
/// Once the input is exhausted the start saturates at the input's length.
pub open spec fn chunk_start(input: Seq<u8>, block_size: int, k: int) -> int
    decreases k,
    when k >= 0 && block_size > 0
{
    if k <= 0 {
        0
    } else {
        let p = chunk_start(input, block_size, k - 1);
        if 0 <= p < input.len() {
            chunk_end_at(input, p, block_size)
        } else {
            input.len() as int
        }
    }
}

/// Chunk starts stay within the input.
pub proof fn lemma_chunk_start_bounds(input: Seq<u8>, block_size: int, k: int)
    requires
        block_size > 0,
        k >= 0,
    ensures
        0 <= chunk_start(input, block_size, k) <= input.len(),
    decreases k,
{
    if k > 0 {
        lemma_chunk_start_bounds(input, block_size, k - 1);
        let p = chunk_start(input, block_size, k - 1);
        if 0 <= p < input.len() {
            lemma_chunk_end_at_correct(input, p, block_size);
        }
    }
}

/// Finds the end of the chunk of `input` that starts at `start`: whole lines
/// are gathered until at least `block_size` bytes are reached or the input
/// ends, so the returned boundary never falls inside a line.
pub fn read_chunk(input: &[u8], start: usize, block_size: usize) -> (end: usize)
    requires
        start < input@.len(),
        block_size > 0,
    ensures
        is_chunk_end(input@, start as int, block_size as int, end as int),
        end == chunk_end_at(input@, start as int, block_size as int),
{
    let n: usize = input.len();
    let mut j: usize = start;
    loop
        invariant
            start <= j < n,
            n == input@.len(),
            block_size > 0,
            forall|e: int|
                start < e <= j && is_line_boundary(input@, e) ==> e - start < block_size,
        decreases n - j,
    {
        let b = input[j];
        j = j + 1;
        if b == 10u8 && j - start >= block_size {
            proof {
                lemma_chunk_end_at_correct(input@, start as int, block_size as int);
                lemma_chunk_end_unique(
                    input@,
                    start as int,
                    block_size as int,
                    j as int,
                    chunk_end_at(input@, start as int, block_size as int),
                );
            }
            return j;
        }
        if j == n {
            proof {
                lemma_chunk_end_at_correct(input@, start as int, block_size as int);
                lemma_chunk_end_unique(
                    input@,
                    start as int,
                    block_size as int,
                    n as int,
                    chunk_end_at(input@, start as int, block_size as int),
                );
            }
            return n;
        }
        proof {
            assert forall|e: int|
                start < e <= j && is_line_boundary(input@, e) implies e - start < block_size by {
                if e == j {
                    if b == 10u8 {
                        assert(j - start < block_size);
                    } else {
                        assert(input@[e - 1] != 10u8);
                        assert(e < input@.len());
                    }
                }
            }
        }
    }
}

} // verus!
