//! The mathematical model of slicing a byte stream into indexed fragments.
//!
//! A fragmenter cuts an outbound buffer into consecutive chunks of at most a
//! fixed number of bytes and tags each chunk with the next value of a running
//! counter.  Two fragmenter types share this picture, so it is stated once,
//! over [`Piece`], the specification-level image of a fragment.  The laws at
//! the end say that chunking loses nothing: the pieces concatenate back to
//! the original buffer, their number is exactly the ceiling of `len / max`,
//! and successive chunkings never reuse an index.

use vstd::prelude::*;

verus! {

/// A fragment as the specifications see it: an index and a payload.
pub struct Piece {
    pub index: u64,
    pub data: Seq<u8>,
}

/// How many chunks of at most `max` bytes cover `len` bytes: none when the
/// buffer is empty, otherwise one for the first `max` bytes and however many
/// cover the rest.
pub open spec fn chunk_count(len: int, max: int) -> nat
    recommends
        max > 0,
    decreases len,
{
    if len <= 0 || max <= 0 {
        0
    } else if len <= max {
        1
    } else {
        1 + chunk_count(len - max, max)
    }
}

/// The `i`-th chunk of `input` under chunk size `max`: the bytes from
/// `i * max` up to the next chunk boundary or the end of the buffer,
/// whichever comes first.
pub open spec fn chunk_at(input: Seq<u8>, max: int, i: int) -> Seq<u8>
    recommends
        max > 0,
        0 <= i < chunk_count(input.len() as int, max),
{
    input.subrange(
        i * max,
        if (i + 1) * max <= input.len() {
            (i + 1) * max
        } else {
            input.len() as int
        },
    )
}

/// The pieces carry consecutive indices counting up from `start`.
pub open spec fn indexed_from(pieces: Seq<Piece>, start: int) -> bool {
    forall|i: int| 0 <= i < pieces.len() ==> (#[trigger] pieces[i]).index == start + i
}

/// `pieces` is exactly the chunking of `input` into chunks of at most `max`
/// bytes, indexed consecutively from `start`.
pub open spec fn is_chunking(pieces: Seq<Piece>, input: Seq<u8>, max: int, start: int) -> bool {
    &&& pieces.len() == chunk_count(input.len() as int, max)
    &&& indexed_from(pieces, start)
    &&& forall|i: int| 0 <= i < pieces.len() ==> (#[trigger] pieces[i]).data == chunk_at(
        input,
        max,
        i,
    )
}

/// Every chunk that exists starts inside the buffer.
proof fn lemma_chunk_start_in_bounds(len: int, max: int, i: int)
    requires
        max > 0,
        0 <= i < chunk_count(len, max),
    ensures
        i * max < len,
    decreases i,
{
    if i == 0 {
        assert(0 * max == 0);
    } else {
        lemma_chunk_start_in_bounds(len - max, max, i - 1);
        assert(i * max == (i - 1) * max + max) by (nonlinear_arith);
    }
}

/// The payloads of a sequence of pieces, concatenated in order.
pub open spec fn concat_pieces(pieces: Seq<Piece>) -> Seq<u8>
    decreases pieces.len(),
{
    if pieces.len() == 0 {
        Seq::empty()
    } else {
        pieces[0].data + concat_pieces(pieces.skip(1))
    }
}

/// Appending one more piece appends its payload to the concatenation.
pub proof fn lemma_concat_pieces_push(pieces: Seq<Piece>, piece: Piece)
    ensures
        concat_pieces(pieces.push(piece)) == concat_pieces(pieces) + piece.data,
    decreases pieces.len(),
{
    if pieces.len() == 0 {
        assert(pieces.push(piece).skip(1) =~= Seq::<Piece>::empty());
        assert(concat_pieces(pieces.push(piece).skip(1)) =~= Seq::<u8>::empty());
        assert(pieces.push(piece)[0] == piece);
        assert(concat_pieces(pieces) =~= Seq::<u8>::empty());
        assert(concat_pieces(pieces.push(piece)) =~= concat_pieces(pieces) + piece.data);
    } else {
        lemma_concat_pieces_push(pieces.skip(1), piece);
        assert(pieces.push(piece).skip(1) =~= pieces.skip(1).push(piece));
        assert(concat_pieces(pieces.push(piece)) == pieces[0].data + concat_pieces(
            pieces.skip(1).push(piece),
        ));
        assert(concat_pieces(pieces.push(piece)) =~= concat_pieces(pieces) + piece.data);
    }
}

/// Cuts `input` into consecutive chunks of at most `max` bytes; the final
/// chunk may be shorter, and an empty buffer yields no chunks at all.
pub fn split_chunks(input: &Vec<u8>, max: usize) -> (chunks: Vec<Vec<u8>>)
    requires
        max > 0,
    ensures
        chunks@.len() == chunk_count(input@.len() as int, max as int),
        forall|i: int|
            0 <= i < chunks@.len() ==> (#[trigger] chunks@[i])@ == chunk_at(input@, max as int, i),
{
    let ghost len = input@.len() as int;
    let mut chunks: Vec<Vec<u8>> = Vec::new();
    let mut pos: usize = 0;
    proof {
        assert(chunks@.len() * (max as int) == 0) by (nonlinear_arith)
            requires
                chunks@.len() == 0,
        ;
    }
    while pos < input.len()
        invariant
            max > 0,
            pos <= input@.len(),
            pos as int == if chunks@.len() * (max as int) <= len {
                chunks@.len() * (max as int)
            } else {
                len
            },
            chunks@.len() + chunk_count(len - pos, max as int) == chunk_count(len, max as int),
            forall|j: int|
                0 <= j < chunks@.len() ==> (#[trigger] chunks@[j])@ == chunk_at(
                    input@,
                    max as int,
                    j,
                ),
            len == input@.len(),
        decreases input@.len() - pos,
    {
        let ghost i = chunks@.len() as int;
        let remaining = input.len() - pos;
        let chunk_len = if remaining < max {
            remaining
        } else {
            max
        };
        let mut chunk: Vec<u8> = Vec::new();
        let mut j: usize = 0;
        while j < chunk_len
            invariant
                j <= chunk_len,
                pos + chunk_len <= input@.len(),
                input@.len() <= usize::MAX,
                chunk@ == input@.subrange(pos as int, pos + j),
            decreases chunk_len - j,
        {
            chunk.push(input[pos + j]);
            j = j + 1;
            assert(chunk@ =~= input@.subrange(pos as int, pos + j));
        }
        chunks.push(chunk);
        pos = pos + chunk_len;
        proof {
            assert((i + 1) * (max as int) == i * (max as int) + max) by (nonlinear_arith);
            assert(chunks@[i]@ =~= chunk_at(input@, max as int, i));
        }
    }
    chunks
}

/// Chunking covers the buffer: concatenating the payloads of a chunking of
/// `input`, in index order, reproduces `input` exactly.
pub proof fn lemma_chunking_reconstructs(pieces: Seq<Piece>, input: Seq<u8>, max: int, start: int)
    requires
        max > 0,
        is_chunking(pieces, input, max, start),
    ensures
        concat_pieces(pieces) == input,
    decreases pieces.len(),
{
    let len = input.len() as int;
    if pieces.len() == 0 {
        assert(chunk_count(len, max) == 0);
        assert(concat_pieces(pieces) =~= input);
    } else {
        assert(len > 0);
        assert(pieces[0].data == chunk_at(input, max, 0));
        assert(0 * max == 0);
        assert(1 * max == max);
        if len <= max {
            assert(pieces.len() == 1);
            assert(pieces.skip(1).len() == 0);
            assert(concat_pieces(pieces.skip(1)) =~= Seq::<u8>::empty());
            assert(concat_pieces(pieces) =~= pieces[0].data);
            assert(pieces[0].data =~= input);
        } else {
            let tail_input = input.skip(max);
            let tail_pieces = pieces.skip(1);
            assert(tail_pieces.len() == chunk_count(len - max, max));
            assert forall|i: int| 0 <= i < tail_pieces.len() implies (#[trigger] tail_pieces[i]).data
                == chunk_at(tail_input, max, i) && tail_pieces[i].index == (start + 1) + i by {
                assert(tail_pieces[i] == pieces[i + 1]);
                assert(pieces[i + 1].data == chunk_at(input, max, i + 1));
                assert((i + 1) * max == i * max + max) by (nonlinear_arith);
                assert((i + 2) * max == (i + 1) * max + max) by (nonlinear_arith);
                lemma_chunk_start_in_bounds(len, max, i + 1);
                assert(chunk_at(input, max, i + 1) =~= chunk_at(tail_input, max, i));
            }
            lemma_chunking_reconstructs(tail_pieces, tail_input, max, start + 1);
            assert(concat_pieces(pieces) == pieces[0].data + tail_input);
            assert(pieces[0].data + tail_input =~= input);
        }
    }
}

/// The number of chunks is the ceiling of `len / max`.
pub proof fn lemma_chunk_count_is_ceil(len: int, max: int)
    requires
        len >= 0,
        max > 0,
    ensures
        chunk_count(len, max) == (len + max - 1) / max,
    decreases len,
{
    if len == 0 {
        vstd::arithmetic::div_mod::lemma_basic_div(max - 1, max);
    } else if len <= max {
        assert(chunk_count(len, max) == 1);
        vstd::arithmetic::div_mod::lemma_basic_div(len - 1, max);
        vstd::arithmetic::div_mod::lemma_div_plus_one(len - 1, max);
        assert(len + max - 1 == max + (len - 1));
    } else {
        lemma_chunk_count_is_ceil(len - max, max);
        vstd::arithmetic::div_mod::lemma_div_plus_one(len - 1, max);
        assert(len - max + max - 1 == len - 1);
        assert(len + max - 1 == max + (len - 1));
    }
}

/// Chunking one buffer and then another, starting the second where the first
/// left off, never hands out the same index twice.
pub proof fn lemma_successive_indices_distinct(first: Seq<Piece>, second: Seq<Piece>, start: int)
    requires
        indexed_from(first, start),
        indexed_from(second, start + first.len()),
    ensures
        forall|i: int, j: int|
            0 <= i < first.len() && 0 <= j < second.len() ==> (#[trigger] first[i]).index != (
            #[trigger] second[j]).index,
{
}

} // verus!
