//! A fragmenter and collecting buffer for raw TCP byte streams.
//!
//! [`Packetizer`] slices outbound bytes into indexed [`Fragment`]s, exactly
//! as the sender in [`crate::ordered_buffer`] does for its messages.  The
//! buffer here is the simpler of the two receivers: it keeps everything
//! written to it sorted by index and a read drains the whole buffer at once,
//! with no high-water mark and no gap detection.  Reordering between two
//! reads is corrected, but a fragment arriving after a later-indexed one was
//! already read comes out behind it; where that matters, the gap-aware
//! buffer in [`crate::ordered_buffer`] is the one to use.

use vstd::prelude::*;

use crate::chunking::Piece;
use crate::chunking::chunk_count;
use crate::chunking::concat_pieces;
use crate::chunking::is_chunking;
use crate::chunking::split_chunks;

verus! {

/// One indexed chunk of a byte stream.
#[derive(Clone, Debug, PartialEq, Eq)]
pub struct Fragment {
    pub data: Vec<u8>,
    pub index: u64,
}

impl Fragment {
    /// The specification-level image of this fragment.
    pub open spec fn piece(self) -> Piece {
        Piece { index: self.index, data: self.data@ }
    }
}

/// The specification-level images of a sequence of fragments.
pub open spec fn fragment_pieces(fragments: Seq<Fragment>) -> Seq<Piece> {
    fragments.map_values(|f: Fragment| f.piece())
}

/// The fragments are in nondecreasing index order.
pub open spec fn sorted_by_index(fragments: Seq<Fragment>) -> bool {
    forall|i: int, j: int|
        0 <= i < j < fragments.len() ==> (#[trigger] fragments[i]).index <= (
        #[trigger] fragments[j]).index
}

/// Slices outbound byte buffers into fragments of at most a fixed size and
/// assigns each fragment the next value of a running counter, which starts
/// at zero and never resets.
pub struct Packetizer {
    fragment_max_size: usize,
    next_index: u64,
}

impl Packetizer {
    /// The largest payload a produced fragment may carry.
    pub closed spec fn fragment_max_size(self) -> usize {
        self.fragment_max_size
    }

    /// The index the next produced fragment will carry.
    pub closed spec fn next_index(self) -> u64 {
        self.next_index
    }

    /// A fresh packetizer with the given (positive) maximum fragment size,
    /// counting from zero.
    pub fn new(fragment_max_size: usize) -> (packetizer: Packetizer)
        requires
            fragment_max_size > 0,
        ensures
            packetizer.fragment_max_size() == fragment_max_size,
            packetizer.next_index() == 0,
    {
        Packetizer { fragment_max_size, next_index: 0 }
    }

    /// Slices `input` into consecutive chunks of at most the maximum
    /// fragment size (the final chunk may be shorter; an empty input yields
    /// no fragments) and tags the chunks with consecutive indices counting
    /// up from the current counter value, in input order.
    pub fn packetize(&mut self, input: Vec<u8>) -> (fragments: Vec<Fragment>)
        requires
            old(self).fragment_max_size() > 0,
            old(self).next_index() + chunk_count(
                input@.len() as int,
                old(self).fragment_max_size() as int,
            ) <= u64::MAX,
        ensures
            final(self).fragment_max_size() == old(self).fragment_max_size(),
            fragments@.len() == chunk_count(
                input@.len() as int,
                old(self).fragment_max_size() as int,
            ),
            is_chunking(
                fragment_pieces(fragments@),
                input@,
                old(self).fragment_max_size() as int,
                old(self).next_index() as int,
            ),
            final(self).next_index() == old(self).next_index() + fragments@.len(),
    {
        let mut chunks = split_chunks(&input, self.fragment_max_size);
        let ghost all_chunks = chunks@;
        let start = self.next_index;
        let mut fragments: Vec<Fragment> = Vec::new();
        while chunks.len() > 0
            invariant
                fragments@.len() + chunks@.len() == all_chunks.len(),
                chunks@ == all_chunks.skip(fragments@.len() as int),
                start + all_chunks.len() <= u64::MAX,
                forall|j: int|
                    0 <= j < fragments@.len() ==> (#[trigger] fragments@[j]).index == start + j
                        && fragments@[j].data@ == all_chunks[j]@,
            decreases chunks@.len(),
        {
            let ghost k = fragments@.len() as int;
            let chunk = chunks.remove(0);
            let index = start + (fragments.len() as u64);
            fragments.push(Fragment { data: chunk, index });
            proof {
                assert(chunk == all_chunks[k]);
                assert(chunks@ =~= all_chunks.skip(k + 1));
            }
        }
        self.next_index = start + (fragments.len() as u64);
        proof {
            let max = old(self).fragment_max_size() as int;
            assert forall|j: int| 0 <= j < fragments@.len() implies (#[trigger] fragment_pieces(
                fragments@,
            )[j]).index == start + j && fragment_pieces(fragments@)[j].data
                == crate::chunking::chunk_at(input@, max, j) by {
                assert(fragment_pieces(fragments@)[j] == fragments@[j].piece());
                assert(fragments@[j].data@ == all_chunks[j]@);
            }
        }
        fragments
    }
}

/// Inserting an element anywhere in a sequence adds one occurrence of it to
/// the sequence's multiset.
proof fn lemma_insert_to_multiset(s: Seq<Fragment>, p: int, x: Fragment)
    requires
        0 <= p <= s.len(),
    ensures
        s.insert(p, x).to_multiset() == s.to_multiset().insert(x),
{
    broadcast use vstd::seq_lib::group_to_multiset_ensures;

    let t = s.insert(p, x);
    assert(t.remove(p) =~= s);
    assert(t[p] == x);
    assert(s.to_multiset() =~= t.to_multiset().remove(x));
    assert(t.contains(x));
    assert(t.to_multiset().count(x) > 0);
    assert(t.to_multiset() =~= s.to_multiset().insert(x));
}

/// Collects fragments and hands their bytes back sorted by index.
///
/// Unlike the buffer in [`crate::ordered_buffer`], this one tracks no
/// high-water mark: a read concatenates everything currently held, in index
/// order, and empties the buffer.
pub struct OrderedMessageBuffer {
    fragments: Vec<Fragment>,
}

impl OrderedMessageBuffer {
    /// The fragments written but not yet read, in the order they are held.
    pub closed spec fn fragments(self) -> Seq<Fragment> {
        self.fragments@
    }

    /// An empty buffer.
    pub fn new() -> (buffer: OrderedMessageBuffer)
        ensures
            buffer.fragments() == Seq::<Fragment>::empty(),
    {
        OrderedMessageBuffer { fragments: Vec::new() }
    }

    /// Adds `fragment` to the buffer and re-establishes index order, so
    /// that repeated reads of incomplete sequences need no further sorting.
    /// The buffer afterwards holds exactly the old fragments plus the new
    /// one; fragments with equal indices are all retained, in an
    /// unspecified relative order.
    pub fn write(&mut self, fragment: Fragment)
        ensures
            sorted_by_index(final(self).fragments()),
            final(self).fragments().to_multiset() == old(self).fragments().to_multiset().insert(
                fragment,
            ),
    {
        proof {
            broadcast use vstd::seq_lib::group_to_multiset_ensures;

        }
        self.fragments.push(fragment);
        Self::insertion_sort(&mut self.fragments);
    }

    /// Reads every held byte out of the buffer, in the order the fragments
    /// are held (index order, once [`OrderedMessageBuffer::write`] has
    /// sorted them), and empties it.
    pub fn read(&mut self) -> (data: Option<Vec<u8>>)
        ensures
            (data matches Some(bytes) && bytes@ == concat_pieces(
                fragment_pieces(old(self).fragments()),
            )),
            final(self).fragments() == Seq::<Fragment>::empty(),
    {
        let ghost orig = self.fragments@;
        let mut out: Vec<u8> = Vec::new();
        proof {
            assert(fragment_pieces(orig.take(0)) =~= Seq::<Piece>::empty());
            assert(concat_pieces(fragment_pieces(orig.take(0))) =~= Seq::<u8>::empty());
        }
        let ghost done: int = 0;
        while self.fragments.len() > 0
            invariant
                0 <= done <= orig.len(),
                self.fragments@ == orig.skip(done),
                out@ == concat_pieces(fragment_pieces(orig.take(done))),
            decreases self.fragments@.len(),
        {
            proof {
                assert(self.fragments@[0] == orig[done]);
            }
            let mut frag = self.fragments.remove(0);
            out.append(&mut frag.data);
            proof {
                done = done + 1;
                assert(self.fragments@ =~= orig.skip(done));
                assert(fragment_pieces(orig.take(done)) =~= fragment_pieces(
                    orig.take(done - 1),
                ).push(orig[done - 1].piece()));
                crate::chunking::lemma_concat_pieces_push(
                    fragment_pieces(orig.take(done - 1)),
                    orig[done - 1].piece(),
                );
            }
        }
        proof {
            assert(orig.take(orig.len() as int) =~= orig);
        }
        Some(out)
    }

    /// Sorts the fragments by index in place with an insertion sort: cheap
    /// on the small, nearly sorted runs this buffer sees, though any sort by
    /// index would do.  The sorted vector holds exactly the fragments it
    /// held before.
    pub fn insertion_sort(values: &mut Vec<Fragment>)
        ensures
            sorted_by_index(final(values)@),
            final(values)@.to_multiset() == old(values)@.to_multiset(),
    {
        let mut i: usize = 0;
        while i < values.len()
            invariant
                i <= values@.len(),
                values@.len() == old(values)@.len(),
                values@.to_multiset() == old(values)@.to_multiset(),
                sorted_by_index(values@.take(i as int)),
            decreases values@.len() - i,
        {
            proof {
                assert forall|a: int, b: int| 0 <= a < b <= i && b != i as int implies (
                #[trigger] values@[a]).index <= (#[trigger] values@[b]).index by {
                    assert(values@.take(i as int)[a] == values@[a]);
                    assert(values@.take(i as int)[b] == values@[b]);
                }
            }
            let mut j: usize = i;
            while j > 0 && values[j - 1].index > values[j].index
                invariant
                    j <= i < values@.len(),
                    values@.len() == old(values)@.len(),
                    values@.to_multiset() == old(values)@.to_multiset(),
                    forall|a: int, b: int|
                        0 <= a < b <= i && b != j ==> (#[trigger] values@[a]).index <= (
                        #[trigger] values@[b]).index,
                    forall|b: int|
                        j < b <= i ==> (#[trigger] values@[b]).index >= values@[j as int].index,
                decreases j,
            {
                let ghost before = values@;
                let x = values.remove(j - 1);
                values.insert(j, x);
                proof {
                    broadcast use vstd::seq_lib::group_to_multiset_ensures;

                    assert(values@ =~= before.update(j - 1, before[j as int]).update(
                        j as int,
                        before[j - 1],
                    ));
                    lemma_insert_to_multiset(before.remove(j - 1), j as int, x);
                    assert(before.contains(x));
                    assert(before.to_multiset().count(x) > 0);
                    assert(values@.to_multiset() =~= before.to_multiset());
                }
                j = j - 1;
            }
            i = i + 1;
            proof {
                assert forall|a: int, b: int| 0 <= a < b < i implies (#[trigger] values@[a]).index
                    <= (#[trigger] values@[b]).index by {
                    if b == j && j > 0 {
                        assert(values@[j - 1].index <= values@[j as int].index);
                        if a < j - 1 {
                            assert(values@[a].index <= values@[j - 1].index);
                        }
                    }
                }
                assert(sorted_by_index(values@.take(i as int)));
            }
        }
        proof {
            assert(values@.take(values@.len() as int) =~= values@);
        }
    }
}

} // verus!
