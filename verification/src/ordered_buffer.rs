//! The sequenced-fragment reassembly layer.
//!
//! The sending side slices an outbound byte buffer into size-bounded
//! [`Message`] fragments with strictly increasing indices.  The receiving
//! side accumulates fragments arriving in any order and releases only the
//! longest gapless run starting at the next expected index, so that the
//! delivered bytes always form a prefix of the original stream, in order and
//! without duplication.  A fragment lost in transit stalls delivery of
//! everything after it until it arrives; nothing is ever discarded because
//! of a gap.

use vstd::prelude::*;

use crate::chunking::Piece;
use crate::chunking::chunk_count;
use crate::chunking::concat_pieces;
use crate::chunking::is_chunking;
use crate::chunking::split_chunks;

verus! {

/// One indexed chunk of a byte stream, as produced by the sender and held by
/// the reassembly buffer.
#[derive(Clone, Debug, PartialEq, Eq)]
pub struct Message {
    pub data: Vec<u8>,
    pub index: u64,
}

impl Message {
    /// The specification-level image of this message.
    pub open spec fn piece(self) -> Piece {
        Piece { index: self.index, data: self.data@ }
    }
}

/// The specification-level images of a sequence of messages.
pub open spec fn pieces_of(msgs: Seq<Message>) -> Seq<Piece> {
    msgs.map_values(|m: Message| m.piece())
}

/// Slices outbound byte buffers into messages of at most a fixed size and
/// assigns each message the next value of a running counter.  One sender
/// serves one direction of one logical connection; its counter starts at
/// zero and never resets, so indices are assigned contiguously across calls.
pub struct OrderedMessageSender {
    fragment_max_size: usize,
    next_index: u64,
}

impl OrderedMessageSender {
    /// The largest payload a produced message may carry.
    pub closed spec fn fragment_max_size(self) -> usize {
        self.fragment_max_size
    }

    /// The index the next produced message will carry.
    pub closed spec fn next_index(self) -> u64 {
        self.next_index
    }

    /// A fresh sender with the given (positive) maximum fragment size,
    /// counting from zero.
    pub fn new(fragment_max_size: usize) -> (sender: OrderedMessageSender)
        requires
            fragment_max_size > 0,
        ensures
            sender.fragment_max_size() == fragment_max_size,
            sender.next_index() == 0,
    {
        OrderedMessageSender { fragment_max_size, next_index: 0 }
    }

    /// Slices `input` into consecutive chunks of at most the maximum
    /// fragment size (the final chunk may be shorter; an empty input yields
    /// no messages) and tags the chunks with consecutive indices counting up
    /// from the current counter value, in input order.
    pub fn packetize(&mut self, input: Vec<u8>) -> (fragments: Vec<Message>)
        requires
            old(self).fragment_max_size() > 0,
            old(self).next_index() + chunk_count(
                input@.len() as int,
                old(self).fragment_max_size() as int,
            ) <= u64::MAX,
        ensures
            final(self).fragment_max_size() == old(self).fragment_max_size(),
            fragments@.len() == chunk_count(
                input@.len() as int,
                old(self).fragment_max_size() as int,
            ),
            is_chunking(
                pieces_of(fragments@),
                input@,
                old(self).fragment_max_size() as int,
                old(self).next_index() as int,
            ),
            final(self).next_index() == old(self).next_index() + fragments@.len(),
    {
        let mut chunks = split_chunks(&input, self.fragment_max_size);
        let ghost all_chunks = chunks@;
        let start = self.next_index;
        let mut fragments: Vec<Message> = Vec::new();
        while chunks.len() > 0
            invariant
                fragments@.len() + chunks@.len() == all_chunks.len(),
                chunks@ == all_chunks.skip(fragments@.len() as int),
                start + all_chunks.len() <= u64::MAX,
                forall|j: int|
                    0 <= j < fragments@.len() ==> (#[trigger] fragments@[j]).index == start + j
                        && fragments@[j].data@ == all_chunks[j]@,
            decreases chunks@.len(),
        {
            let ghost k = fragments@.len() as int;
            let chunk = chunks.remove(0);
            let index = start + (fragments.len() as u64);
            fragments.push(Message { data: chunk, index });
            proof {
                assert(chunk == all_chunks[k]);
                assert(chunks@ =~= all_chunks.skip(k + 1));
            }
        }
        self.next_index = start + (fragments.len() as u64);
        proof {
            let max = old(self).fragment_max_size() as int;
            assert forall|j: int| 0 <= j < fragments@.len() implies (#[trigger] pieces_of(
                fragments@,
            )[j]).index == start + j && pieces_of(fragments@)[j].data == crate::chunking::chunk_at(
                input@,
                max,
                j,
            ) by {
                assert(pieces_of(fragments@)[j] == fragments@[j].piece());
                assert(fragments@[j].data@ == all_chunks[j]@);
            }
        }
        fragments
    }
}

/// The held fragments are strictly sorted by index, and every held index is
/// at least the high-water mark and small enough that the mark can be
/// advanced past it.
pub open spec fn buffer_wf(fragments: Seq<Message>, next_index: u64) -> bool {
    &&& forall|i: int, j: int|
        0 <= i < j < fragments.len() ==> (#[trigger] fragments[i]).index < (
        #[trigger] fragments[j]).index
    &&& forall|i: int|
        0 <= i < fragments.len() ==> next_index <= (#[trigger] fragments[i]).index < u64::MAX
}

/// Where a fragment with index `idx` belongs in `fragments`: after every
/// held fragment with a smaller index.
pub open spec fn insert_position(fragments: Seq<Message>, idx: u64) -> int
    decreases fragments.len(),
{
    if fragments.len() == 0 || fragments[0].index >= idx {
        0
    } else {
        1 + insert_position(fragments.skip(1), idx)
    }
}

/// The length of the gapless run at the front of `fragments`: the largest
/// `k` such that the first `k` held indices are exactly `next`, `next + 1`,
/// ..., `next + k - 1`.
pub open spec fn run_length(fragments: Seq<Message>, next: int) -> int
    decreases fragments.len(),
{
    if fragments.len() == 0 || fragments[0].index != next {
        0
    } else {
        1 + run_length(fragments.skip(1), next + 1)
    }
}

/// A position below which every index is smaller than `idx` and at which,
/// if it exists, the index is at least `idx`, is the insert position.
proof fn lemma_insert_position_is(fragments: Seq<Message>, idx: u64, p: int)
    requires
        0 <= p <= fragments.len(),
        forall|j: int| 0 <= j < p ==> (#[trigger] fragments[j]).index < idx,
        p < fragments.len() ==> fragments[p].index >= idx,
    ensures
        insert_position(fragments, idx) == p,
    decreases p,
{
    if p > 0 {
        assert(fragments[0].index < idx);
        lemma_insert_position_is(fragments.skip(1), idx, p - 1);
    }
}

/// A prefix of consecutive indices starting at `next`, followed by the end
/// of the buffer or a fragment out of sequence, is the front run.
proof fn lemma_run_length_is(fragments: Seq<Message>, next: int, k: int)
    requires
        0 <= k <= fragments.len(),
        forall|j: int| 0 <= j < k ==> (#[trigger] fragments[j]).index == next + j,
        k < fragments.len() ==> fragments[k].index != next + k,
    ensures
        run_length(fragments, next) == k,
    decreases k,
{
    if k > 0 {
        assert(fragments[0].index == next);
        lemma_run_length_is(fragments.skip(1), next + 1, k - 1);
    }
}

/// A buffer holding exactly the fragments of one chunking, with its
/// high-water mark at the chunking's first index, releases the whole input
/// in a single read: the front run covers every held fragment, and the
/// concatenated payloads are the chunked buffer, byte for byte.  Together
/// with the contracts of [`OrderedMessageSender::packetize`] and
/// [`OrderedMessageBuffer::read`], this says that whatever one side slices
/// up, the other reassembles exactly, however the fragments were reordered
/// on the way.
pub proof fn lemma_chunking_fully_released(
    fragments: Seq<Message>,
    input: Seq<u8>,
    max: int,
    next: u64,
)
    requires
        max > 0,
        is_chunking(pieces_of(fragments), input, max, next as int),
    ensures
        run_length(fragments, next as int) == fragments.len(),
        concat_pieces(pieces_of(fragments.take(fragments.len() as int))) == input,
{
    assert forall|j: int| 0 <= j < fragments.len() implies (#[trigger] fragments[j]).index == next
        + j by {
        assert(pieces_of(fragments)[j] == fragments[j].piece());
    }
    lemma_run_length_is(fragments, next as int, fragments.len() as int);
    assert(fragments.take(fragments.len() as int) =~= fragments);
    crate::chunking::lemma_chunking_reconstructs(pieces_of(fragments), input, max, next as int);
}

/// Stores fragments received in any order for one logical connection and
/// emits their bytes in index order.
///
/// The buffer keeps its fragments sorted by index and tracks a high-water
/// mark: the lowest index not yet delivered.  [`OrderedMessageBuffer::read`]
/// releases only the gapless run at the front, so delivered bytes always
/// form a prefix of the sent stream; fragments after a gap are deferred, not
/// discarded, until the gap is filled.  Duplicate deliveries are rejected on
/// [`OrderedMessageBuffer::write`]: the first fragment carrying an index is
/// the one kept.
pub struct OrderedMessageBuffer {
    next_index: u64,
    fragments: Vec<Message>,
}

impl OrderedMessageBuffer {
    /// The lowest fragment index not yet delivered.
    pub closed spec fn next_index(self) -> u64 {
        self.next_index
    }

    /// The fragments received but not yet delivered, in index order.
    pub closed spec fn fragments(self) -> Seq<Message> {
        self.fragments@
    }

    /// The buffer's invariant; established by [`OrderedMessageBuffer::new`]
    /// and preserved by every operation.
    pub open spec fn wf(self) -> bool {
        buffer_wf(self.fragments(), self.next_index())
    }

    /// Whether [`OrderedMessageBuffer::write`] will retain `fragment`: its
    /// index has not already been delivered or duplicated, and the
    /// high-water mark can be advanced past it.
    pub open spec fn accepts(self, fragment: Message) -> bool {
        &&& self.next_index() <= fragment.index
        &&& fragment.index < u64::MAX
        &&& forall|i: int|
            0 <= i < self.fragments().len() ==> (#[trigger] self.fragments()[i]).index
                != fragment.index
    }

    /// An empty buffer expecting the stream to start at index zero.
    pub fn new() -> (buffer: OrderedMessageBuffer)
        ensures
            buffer.wf(),
            buffer.next_index() == 0,
            buffer.fragments() == Seq::<Message>::empty(),
    {
        OrderedMessageBuffer { next_index: 0, fragments: Vec::new() }
    }

    /// Files `fragment` into the held set, keeping it sorted by index.
    ///
    /// A fragment whose index was already delivered or is already held (a
    /// duplicate delivery), or whose index is the largest representable one
    /// (which the high-water mark could never move past), is dropped and the
    /// buffer is left unchanged.
    pub fn write(&mut self, fragment: Message)
        requires
            old(self).wf(),
        ensures
            final(self).wf(),
            final(self).next_index() == old(self).next_index(),
            old(self).accepts(fragment) ==> final(self).fragments() == old(self).fragments().insert(
                insert_position(old(self).fragments(), fragment.index),
                fragment,
            ),
            !old(self).accepts(fragment) ==> final(self).fragments() == old(self).fragments(),
    {
        if fragment.index < self.next_index {
            return ;
        }
        if fragment.index == u64::MAX {
            return ;
        }
        let mut p: usize = 0;
        while p < self.fragments.len() && self.fragments[p].index < fragment.index
            invariant
                p <= self.fragments@.len(),
                self.fragments@ == old(self).fragments(),
                self.next_index == old(self).next_index(),
                forall|j: int|
                    0 <= j < p ==> (#[trigger] self.fragments@[j]).index < fragment.index,
            decreases self.fragments@.len() - p,
        {
            p = p + 1;
        }
        if p < self.fragments.len() {
            if self.fragments[p].index == fragment.index {
                return ;
            }
        }
        proof {
            let s = old(self).fragments();
            assert forall|i: int| 0 <= i < s.len() implies (#[trigger] s[i]).index != fragment.index
            by {
                if i >= p {
                    assert(s[p as int].index > fragment.index || p == s.len());
                    if i > p {
                        assert(s[p as int].index < s[i].index);
                    }
                }
            }
            lemma_insert_position_is(s, fragment.index, p as int);
        }
        let ghost s = old(self).fragments();
        let ghost pos = p as int;
        self.fragments.insert(p, fragment);
        proof {
            let t = self.fragments@;
            assert forall|i: int, j: int| 0 <= i < j < t.len() implies (#[trigger] t[i]).index < (
            #[trigger] t[j]).index by {
                assert(t[i] == if i < pos {
                    s[i]
                } else if i == pos {
                    fragment
                } else {
                    s[i - 1]
                });
                assert(t[j] == if j < pos {
                    s[j]
                } else if j == pos {
                    fragment
                } else {
                    s[j - 1]
                });
                if pos < s.len() {
                    assert(s[pos].index > fragment.index);
                }
            }
        }
    }

    /// Releases the longest gapless run at the front of the buffer.
    ///
    /// Returns `None` when the buffer is empty or the fragment with the next
    /// expected index has not yet arrived.  Otherwise removes the run of
    /// consecutively indexed fragments starting at the high-water mark,
    /// advances the mark one past the run, and returns the run's payloads
    /// concatenated in index order.  An immediately repeated read therefore
    /// returns `None`, and fragments waiting behind a gap stay held until
    /// the gap is filled.
    pub fn read(&mut self) -> (data: Option<Vec<u8>>)
        requires
            old(self).wf(),
        ensures
            final(self).wf(),
            ({
                let k = run_length(old(self).fragments(), old(self).next_index() as int);
                &&& (k == 0 ==> data is None && final(self).fragments() == old(self).fragments()
                    && final(self).next_index() == old(self).next_index())
                &&& (k > 0 ==> (data matches Some(bytes) && bytes@ == concat_pieces(
                    pieces_of(old(self).fragments().take(k)),
                ) && final(self).fragments() == old(self).fragments().skip(k)
                    && final(self).next_index() == old(self).next_index() + k))
            }),
    {
        let ghost orig = self.fragments@;
        let ghost orig_next = self.next_index as int;
        if self.fragments.len() == 0 {
            return None;
        }
        if self.fragments[0].index > self.next_index {
            assert(run_length(orig, orig_next) == 0);
            return None;
        }
        assert(orig[0].index == orig_next);
        let mut out: Vec<u8> = Vec::new();
        let mut expected: u64 = self.next_index;
        proof {
            assert(pieces_of(orig.take(0)) =~= Seq::<Piece>::empty());
            assert(concat_pieces(pieces_of(orig.take(0))) =~= Seq::<u8>::empty());
        }
        while self.fragments.len() > 0 && self.fragments[0].index == expected
            invariant
                buffer_wf(orig, orig_next as u64),
                orig_next == old(self).next_index() as int,
                orig_next <= expected <= orig_next + orig.len(),
                self.fragments@ == orig.skip(expected - orig_next),
                self.next_index == old(self).next_index(),
                forall|j: int| 0 <= j < expected - orig_next ==> (#[trigger] orig[j]).index
                    == orig_next + j,
                out@ == concat_pieces(pieces_of(orig.take(expected - orig_next))),
            decreases self.fragments@.len(),
        {
            let ghost k = expected - orig_next;
            assert(self.fragments@[0] == orig[k]);
            let mut frag = self.fragments.remove(0);
            out.append(&mut frag.data);
            expected = expected + 1;
            proof {
                assert(self.fragments@ =~= orig.skip(k + 1));
                assert(pieces_of(orig.take(k + 1)) =~= pieces_of(orig.take(k)).push(
                    orig[k].piece(),
                ));
                crate::chunking::lemma_concat_pieces_push(pieces_of(orig.take(k)), orig[k].piece());
            }
        }
        let ghost k = expected - orig_next;
        proof {
            lemma_run_length_is(orig, orig_next, k);
            assert(k >= 1);
            assert forall|i: int| 0 <= i < orig.skip(k).len() implies expected <= (
            #[trigger] orig.skip(k)[i]).index < u64::MAX by {
                assert(orig.skip(k)[i] == orig[k + i]);
                assert(orig[k - 1].index == orig_next + k - 1);
                assert(orig[k - 1].index < orig[k + i].index);
            }
        }
        self.next_index = expected;
        Some(out)
    }
}

} // verus!
