//! The mathematical model of a send buffer: a stream cut into chunks, each of
//! which has been sent or is still to be sent.
use vstd::prelude::*;

use crate::tx_buffer::TxChunkState;

verus! {

/// A piece of the stream, the offset of its first byte, and how far it got.
#[verifier::ext_equal]
pub struct Chunk {
    pub offset: nat,
    pub data: Seq<u8>,
    pub state: TxChunkState,
}

/// The chunks of a stream in the order in which they were enqueued, and the
/// offset at which the next one goes.
#[verifier::ext_equal]
pub struct TxState {
    pub offset: nat,
    pub chunks: Seq<Chunk>,
}

impl TxState {
    /// A stream on which nothing was enqueued.
    pub open spec fn empty() -> Self {
        TxState { offset: 0, chunks: Seq::empty() }
    }

    /// Where the chunk with index `i` starts, or where the next chunk goes.
    pub open spec fn start(self, i: int) -> nat {
        if i < self.chunks.len() {
            self.chunks[i].offset
        } else {
            self.offset
        }
    }

    /// The chunk with index `i` ends at `o`.
    pub open spec fn ends_at(self, i: int, o: nat) -> bool {
        self.chunks[i].offset + self.chunks[i].data.len() == o
    }

    /// The first chunk starts at zero, each ends where the next one starts, and
    /// the last ends where the next chunk goes.
    pub open spec fn wf(self) -> bool {
        &&& self.start(0) == 0
        &&& forall|i: int|
            0 <= i < self.chunks.len() ==> #[trigger] self.ends_at(i, self.start(i + 1))
    }

    /// The bytes of the first `n` chunks.
    pub open spec fn bytes(self, n: int) -> Seq<u8>
        decreases n,
    {
        if n <= 0 {
            Seq::empty()
        } else {
            self.bytes(n - 1) + self.chunks[n - 1].data
        }
    }

    /// All bytes that were enqueued.
    pub open spec fn stream(self) -> Seq<u8> {
        self.bytes(self.chunks.len() as int)
    }

    /// Some chunk has bytes.
    pub open spec fn data_ready(self) -> bool {
        exists|i: int| 0 <= i < self.chunks.len() && (#[trigger] self.chunks[i]).data.len() != 0
    }

    /// `i` is the first chunk that is in `state`.
    pub open spec fn is_first(self, state: TxChunkState, i: int) -> bool {
        &&& 0 <= i < self.chunks.len()
        &&& self.chunks[i].state == state
        &&& forall|j: int| 0 <= j < i ==> (#[trigger] self.chunks[j]).state != state
    }

    /// The index of the first chunk that is in `state`.
    pub open spec fn first(self, state: TxChunkState) -> Option<int> {
        if exists|i: int| self.is_first(state, i) {
            Some(choose|i: int| self.is_first(state, i))
        } else {
            None
        }
    }

    /// The chunk that goes out next: one that was not sent yet, or else one
    /// that was lost.
    pub open spec fn pick(self) -> Option<int> {
        match self.first(TxChunkState::Unsent) {
            Some(i) => Some(i),
            None => self.first(TxChunkState::Lost),
        }
    }

    /// The buffer after `data` was enqueued.
    pub open spec fn after_send(self, data: Seq<u8>) -> Self {
        TxState {
            offset: self.offset + data.len(),
            chunks: self.chunks.push(
                Chunk { offset: self.offset, data, state: TxChunkState::Unsent },
            ),
        }
    }

    /// The buffer after the chunk with index `i` went out at `now`.
    pub open spec fn after_sent(self, i: int, now: u64) -> Self {
        TxState {
            offset: self.offset,
            chunks: self.chunks.update(
                i,
                Chunk { state: TxChunkState::Sent(now), ..self.chunks[i] },
            ),
        }
    }

    /// The buffer after the next chunk, if there is one, went out at `now`.
    pub open spec fn after_next(self, now: u64) -> Self {
        match self.pick() {
            Some(i) => self.after_sent(i, now),
            None => self,
        }
    }

    /// There is a first chunk in a state, unless none is in it.
    pub proof fn lemma_first(self, state: TxChunkState)
        ensures
            match self.first(state) {
                Some(i) => self.is_first(state, i),
                None => forall|i: int|
                    0 <= i < self.chunks.len() ==> (#[trigger] self.chunks[i]).state != state,
            },
    {
        if self.first(state) is None {
            assert forall|i: int| 0 <= i < self.chunks.len() implies (#[trigger] self.chunks[i]).state
                != state by {
                self.lemma_not_first(state, i);
            }
        }
    }

    proof fn lemma_not_first(self, state: TxChunkState, i: int)
        requires
            0 <= i < self.chunks.len(),
            forall|k: int| !self.is_first(state, k),
        ensures
            forall|j: int| 0 <= j <= i ==> (#[trigger] self.chunks[j]).state != state,
        decreases i,
    {
        if i > 0 {
            self.lemma_not_first(state, i - 1);
        }
        assert(!self.is_first(state, i));
    }
}

} // verus!
