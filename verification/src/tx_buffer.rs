//! The bytes that a stream has to send.
use vstd::prelude::*;

use crate::connection::TxMode;
use crate::tx_state::Chunk;
use crate::tx_state::TxState;

verus! {

/// How far a chunk got.
#[derive(Debug, Clone, Copy, PartialEq, Eq, Structural)]
pub enum TxChunkState {
    Unsent,
    /// Sent, with the time at which that was.
    Sent(u64),
    Lost,
}

/// Bytes that were enqueued together.
#[derive(Debug)]
pub struct TxChunk {
    pub offset: u64,
    pub data: Vec<u8>,
    pub state: TxChunkState,
}

impl View for TxChunk {
    type V = Chunk;

    open spec fn view(&self) -> Chunk {
        Chunk { offset: self.offset as nat, data: self.data@, state: self.state }
    }
}

impl TxChunk {
    pub fn len(&self) -> (len: usize)
        ensures
            len == self@.data.len(),
    {
        self.data.len()
    }
}

/// The chunks of a stream, in the order in which they were enqueued.
#[derive(Debug)]
pub struct TxBuffer {
    pub offset: u64,
    pub chunks: Vec<TxChunk>,
}

impl View for TxBuffer {
    type V = TxState;

    open spec fn view(&self) -> TxState {
        TxState {
            offset: self.offset as nat,
            chunks: self.chunks@.map_values(|chunk: TxChunk| chunk@),
        }
    }
}

impl Default for TxBuffer {
    fn default() -> (res: Self)
        ensures
            res@.wf(),
            res@ == TxState::empty(),
    {
        let res = TxBuffer { offset: 0, chunks: Vec::new() };
        assert(res@ =~= TxState::empty());
        res
    }
}

impl TxBuffer {
    /// Enqueues a copy of `buf`. Returns its length.
    pub fn send(&mut self, buf: &[u8]) -> (len: u64)
        requires
            old(self).offset + buf@.len() <= u64::MAX,
        ensures
            len == buf@.len(),
            final(self)@ == old(self)@.after_send(buf@),
            final(self).offset == old(self).offset + buf@.len(),
            final(self).chunks@.len() == old(self).chunks@.len() + 1,
            final(self).chunks@.last().offset == old(self).offset,
            final(self).chunks@.last().data@ == buf@,
            final(self).chunks@.last().state == TxChunkState::Unsent,
            forall|i: int|
                0 <= i < old(self).chunks@.len() ==> #[trigger] final(self).chunks@[i]
                    == old(self).chunks@[i],
            old(self)@.wf() ==> final(self)@.wf(),
    {
        let ghost before = self@;
        proof {
            if before.wf() {
                crate::tx_laws::law_send_wf(before, buf@);
            }
        }
        let len = buf.len() as u64;
        self.chunks.push(
            TxChunk {
                offset: self.offset,
                data: vstd::slice::slice_to_vec(buf),
                state: TxChunkState::Unsent,
            },
        );
        self.offset = self.offset + len;
        assert(self@.chunks =~= before.after_send(buf@).chunks);
        len
    }

    fn find_first_chunk_by_state(&self, state: TxChunkState) -> (res: Option<usize>)
        ensures
            match res {
                Some(i) => self@.first(state) == Some(i as int),
                None => self@.first(state) is None,
            },
    {
        proof {
            self@.lemma_first(state);
        }
        for i in 0..self.chunks.len()
            invariant
                forall|j: int| 0 <= j < i ==> (#[trigger] self@.chunks[j]).state != state,
        {
            assert(self@.chunks[i as int].state == self.chunks@[i as int].state);
            if self.chunks[i].state == state {
                assert(self@.is_first(state, i as int));
                return Some(i);
            }
        }
        None
    }

    /// The bytes that go out next, and their offset in the stream. They count
    /// as sent at `now`.
    pub fn next_bytes(&mut self, _mode: TxMode, now: u64, l: usize) -> (res: Option<(u64, &[u8])>)
        requires
            old(self)@.pick() matches Some(i) ==> old(self)@.chunks[i].data.len() <= l,
        ensures
            match old(self)@.pick() {
                Some(i) => res matches Some((offset, data)) && offset
                    == old(self)@.chunks[i].offset && data@ == old(self)@.chunks[i].data,
                None => res is None,
            },
            final(self)@ == old(self)@.after_next(now),
            res is None ==> final(self).chunks@ == old(self).chunks@,
            final(self).offset == old(self).offset,
            old(self)@.wf() ==> final(self)@.wf(),
    {
        let ghost before = self@;
        proof {
            if before.wf() {
                crate::tx_laws::law_next_wf(before, now);
            }
            before.lemma_first(TxChunkState::Unsent);
            before.lemma_first(TxChunkState::Lost);
        }
        // First try to find some unsent stuff.
        if let Some(i) = self.find_first_chunk_by_state(TxChunkState::Unsent) {
            self.chunks[i].state = TxChunkState::Sent(now);
            assert(self@.chunks =~= before.after_next(now).chunks);
            let c = &self.chunks[i];
            return Some((c.offset, c.data.as_slice()));
        }
        // How about some lost stuff.
        if let Some(i) = self.find_first_chunk_by_state(TxChunkState::Lost) {
            self.chunks[i].state = TxChunkState::Sent(now);
            assert(self@.chunks =~= before.after_next(now).chunks);
            let c = &self.chunks[i];
            return Some((c.offset, c.data.as_slice()));
        }
        None
    }

    /// Whether some chunk has bytes.
    pub fn data_ready(&self) -> (res: bool)
        ensures
            res == self@.data_ready(),
    {
        for i in 0..self.chunks.len()
            invariant
                forall|j: int| 0 <= j < i ==> (#[trigger] self@.chunks[j]).data.len() == 0,
        {
            assert(self@.chunks[i as int] == self.chunks@[i as int]@);
            if self.chunks[i].len() != 0 {
                return true;
            }
        }
        false
    }
}

} // verus!
