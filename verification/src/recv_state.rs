//! The mathematical model of the receiving side of a stream.
use vstd::prelude::*;

use crate::rx_state::RxState;

verus! {

/// How far past the read position the sender may send.
pub const RX_STREAM_DATA_WINDOW: u64 = 0xFFFF;

/// A receive buffer, the size of the stream once it is known, and the offset up
/// to which the sender was allowed to send.
#[verifier::ext_equal]
pub struct RecvState {
    pub final_size: Option<u64>,
    pub rx_window: nat,
    pub rx: RxState,
}

impl RecvState {
    /// Nothing is held past the end of the stream, and the sender was allowed
    /// no more than one window past the read position.
    pub open spec fn wf(self) -> bool {
        &&& self.rx.wf()
        &&& self.final_size matches Some(size) ==> forall|k: u64| #[trigger]
            self.rx.ranges.contains_key(k) ==> self.rx.end(k) <= size
        &&& self.rx_window <= self.rx.retired + RX_STREAM_DATA_WINDOW
    }

    /// A stream on which nothing was received, of which the sender may send the
    /// first `window` bytes.
    pub open spec fn initial(window: nat) -> Self {
        RecvState { final_size: None, rx_window: window, rx: RxState::empty() }
    }

    /// The stream has been read to its end.
    pub open spec fn at_end(self) -> bool {
        self.final_size matches Some(size) && size == self.rx.retired
    }

    /// A frame of `len` bytes at offset `start` contradicts the size of the
    /// stream: it reaches past a known end, or it carries the end and puts it
    /// elsewhere or below what was seen.
    pub open spec fn rejects(self, fin: bool, start: u64, len: nat) -> bool {
        match self.final_size {
            Some(size) => start + len > size || (fin && start + len != size),
            None => fin && start + len < self.rx.highest(),
        }
    }

    /// The stream after a frame. `fin` says that the stream ends with it.
    pub open spec fn after_frame(self, fin: bool, start: u64, data: Seq<u8>) -> Self {
        if self.rejects(fin, start, data.len()) {
            self
        } else {
            RecvState {
                final_size: if fin {
                    Some((start + data.len()) as u64)
                } else {
                    self.final_size
                },
                rx_window: self.rx_window,
                rx: self.rx.after_frame(start, data),
            }
        }
    }

    /// The stream after `n` bytes have been read.
    pub open spec fn after_read(self, n: nat) -> Self {
        RecvState {
            final_size: self.final_size,
            rx_window: self.rx_window,
            rx: self.rx.after_read(n),
        }
    }

    /// The offset that is one window past the read position.
    pub open spec fn new_window(self) -> nat {
        self.rx.retired + RX_STREAM_DATA_WINDOW as nat
    }

    /// The sender should be told that it may send more: the stream goes on, and
    /// over half of the window has been read.
    pub open spec fn wants_update(self) -> bool {
        self.final_size is None && self.new_window() > RX_STREAM_DATA_WINDOW / 2 + self.rx_window
    }

    /// The stream after the sender was told, if it should be.
    pub open spec fn after_update(self) -> Self {
        if self.wants_update() {
            RecvState { rx_window: self.new_window(), ..self }
        } else {
            self
        }
    }

    /// A frame leaves a well-formed stream well-formed.
    pub proof fn lemma_frame_wf(self, fin: bool, start: u64, data: Seq<u8>)
        requires
            self.wf(),
            start + data.len() <= u64::MAX,
        ensures
            self.after_frame(fin, start, data).wf(),
    {
        if !self.rejects(fin, start, data.len()) {
            self.rx.lemma_frame_wf(start, data);
            self.rx.lemma_prev(start);
            self.rx.lemma_next(start);
            self.rx.lemma_highest();
            let t = self.after_frame(fin, start, data);
            assert forall|k: u64| #[trigger] t.rx.ranges.contains_key(k) && k != start implies {
                &&& self.rx.ranges.contains_key(k)
                &&& t.rx.end(k) <= self.rx.end(k)
            } by {}
            if let Some(size) = t.final_size {
                assert forall|k: u64| #[trigger] t.rx.ranges.contains_key(k) implies t.rx.end(k)
                    <= size by {
                    if k != start {
                        assert(self.rx.ranges.contains_key(k));
                    }
                    if self.final_size is None {
                        if let Some(last) = self.rx.prev(u64::MAX) {
                            assert(self.rx.ranges.contains_key(k) ==> k <= last);
                        }
                    }
                }
            }
        }
    }

    /// Reading leaves a well-formed stream well-formed.
    pub proof fn lemma_read_wf(self, n: nat)
        requires
            self.wf(),
            n <= self.rx.available(),
        ensures
            self.after_read(n).wf(),
    {
        self.rx.lemma_read_wf(n);
        assert forall|k: u64| #[trigger]
            self.after_read(n).rx.ranges.contains_key(k) implies self.rx.ranges.contains_key(k) by {}
    }
}

} // verus!
