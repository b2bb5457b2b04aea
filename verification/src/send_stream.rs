//! The sending side of a stream.
use std::fmt::Debug;

use vstd::prelude::*;

use crate::tx_buffer::TxBuffer;
use crate::tx_state::TxState;

verus! {

/// A stream that can be sent on.
pub trait Sendable: Debug {
    /// What has been enqueued and sent.
    spec fn send_state(&self) -> TxState;

    /// Send data on the stream. Returns bytes sent.
    fn send(&mut self, buf: &[u8]) -> (res: u64)
        requires
            old(self).send_state().offset + buf@.len() <= u64::MAX,
        ensures
            res == buf@.len(),
            final(self).send_state() == old(self).send_state().after_send(buf@),
            old(self).send_state().wf() ==> final(self).send_state().wf(),
    ;

    /// Whether there are bytes that were enqueued for sending.
    fn send_data_ready(&self) -> (res: bool)
        ensures
            res == self.send_state().data_ready(),
    ;
}

/// A stream that is only sent on.
#[derive(Debug)]
pub struct SendStream {
    pub max_stream_data: u64,
    pub tx_buffer: TxBuffer,
}

impl Default for SendStream {
    fn default() -> (res: Self)
        ensures
            res.max_stream_data == 0,
            res.send_state().wf(),
            res.send_state() == TxState::empty(),
    {
        SendStream { max_stream_data: 0, tx_buffer: TxBuffer::default() }
    }
}

impl SendStream {
    pub fn new() -> (res: SendStream)
        ensures
            res.max_stream_data == 0,
            res.send_state().wf(),
            res.send_state() == TxState::empty(),
    {
        SendStream { max_stream_data: 0, tx_buffer: TxBuffer::default() }
    }
}

impl Sendable for SendStream {
    open spec fn send_state(&self) -> TxState {
        self.tx_buffer@
    }

    /// Enqueue some bytes to send
    fn send(&mut self, buf: &[u8]) -> (res: u64)
        ensures
            final(self).max_stream_data == old(self).max_stream_data,
    {
        self.tx_buffer.send(buf)
    }

    fn send_data_ready(&self) -> (res: bool) {
        self.tx_buffer.data_ready()
    }
}

} // verus!
