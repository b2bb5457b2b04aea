//! A stream with both sides.
use vstd::prelude::*;

use crate::error::Res;
use crate::recv_state::{RecvState, RX_STREAM_DATA_WINDOW};
use crate::recv_stream::{RecvStream, Recvable};
use crate::send_stream::{SendStream, Sendable};
use crate::tx_state::TxState;

verus! {

/// A stream that is sent on and received on. The two sides do not touch each
/// other.
#[derive(Debug)]
pub struct BidiStream {
    pub tx: SendStream,
    pub rx: RecvStream,
}

impl Default for BidiStream {
    fn default() -> (res: Self)
        ensures
            res.tx.max_stream_data == 0,
            res.send_state().wf(),
            res.send_state() == TxState::empty(),
            res.recv_state().wf(),
            res.recv_state() == RecvState::initial(0),
    {
        BidiStream { tx: SendStream::default(), rx: RecvStream::default() }
    }
}

impl BidiStream {
    pub fn new() -> (res: BidiStream)
        ensures
            res.tx.max_stream_data == 0,
            res.send_state().wf(),
            res.send_state() == TxState::empty(),
            res.recv_state().wf(),
            res.recv_state() == RecvState::initial(RX_STREAM_DATA_WINDOW as nat),
    {
        BidiStream { tx: SendStream::new(), rx: RecvStream::new() }
    }
}

impl Recvable for BidiStream {
    open spec fn recv_state(&self) -> RecvState {
        self.rx.recv_state()
    }

    fn read(&mut self, buf: &mut [u8]) -> (res: Res<(u64, bool)>)
        ensures
            final(self).tx == old(self).tx,
    {
        self.rx.read(buf)
    }

    fn recv_data_ready(&self) -> (res: bool) {
        self.rx.recv_data_ready()
    }

    fn inbound_stream_frame(&mut self, fin: bool, offset: u64, data: Vec<u8>) -> (res: Res<()>)
        ensures
            final(self).tx == old(self).tx,
    {
        self.rx.inbound_stream_frame(fin, offset, data)
    }

    fn needs_flowc_update(&mut self) -> (res: Option<u64>)
        ensures
            final(self).tx == old(self).tx,
    {
        self.rx.needs_flowc_update()
    }

    fn close(&mut self)
        ensures
            final(self).tx == old(self).tx,
    {
        self.rx.close()
    }
}

impl Sendable for BidiStream {
    open spec fn send_state(&self) -> TxState {
        self.tx.send_state()
    }

    fn send(&mut self, buf: &[u8]) -> (res: u64)
        ensures
            final(self).rx == old(self).rx,
            final(self).tx.max_stream_data == old(self).tx.max_stream_data,
    {
        self.tx.send(buf)
    }

    fn send_data_ready(&self) -> (res: bool) {
        self.tx.send_data_ready()
    }
}

} // verus!
