//! The receiving side of a stream.
use std::fmt::Debug;

use vstd::prelude::*;

use crate::error::{Error, Res};
use crate::recv_state::{RecvState, RX_STREAM_DATA_WINDOW};
use crate::rx_orderer::RxStreamOrderer;

verus! {

/// A stream that can be received on.
pub trait Recvable: Debug {
    /// What has been received and read.
    spec fn recv_state(&self) -> RecvState;

    /// Read buffered data from stream. bool says whether is final data on
    /// stream.
    fn read(&mut self, buf: &mut [u8]) -> (res: Res<(u64, bool)>)
        requires
            old(self).recv_state().wf(),
        ensures
            final(self).recv_state().wf(),
            res matches Ok((n, fin)) && n == old(self).recv_state().rx.read_len(old(buf)@.len())
                && fin == old(self).recv_state().after_read(n as nat).at_end(),
            final(self).recv_state() == old(self).recv_state().after_read(
                old(self).recv_state().rx.read_len(old(buf)@.len()),
            ),
            final(buf)@ == old(self).recv_state().rx.front(
                old(self).recv_state().rx.read_len(old(buf)@.len()),
            ) + old(buf)@.skip(old(self).recv_state().rx.read_len(old(buf)@.len()) as int),
            res matches Ok((n, fin)) && final(self).recv_state().rx.retired
                == old(self).recv_state().rx.retired + n && fin == (
            final(self).recv_state().final_size matches Some(size) && size
                == final(self).recv_state().rx.retired),
    ;

    /// Whether there are bytes that can be read from the stream.
    fn recv_data_ready(&self) -> (res: bool)
        requires
            self.recv_state().wf(),
        ensures
            res == (self.recv_state().rx.available() > 0),
    ;

    /// Handle a received stream data frame.
    fn inbound_stream_frame(&mut self, fin: bool, offset: u64, data: Vec<u8>) -> (res: Res<()>)
        requires
            old(self).recv_state().wf(),
            offset + data@.len() <= u64::MAX,
            old(self).recv_state().rejects(fin, offset, data@.len()) || offset < u64::MAX,
        ensures
            final(self).recv_state().wf(),
            res == if old(self).recv_state().rejects(fin, offset, data@.len()) {
                Err::<(), Error>(Error::ErrFinalSizeError)
            } else {
                Ok::<(), Error>(())
            },
            final(self).recv_state() == old(self).recv_state().after_frame(fin, offset, data@),
            res is Err ==> final(self).recv_state() == old(self).recv_state(),
            res is Ok ==> final(self).recv_state().rx == old(self).recv_state().rx.after_frame(
                offset,
                data@,
            ),
            old(self).recv_state().final_size matches Some(size) ==> (res is Err <==> (offset
                + data@.len() > size || (fin && offset + data@.len() != size))),
            res is Ok && fin ==> (final(self).recv_state().final_size matches Some(size) && size
                == offset + data@.len()),
    ;

    /// Maybe returns what should be communicated to the sender as the new max
    /// stream offset.
    fn needs_flowc_update(&mut self) -> (res: Option<u64>)
        requires
            old(self).recv_state().wf(),
            old(self).recv_state().new_window() <= u64::MAX,
            old(self).recv_state().final_size is None ==> RX_STREAM_DATA_WINDOW / 2
                + old(self).recv_state().rx_window <= u64::MAX,
        ensures
            final(self).recv_state().wf(),
            res == if old(self).recv_state().wants_update() {
                Some(old(self).recv_state().new_window() as u64)
            } else {
                None::<u64>
            },
            final(self).recv_state() == old(self).recv_state().after_update(),
            res matches Some(offset) ==> offset == old(self).recv_state().rx.retired
                + RX_STREAM_DATA_WINDOW && final(self).recv_state().rx_window == offset,
            res is None ==> final(self).recv_state() == old(self).recv_state(),
    ;

    /// Close the stream.
    fn close(&mut self)
        ensures
            final(self).recv_state() == old(self).recv_state(),
    ;
}

/// A stream that is only received on.
#[derive(Debug, PartialEq)]
pub struct RecvStream {
    pub final_size: Option<u64>,
    pub rx_window: u64,
    pub rx_orderer: RxStreamOrderer,
}

impl View for RecvStream {
    type V = RecvState;

    open spec fn view(&self) -> RecvState {
        RecvState {
            final_size: self.final_size,
            rx_window: self.rx_window as nat,
            rx: self.rx_orderer@,
        }
    }
}

impl Default for RecvStream {
    fn default() -> (res: Self)
        ensures
            res@.wf(),
            res@ == RecvState::initial(0),
    {
        RecvStream { final_size: None, rx_window: 0, rx_orderer: RxStreamOrderer::default() }
    }
}

impl RecvStream {
    pub fn new() -> (res: RecvStream)
        ensures
            res@.wf(),
            res@ == RecvState::initial(RX_STREAM_DATA_WINDOW as nat),
    {
        RecvStream {
            final_size: None,
            rx_window: RX_STREAM_DATA_WINDOW,
            rx_orderer: RxStreamOrderer::new(),
        }
    }
}

impl Recvable for RecvStream {
    open spec fn recv_state(&self) -> RecvState {
        self@
    }

    fn recv_data_ready(&self) -> (res: bool) {
        self.rx_orderer.bytes_ready()
    }

    /// caller has been told data is available on a stream, and they want to
    /// retrieve it.
    fn read(&mut self, buf: &mut [u8]) -> (res: Res<(u64, bool)>) {
        proof {
            self@.lemma_read_wf(self@.rx.read_len(buf@.len()));
        }
        let read_bytes = self.rx_orderer.read(buf)?;
        let fin = match self.final_size {
            Some(final_size) => final_size == self.rx_orderer.retired(),
            None => false,
        };
        Ok((read_bytes, fin))
    }

    fn inbound_stream_frame(&mut self, fin: bool, offset: u64, data: Vec<u8>) -> (res: Res<()>) {
        proof {
            self@.lemma_frame_wf(fin, offset, data@);
        }
        let end = offset + data.len() as u64;
        if let Some(final_size) = self.final_size {
            if end > final_size || (fin && end != final_size) {
                return Err(Error::ErrFinalSizeError);
            }
        }
        if fin && self.final_size.is_none() {
            if end < self.rx_orderer.highest_seen_offset() {
                return Err(Error::ErrFinalSizeError);
            }
            self.final_size = Some(end);
        }
        self.rx_orderer.inbound_frame(offset, data)
    }

    /// If we should tell the sender they have more credit, return an offset
    fn needs_flowc_update(&mut self) -> (res: Option<u64>) {
        let lowater = RX_STREAM_DATA_WINDOW / 2;
        let new_window = self.rx_orderer.retired() + RX_STREAM_DATA_WINDOW;
        if self.final_size.is_none() && new_window > lowater + self.rx_window {
            self.rx_window = new_window;
            Some(new_window)
        } else {
            None
        }
    }

    fn close(&mut self) {
    }
}

} // verus!
