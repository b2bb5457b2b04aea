//! The streams of a transport connection: bytes that were received in frames in
//! any order and are read in order, and bytes that are enqueued and sent.
pub mod bidi_stream;
pub mod connection;
pub mod error;
pub mod recv_laws;
pub mod recv_state;
pub mod recv_stream;
pub mod rx_laws;
pub mod rx_orderer;
pub mod rx_state;
pub mod send_stream;
pub mod tx_buffer;
pub mod tx_laws;
pub mod tx_state;

pub use bidi_stream::BidiStream;
pub use connection::TxMode;
pub use error::{Error, Res};
pub use recv_state::RX_STREAM_DATA_WINDOW;
pub use recv_stream::{RecvStream, Recvable};
pub use rx_orderer::RxStreamOrderer;
pub use send_stream::{SendStream, Sendable};
pub use tx_buffer::{TxBuffer, TxChunk, TxChunkState};
