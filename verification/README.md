# Streams

The streams of a transport connection. A stream is received in frames that come
in any order, more than once and with overlaps, and is read in order. What is
sent on a stream is enqueued in chunks, which go out one at a time.

| module | what it has |
| --- | --- |
| `rx_orderer` | `RxStreamOrderer`, which puts received frames in order |
| `recv_stream` | `Recvable` and `RecvStream`, which add the end of the stream and flow control |
| `tx_buffer` | `TxBuffer`, the bytes to send |
| `send_stream` | `Sendable` and `SendStream` |
| `bidi_stream` | `BidiStream`, a stream with both sides |
| `rx_state`, `recv_state`, `tx_state` | the mathematical models that the contracts speak of |
| `rx_laws`, `recv_laws`, `tx_laws` | what holds over several calls |

The main laws are in `recv_laws`. `law_stream_received`: whatever frames of a
stream come in, what the reads give is the beginning of the stream, and all of it
once a read reports the end. `law_frames_read_back`: frames that fit together and
have all bytes of a stream are read back whole.
