use neqo_transport::{
    BidiStream, RecvStream, Recvable, SendStream, Sendable, TxBuffer, TxChunk, TxChunkState, TxMode,
};

#[test]
fn chunks_are_contiguous() {
    let mut t = TxBuffer::default();
    assert!(!t.data_ready());
    assert_eq!(t.send(&[1, 2, 3]), 3);
    assert_eq!(t.send(&[]), 0);
    assert_eq!(t.send(&[4, 5]), 2);
    assert_eq!(t.offset, 5);
    assert_eq!(t.chunks.len(), 3);
    assert_eq!(t.chunks[0].offset, 0);
    assert_eq!(t.chunks[1].offset, 3);
    assert_eq!(t.chunks[2].offset, 3);
    assert_eq!(t.chunks[2].len(), 2);
    assert_eq!(t.chunks[2].state, TxChunkState::Unsent);
    assert!(t.data_ready());
}

#[test]
fn chunks_go_out_in_order_and_once() {
    let mut t = TxBuffer::default();
    t.send(&[1, 2, 3]);
    t.send(&[4, 5]);
    assert_eq!(t.next_bytes(TxMode::Normal, 7, 3), Some((0, &[1u8, 2, 3][..])));
    assert_eq!(t.chunks[0].state, TxChunkState::Sent(7));
    assert_eq!(t.chunks[1].state, TxChunkState::Unsent);
    assert_eq!(t.next_bytes(TxMode::Pto, 8, 10), Some((3, &[4u8, 5][..])));
    assert_eq!(t.chunks[1].state, TxChunkState::Sent(8));
    assert_eq!(t.next_bytes(TxMode::Normal, 9, 10), None);
    assert!(t.data_ready());
    t.send(&[6]);
    assert_eq!(t.next_bytes(TxMode::Normal, 10, 10), Some((5, &[6u8][..])));
}

#[test]
fn lost_chunks_go_out_after_unsent_ones() {
    let chunk = |offset: u64, byte: u8, state: TxChunkState| TxChunk {
        offset,
        data: vec![byte],
        state,
    };
    let mut t = TxBuffer {
        offset: 4,
        chunks: vec![
            chunk(0, 1, TxChunkState::Sent(1)),
            chunk(1, 2, TxChunkState::Lost),
            chunk(2, 3, TxChunkState::Unsent),
            chunk(3, 4, TxChunkState::Lost),
        ],
    };
    assert_eq!(t.next_bytes(TxMode::Normal, 5, 1), Some((2, &[3u8][..])));
    assert_eq!(t.next_bytes(TxMode::Normal, 6, 1), Some((1, &[2u8][..])));
    assert_eq!(t.next_bytes(TxMode::Normal, 7, 1), Some((3, &[4u8][..])));
    assert_eq!(t.next_bytes(TxMode::Normal, 8, 1), None);
    assert_eq!(t.chunks[0].state, TxChunkState::Sent(1));
    assert_eq!(t.chunks[1].state, TxChunkState::Sent(6));
    assert_eq!(t.chunks[2].state, TxChunkState::Sent(5));
    assert_eq!(t.chunks[3].state, TxChunkState::Sent(7));
}

#[test]
fn empty_chunk_is_no_data() {
    let mut s = SendStream::new();
    assert_eq!(s.max_stream_data, 0);
    assert!(!s.send_data_ready());
    assert_eq!(s.send(&[]), 0);
    assert!(!s.send_data_ready());
    assert_eq!(s.send(&[1]), 1);
    assert!(s.send_data_ready());
    assert!(!SendStream::default().send_data_ready());
}

#[test]
fn sides_do_not_touch() {
    let mut s = BidiStream::new();
    assert_eq!(s.send(&[1, 2]), 2);
    assert!(s.send_data_ready());
    assert!(!s.recv_data_ready());
    s.inbound_stream_frame(false, 0, vec![9; 4]).unwrap();
    s.close();
    assert_eq!(s.tx.tx_buffer.offset, 2);
    let mut buf = [0u8; 4];
    assert_eq!(s.read(&mut buf).unwrap(), (4, false));
    assert_eq!(buf, [9; 4]);
    let mut d = BidiStream::default();
    assert_eq!(d.rx.rx_window, 0);
    assert_eq!(d.needs_flowc_update(), Some(0xFFFF));
}

#[test]
fn chunks_in_any_order_give_the_stream() {
    let mut t = TxBuffer::default();
    t.send(&[1, 2, 3]);
    t.send(&[4, 5]);
    t.send(&[6, 7, 8, 9]);
    let mut frames: Vec<(u64, Vec<u8>)> = Vec::new();
    while let Some((offset, data)) = t.next_bytes(TxMode::Normal, 0, 100) {
        frames.push((offset, data.to_vec()));
    }
    assert_eq!(frames.len(), 3);
    for order in [[0, 1, 2], [2, 1, 0], [1, 2, 0], [1, 0, 2]] {
        let mut r = RecvStream::new();
        let mut out: Vec<u8> = Vec::new();
        let mut end = false;
        for i in order {
            let (offset, data) = frames[i].clone();
            r.inbound_stream_frame(i == 2, offset, data).unwrap();
            let mut buf = [0u8; 100];
            let (n, fin) = r.read(&mut buf).unwrap();
            out.extend_from_slice(&buf[..n as usize]);
            end = fin;
        }
        assert!(end);
        assert_eq!(out, vec![1, 2, 3, 4, 5, 6, 7, 8, 9]);
    }
}
