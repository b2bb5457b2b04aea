use neqo_transport::{Error, RecvStream, Recvable, RX_STREAM_DATA_WINDOW};

#[test]
fn new_and_default_differ_in_the_window() {
    let a = RecvStream::new();
    assert_eq!(a.final_size, None);
    assert_eq!(a.rx_window, 0xFFFF);
    let b = RecvStream::default();
    assert_eq!(b.rx_window, 0);
    assert_ne!(a, b);
}

#[test]
fn frame_past_the_end_is_rejected() {
    let mut s = RecvStream::new();
    s.inbound_stream_frame(true, 0, vec![1; 10]).unwrap();
    assert_eq!(s.final_size, Some(10));
    assert_eq!(s.inbound_stream_frame(false, 5, vec![2; 6]), Err(Error::ErrFinalSizeError));
    assert_eq!(s.inbound_stream_frame(false, 5, vec![2; 5]), Ok(()));
    assert_eq!(s.final_size, Some(10));
}

#[test]
fn end_cannot_move() {
    let mut s = RecvStream::new();
    s.inbound_stream_frame(true, 0, vec![1; 10]).unwrap();
    assert_eq!(s.inbound_stream_frame(true, 0, vec![1; 9]), Err(Error::ErrFinalSizeError));
    assert_eq!(s.inbound_stream_frame(true, 0, vec![1; 11]), Err(Error::ErrFinalSizeError));
    assert_eq!(s.inbound_stream_frame(true, 10, vec![]), Ok(()));
    assert_eq!(s.final_size, Some(10));
}

#[test]
fn end_below_what_was_seen_is_rejected() {
    let mut s = RecvStream::new();
    let mut t = RecvStream::new();
    for s in [&mut s, &mut t] {
        s.inbound_stream_frame(false, 5, vec![1; 10]).unwrap();
    }
    assert_eq!(s.inbound_stream_frame(true, 0, vec![2; 14]), Err(Error::ErrFinalSizeError));
    assert_eq!(s, t);
    assert_eq!(s.inbound_stream_frame(true, 0, vec![2; 15]), Ok(()));
    assert_eq!(s.final_size, Some(15));
}

#[test]
fn end_without_data() {
    let mut s = RecvStream::new();
    let mut buf = [0u8; 4];
    s.inbound_stream_frame(false, 0, vec![7; 3]).unwrap();
    assert_eq!(s.read(&mut buf).unwrap(), (3, false));
    assert_eq!(buf, [7, 7, 7, 0]);
    s.inbound_stream_frame(true, 3, vec![]).unwrap();
    assert!(!s.recv_data_ready());
    assert_eq!(s.read(&mut buf).unwrap(), (0, true));
    assert_eq!(s.read(&mut buf).unwrap(), (0, true));
    assert!(!s.recv_data_ready());
}

#[test]
fn end_comes_before_the_data() {
    let mut s = RecvStream::new();
    let mut buf = [0u8; 8];
    s.inbound_stream_frame(true, 4, vec![2; 4]).unwrap();
    assert_eq!(s.read(&mut buf).unwrap(), (0, false));
    s.inbound_stream_frame(false, 0, vec![1; 4]).unwrap();
    let mut part = [0u8; 6];
    assert_eq!(s.read(&mut part).unwrap(), (6, false));
    assert_eq!(part, [1, 1, 1, 1, 2, 2]);
    assert_eq!(s.read(&mut buf).unwrap(), (2, true));
}

#[test]
fn sender_is_told_after_half_a_window() {
    let mut s = RecvStream::new();
    let half = (RX_STREAM_DATA_WINDOW / 2) as usize;
    let mut buf = vec![0u8; half];
    s.inbound_stream_frame(false, 0, vec![1; half + 1]).unwrap();
    assert_eq!(s.read(&mut buf).unwrap(), (0x7FFF, false));
    assert_eq!(s.needs_flowc_update(), None);
    assert_eq!(s.read(&mut buf).unwrap(), (1, false));
    assert_eq!(s.needs_flowc_update(), Some(0x8000 + 0xFFFF));
    assert_eq!(s.rx_window, 0x8000 + 0xFFFF);
    assert_eq!(s.needs_flowc_update(), None);
}

#[test]
fn sender_is_not_told_once_the_size_is_known() {
    let mut s = RecvStream::new();
    let n = RX_STREAM_DATA_WINDOW as usize;
    let mut buf = vec![0u8; n];
    s.inbound_stream_frame(true, 0, vec![1; n]).unwrap();
    assert_eq!(s.read(&mut buf).unwrap(), (RX_STREAM_DATA_WINDOW, true));
    assert_eq!(s.needs_flowc_update(), None);
    assert_eq!(s.rx_window, RX_STREAM_DATA_WINDOW);
}

#[test]
fn close_keeps_what_was_received() {
    let mut s = RecvStream::new();
    let mut t = RecvStream::new();
    s.inbound_stream_frame(false, 0, vec![1; 3]).unwrap();
    t.inbound_stream_frame(false, 0, vec![1; 3]).unwrap();
    s.close();
    assert_eq!(s, t);
}

#[test]
fn frames_after_the_end_change_no_read() {
    let mut s = RecvStream::new();
    let mut buf = [0u8; 8];
    s.inbound_stream_frame(true, 0, vec![1; 6]).unwrap();
    assert_eq!(s.read(&mut buf).unwrap(), (6, true));
    assert_eq!(s.inbound_stream_frame(true, 2, vec![2; 4]), Ok(()));
    assert_eq!(s.inbound_stream_frame(false, 6, vec![2; 1]), Err(Error::ErrFinalSizeError));
    assert_eq!(s.rx_orderer.buffered(), 0);
    assert_eq!(s.read(&mut buf).unwrap(), (0, true));
}

#[test]
fn refused_end_leaves_the_stream_open() {
    let mut s = RecvStream::new();
    let mut buf = [0u8; 8];
    s.inbound_stream_frame(false, 0, vec![1; 6]).unwrap();
    assert_eq!(s.read(&mut buf).unwrap(), (6, false));
    assert_eq!(s.inbound_stream_frame(true, 0, vec![1; 5]), Err(Error::ErrFinalSizeError));
    assert_eq!(s.final_size, None);
    s.inbound_stream_frame(false, 6, vec![2; 1]).unwrap();
    assert_eq!(s.read(&mut buf).unwrap(), (1, false));
}

#[test]
fn ready_means_that_bytes_can_be_read() {
    let mut s = RecvStream::new();
    let mut buf = [0u8; 20];
    assert!(!s.recv_data_ready());
    s.inbound_stream_frame(false, 0, vec![1; 10]).unwrap();
    assert!(s.recv_data_ready());
    assert_eq!(s.read(&mut buf).unwrap(), (10, false));
    assert!(!s.recv_data_ready());

    // Nothing new.
    s.inbound_stream_frame(false, 0, vec![1; 10]).unwrap();
    assert!(!s.recv_data_ready());
    s.inbound_stream_frame(false, 10, vec![]).unwrap();
    assert!(!s.recv_data_ready());
    assert_eq!(s.read(&mut buf).unwrap(), (0, false));

    // Past a gap.
    s.inbound_stream_frame(false, 11, vec![2; 4]).unwrap();
    assert!(!s.recv_data_ready());

    // One byte that fills the gap, behind bytes that were read.
    s.inbound_stream_frame(false, 0, vec![1; 11]).unwrap();
    assert!(s.recv_data_ready());
    assert_eq!(s.read(&mut buf[..1]).unwrap(), (1, false));
    assert!(s.recv_data_ready());
    assert_eq!(s.read(&mut buf).unwrap(), (4, false));
    assert!(!s.recv_data_ready());
}

#[test]
fn disjoint_frames_in_any_order_are_read_back_whole() {
    let stream: Vec<u8> = (0..30).collect();
    let cuts = [(0usize, 7usize), (7, 12), (12, 13), (13, 30)];
    for order in [[3, 2, 1, 0], [0, 2, 1, 3], [2, 0, 3, 1], [1, 3, 0, 2]] {
        let mut s = RecvStream::new();
        for i in order {
            let (from, to) = cuts[i];
            for _ in 0..2 {
                s.inbound_stream_frame(to == 30, from as u64, stream[from..to].to_vec()).unwrap();
            }
        }
        let mut buf = [0u8; 40];
        assert_eq!(s.read(&mut buf).unwrap(), (30, true));
        assert_eq!(buf[..30], stream[..]);
    }
}
