use neqo_transport::{BidiStream, Recvable, RX_STREAM_DATA_WINDOW};

#[test]
fn test_stream_rx() {
    let mut s = BidiStream::new();

    // test receiving a contig frame and reading it works
    s.inbound_stream_frame(false, 0, vec![1; 10]).unwrap();
    assert_eq!(s.recv_data_ready(), true);
    let mut buf = vec![0u8; 100];
    assert_eq!(s.read(&mut buf).unwrap(), (10, false));
    assert_eq!(s.rx.rx_orderer.retired(), 10);
    assert_eq!(s.rx.rx_orderer.buffered(), 0);

    // test receiving a noncontig frame
    s.inbound_stream_frame(false, 12, vec![2; 12]).unwrap();
    assert_eq!(s.recv_data_ready(), false);
    assert_eq!(s.read(&mut buf).unwrap(), (0, false));
    assert_eq!(s.rx.rx_orderer.retired(), 10);
    assert_eq!(s.rx.rx_orderer.buffered(), 12);

    // another frame that overlaps the first
    s.inbound_stream_frame(false, 14, vec![3; 8]).unwrap();
    assert_eq!(s.recv_data_ready(), false);
    assert_eq!(s.rx.rx_orderer.retired(), 10);
    assert_eq!(s.rx.rx_orderer.buffered(), 12);

    // fill in the gap, but with a FIN
    s.inbound_stream_frame(true, 10, vec![4; 6]).unwrap_err();
    assert_eq!(s.recv_data_ready(), false);
    assert_eq!(s.read(&mut buf).unwrap(), (0, false));
    assert_eq!(s.rx.rx_orderer.retired(), 10);
    assert_eq!(s.rx.rx_orderer.buffered(), 12);

    // fill in the gap
    s.inbound_stream_frame(false, 10, vec![5; 10]).unwrap();
    assert_eq!(s.recv_data_ready(), true);
    assert_eq!(s.rx.rx_orderer.retired(), 10);
    assert_eq!(s.rx.rx_orderer.buffered(), 14);

    // a legit FIN
    s.inbound_stream_frame(true, 24, vec![6; 18]).unwrap();
    assert_eq!(s.rx.rx_orderer.retired(), 10);
    assert_eq!(s.rx.rx_orderer.buffered(), 32);
    assert_eq!(s.recv_data_ready(), true);
    assert_eq!(s.read(&mut buf).unwrap(), (32, true));
    assert_eq!(s.read(&mut buf).unwrap(), (0, true));
}

#[test]
fn test_stream_flowc_update() {
    let frame1 = vec![0; RX_STREAM_DATA_WINDOW as usize];

    let mut s = BidiStream::new();

    let mut buf = vec![0u8; RX_STREAM_DATA_WINDOW as usize * 4]; // Make it overlarge

    assert_eq!(s.needs_flowc_update(), None);
    s.inbound_stream_frame(false, 0, frame1).unwrap();
    assert_eq!(s.needs_flowc_update(), None);
    assert_eq!(s.read(&mut buf).unwrap(), (RX_STREAM_DATA_WINDOW, false));
    assert_eq!(s.recv_data_ready(), false);
    assert_eq!(s.needs_flowc_update(), Some(RX_STREAM_DATA_WINDOW * 2));
    assert_eq!(s.needs_flowc_update(), None);
}
