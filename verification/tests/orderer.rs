use neqo_transport::RxStreamOrderer;

fn bytes(from: u8, n: u8) -> Vec<u8> {
    (from..from + n).collect()
}

fn read_all(o: &mut RxStreamOrderer) -> Vec<u8> {
    let mut buf = vec![0xAA; 200];
    let n = o.read(&mut buf).unwrap() as usize;
    assert!(buf[n..].iter().all(|b| *b == 0xAA));
    buf.truncate(n);
    buf
}

#[test]
fn new_orderer_is_empty() {
    let o = RxStreamOrderer::new();
    assert_eq!(o, RxStreamOrderer::default());
    assert_eq!(o.retired(), 0);
    assert_eq!(o.buffered(), 0);
    assert_eq!(o.highest_seen_offset(), 0);
    assert!(!o.data_ready());
}

#[test]
fn frame_is_read_back() {
    let mut o = RxStreamOrderer::new();
    o.inbound_frame(0, bytes(1, 5)).unwrap();
    assert_eq!(o.buffered(), 5);
    assert_eq!(read_all(&mut o), bytes(1, 5));
    assert_eq!(o.retired(), 5);
    assert_eq!(read_all(&mut o), vec![]);
    o.inbound_frame(5, bytes(6, 3)).unwrap();
    assert_eq!(read_all(&mut o), bytes(6, 3));
    assert_eq!(o.retired(), 8);
    assert_eq!(o.highest_seen_offset(), 8);
}

#[test]
fn small_buffers_split_a_range() {
    let mut o = RxStreamOrderer::new();
    o.inbound_frame(0, bytes(0, 10)).unwrap();
    o.inbound_frame(10, bytes(10, 4)).unwrap();
    let mut buf = [0u8; 4];
    assert_eq!(o.read(&mut buf).unwrap(), 4);
    assert_eq!(buf, [0, 1, 2, 3]);
    assert_eq!(o.retired(), 4);
    assert_eq!(o.buffered(), 10);
    assert!(o.data_ready());
    let mut buf = [0u8; 8];
    assert_eq!(o.read(&mut buf).unwrap(), 8);
    assert_eq!(buf, [4, 5, 6, 7, 8, 9, 10, 11]);
    let mut none = [0u8; 0];
    assert_eq!(o.read(&mut none).unwrap(), 0);
    assert_eq!(read_all(&mut o), vec![12, 13]);
    assert!(!o.data_ready());
}

#[test]
fn frames_out_of_order() {
    let mut o = RxStreamOrderer::new();
    o.inbound_frame(6, bytes(6, 3)).unwrap();
    assert!(!o.data_ready());
    assert_eq!(o.highest_seen_offset(), 9);
    assert_eq!(read_all(&mut o), vec![]);
    o.inbound_frame(3, bytes(3, 3)).unwrap();
    assert!(!o.data_ready());
    assert_eq!(o.buffered(), 6);
    o.inbound_frame(0, bytes(0, 3)).unwrap();
    assert!(o.data_ready());
    assert_eq!(read_all(&mut o), bytes(0, 9));
}

#[test]
fn previous_range_is_cut_off() {
    // The new frame is shorter than the overlapped range.
    let mut o = RxStreamOrderer::new();
    o.inbound_frame(0, vec![1; 10]).unwrap();
    o.inbound_frame(8, vec![2; 3]).unwrap();
    assert_eq!(o.buffered(), 11);
    assert_eq!(o.highest_seen_offset(), 11);
    assert_eq!(read_all(&mut o), vec![1, 1, 1, 1, 1, 1, 1, 1, 2, 2, 2]);

    // The new frame is longer than the overlapped range.
    let mut o = RxStreamOrderer::new();
    o.inbound_frame(0, vec![1; 4]).unwrap();
    o.inbound_frame(2, vec![2; 6]).unwrap();
    assert_eq!(o.buffered(), 8);
    assert_eq!(read_all(&mut o), vec![1, 1, 2, 2, 2, 2, 2, 2]);

    // Both have the same length.
    let mut o = RxStreamOrderer::new();
    o.inbound_frame(0, vec![1; 6]).unwrap();
    o.inbound_frame(2, vec![2; 6]).unwrap();
    assert_eq!(o.buffered(), 8);
    assert_eq!(read_all(&mut o), vec![1, 1, 2, 2, 2, 2, 2, 2]);
}

#[test]
fn longer_frame_replaces_range_with_same_start() {
    let mut o = RxStreamOrderer::new();
    o.inbound_frame(0, vec![1; 4]).unwrap();
    o.inbound_frame(0, vec![2; 6]).unwrap();
    assert_eq!(o.buffered(), 6);
    assert_eq!(read_all(&mut o), vec![2; 6]);
}

#[test]
fn covered_frame_is_ignored() {
    let mut o = RxStreamOrderer::new();
    o.inbound_frame(0, vec![1; 6]).unwrap();
    o.inbound_frame(0, vec![2; 4]).unwrap();
    o.inbound_frame(2, vec![3; 4]).unwrap();
    o.inbound_frame(3, vec![4; 1]).unwrap();
    assert_eq!(o.buffered(), 6);
    assert_eq!(read_all(&mut o), vec![1; 6]);
}

#[test]
fn next_range_is_kept() {
    let mut o = RxStreamOrderer::new();
    o.inbound_frame(4, vec![1; 4]).unwrap();
    o.inbound_frame(2, vec![2; 4]).unwrap();
    assert_eq!(o.buffered(), 6);
    o.inbound_frame(0, vec![3; 2]).unwrap();
    assert_eq!(read_all(&mut o), vec![3, 3, 2, 2, 1, 1, 1, 1]);
}

#[test]
fn bytes_past_the_start_of_the_next_range_are_dropped() {
    let mut o = RxStreamOrderer::new();
    o.inbound_frame(10, vec![1; 10]).unwrap();
    o.inbound_frame(0, vec![2; 30]).unwrap();
    assert_eq!(o.buffered(), 20);
    assert_eq!(o.highest_seen_offset(), 20);
    let mut expected = vec![2; 10];
    expected.extend(vec![1; 10]);
    assert_eq!(read_all(&mut o), expected);
}

#[test]
fn repeated_frame_changes_nothing() {
    let mut a = RxStreamOrderer::new();
    a.inbound_frame(10, vec![1; 10]).unwrap();
    a.inbound_frame(2, vec![2; 30]).unwrap();
    let mut b = RxStreamOrderer::new();
    b.inbound_frame(10, vec![1; 10]).unwrap();
    b.inbound_frame(2, vec![2; 30]).unwrap();
    b.inbound_frame(2, vec![2; 30]).unwrap();
    b.inbound_frame(10, vec![1; 10]).unwrap();
    assert_eq!(a, b);
    b.inbound_frame(20, vec![3; 1]).unwrap();
    assert_ne!(a, b);
}

#[test]
fn bytes_that_were_read_are_not_read_again() {
    let mut o = RxStreamOrderer::new();
    o.inbound_frame(0, bytes(0, 10)).unwrap();
    assert_eq!(read_all(&mut o), bytes(0, 10));

    // All of it was read.
    o.inbound_frame(0, bytes(0, 5)).unwrap();
    assert!(o.data_ready());
    assert_eq!(o.buffered(), 0);
    assert_eq!(o.highest_seen_offset(), 5);
    assert_eq!(read_all(&mut o), vec![]);
    assert!(!o.data_ready());
    assert_eq!(o.retired(), 10);

    // Part of it was read.
    o.inbound_frame(6, bytes(6, 8)).unwrap();
    assert!(o.data_ready());
    assert_eq!(o.buffered(), 4);
    assert_eq!(read_all(&mut o), bytes(10, 4));
    assert_eq!(o.retired(), 14);
}

#[test]
fn frame_overlaps_a_range_that_was_read_in_part() {
    for len in [12u8, 30u8] {
        let mut o = RxStreamOrderer::new();
        o.inbound_frame(0, bytes(0, 15)).unwrap();
        let mut buf = [0u8; 10];
        assert_eq!(o.read(&mut buf).unwrap(), 10);
        o.inbound_frame(8, bytes(8, len)).unwrap();
        assert!(o.data_ready());
        assert_eq!(o.buffered(), len as u64 - 2);
        assert_eq!(read_all(&mut o), bytes(10, len - 2));
    }
}

#[test]
fn empty_frame() {
    let mut o = RxStreamOrderer::new();
    o.inbound_frame(0, vec![]).unwrap();
    assert!(o.data_ready());
    assert_eq!(o.buffered(), 0);
    assert_eq!(read_all(&mut o), vec![]);
    assert!(!o.data_ready());

    o.inbound_frame(7, vec![]).unwrap();
    assert_eq!(o.highest_seen_offset(), 7);
    o.inbound_frame(7, vec![1; 2]).unwrap();
    o.inbound_frame(0, vec![2; 7]).unwrap();
    assert_eq!(read_all(&mut o), vec![2, 2, 2, 2, 2, 2, 2, 1, 1]);
}

#[test]
fn greatest_offsets() {
    let mut o = RxStreamOrderer::new();
    o.inbound_frame(u64::MAX - 3, vec![1; 3]).unwrap();
    assert_eq!(o.highest_seen_offset(), u64::MAX);
    assert_eq!(o.buffered(), 3);
    assert!(!o.data_ready());
}

#[test]
fn two_reads_are_one() {
    let mut a = RxStreamOrderer::new();
    let mut b = RxStreamOrderer::new();
    for o in [&mut a, &mut b] {
        o.inbound_frame(0, bytes(0, 4)).unwrap();
        o.inbound_frame(4, bytes(4, 5)).unwrap();
        o.inbound_frame(12, bytes(12, 3)).unwrap();
    }
    let mut first = [0u8; 3];
    let mut second = [0u8; 4];
    let mut both = [0u8; 7];
    assert_eq!(a.read(&mut first).unwrap(), 3);
    assert_eq!(a.read(&mut second).unwrap(), 4);
    assert_eq!(b.read(&mut both).unwrap(), 7);
    assert_eq!([&first[..], &second[..]].concat(), both);
    assert_eq!(a, b);
}

#[test]
fn reading_does_not_move_the_highest_offset() {
    let mut o = RxStreamOrderer::new();
    o.inbound_frame(0, vec![1; 8]).unwrap();
    o.inbound_frame(10, vec![2; 5]).unwrap();
    assert_eq!(o.highest_seen_offset(), 15);
    let mut buf = [0u8; 3];
    assert_eq!(o.read(&mut buf).unwrap(), 3);
    assert_eq!(o.highest_seen_offset(), 15);
    assert_eq!(read_all(&mut o), vec![1; 5]);
    assert_eq!(o.highest_seen_offset(), 15);
    o.inbound_frame(8, vec![3; 2]).unwrap();
    assert_eq!(read_all(&mut o), vec![3, 3, 2, 2, 2, 2, 2]);
    assert_eq!(o.highest_seen_offset(), 15);
}
