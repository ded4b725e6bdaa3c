use sosw::net::tap::{MockTap, Tappable};

#[test]
fn test_mock_tap_send_recv() {
    let mut tap = MockTap::new("mock0");
    assert_eq!(tap.iface_name().unwrap(), "mock0");

    tap.inject(vec![1, 2, 3, 4]);
    let mut buf = [0u8; 10];
    assert_eq!(tap.recv(&mut buf).unwrap(), Some(4));
    assert_eq!(&buf[..4], &[1, 2, 3, 4]);

    assert_eq!(tap.send(&[5, 6, 7]).unwrap(), 3);
    assert_eq!(tap.sent(), Some(vec![5, 6, 7]));
}

/// An empty queue receives nothing; frames come out in the order they went in.
#[test]
fn mock_tap_queues_in_order() {
    let mut tap = MockTap::new("t");
    let mut buf = [0u8; 8];
    assert_eq!(tap.recv(&mut buf).unwrap(), None);
    tap.inject(vec![1]);
    tap.inject(vec![2, 2]);
    assert_eq!(tap.recv(&mut buf).unwrap(), Some(1));
    assert_eq!(tap.recv(&mut buf).unwrap(), Some(2));
    assert_eq!(&buf[..2], &[2, 2]);
    assert_eq!(tap.sent(), None);
    tap.send(&[9]).unwrap();
    tap.send(&[8]).unwrap();
    assert_eq!(tap.sent_count(), 2);
    assert_eq!(tap.sent(), Some(vec![9]));
    assert_eq!(tap.sent(), Some(vec![8]));
    assert_eq!(tap.name_string(), "t");
    assert!(tap.set_nonblocking(true).is_ok());
}
