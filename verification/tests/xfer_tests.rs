use sosw::net::xfer::{
    chunk_count, decode_transport, encode_transport, ReceiverAction, ReceiverState, SenderAction,
    SenderState, CHUNK, KIND_ACK, KIND_BYE, KIND_DATA,
};

/// Runs sender and receiver against each other; `lose(n)` drops the n-th
/// frame the sender sends.
fn run_transfer(data: &[u8], chunk: usize, lose: impl Fn(usize) -> bool) -> (Vec<u8>, usize) {
    let mut tx = SenderState::new(data.len(), chunk, 5);
    let mut rx = ReceiverState::new(10);
    let mut sent = 0usize;
    let mut action = tx.next_action(data);
    for _ in 0..10_000 {
        match action {
            SenderAction::SendData { frame } | SenderAction::SendBye { frame } => {
                let lost = lose(sent);
                sent += 1;
                let reply = if lost {
                    None
                } else {
                    match rx.on_frame(Some(&frame), 20, true) {
                        ReceiverAction::SendAck { frame } => Some(frame),
                        ReceiverAction::AckAndFinish { frame } => Some(frame),
                        _ => None,
                    }
                };
                action = tx.on_event(data, reply.as_deref());
            }
            SenderAction::Listen => action = tx.on_event(data, None),
            SenderAction::Acked => action = tx.next_action(data),
            SenderAction::Done => break,
        }
    }
    (rx.received().clone(), tx.stats().retransmits)
}

#[test]
fn transport_header_layout() {
    let v = encode_transport(KIND_DATA, 0x0102, 0x0304, &[9, 8]);
    assert_eq!(v, vec![0, 1, 2, 3, 4, 2, 9, 8]);
    assert_eq!(decode_transport(&v), Some((KIND_DATA, 0x0102, 0x0304, vec![9, 8])));
}

#[test]
fn transport_rejects_short_or_truncated() {
    assert_eq!(decode_transport(&[1, 2, 3, 4, 5]), None);
    assert_eq!(decode_transport(&[0, 0, 0, 0, 1, 3, 7, 7]), None);
    // Bytes past the announced length are ignored.
    assert_eq!(decode_transport(&[2, 0, 5, 0, 5, 0, 1, 1]), Some((KIND_BYE, 5, 5, vec![])));
}

#[test]
fn chunk_count_rounds_up() {
    assert_eq!(chunk_count(0, CHUNK), 1);
    assert_eq!(chunk_count(128, 128), 1);
    assert_eq!(chunk_count(129, 128), 2);
    assert_eq!(chunk_count(1000, 0), 1000);
}

#[test]
fn xfer_clean_transfer_roundtrip() {
    let data: Vec<u8> = (0..1000u32).map(|i| (i * 7 % 256) as u8).collect();
    let (got, retransmits) = run_transfer(&data, CHUNK, |_| false);
    assert_eq!(got, data);
    assert_eq!(retransmits, 0);
}

#[test]
fn xfer_lossy_transfer_retransmits() {
    let data: Vec<u8> = (0..400u32).map(|i| (i % 251) as u8).collect();
    let (got, retransmits) = run_transfer(&data, 24, |n| n % 3 == 1);
    assert_eq!(got, data);
    assert!(retransmits > 0);
}

#[test]
fn receiver_takes_chunks_in_order_only() {
    let mut rx = ReceiverState::new(3);
    let second = encode_transport(KIND_DATA, 1, 2, &[2, 2]);
    let first = encode_transport(KIND_DATA, 0, 2, &[1]);
    match rx.on_frame(Some(&second), 5, false) {
        ReceiverAction::SendAck { frame } => {
            assert_eq!(decode_transport(&frame), Some((KIND_ACK, 1, 0, vec![5, 0])));
        }
        _ => panic!("expected an ACK"),
    }
    assert!(rx.received().is_empty());
    assert!(matches!(rx.on_frame(Some(&first), 9, true), ReceiverAction::SendAck { .. }));
    assert!(matches!(rx.on_frame(Some(&second), 9, true), ReceiverAction::SendAck { .. }));
    assert_eq!(rx.received(), &vec![1, 2, 2]);
    assert_eq!(rx.stats().chunks, 2);
    assert_eq!(rx.stats().bytes, 3);
}

#[test]
fn receiver_gives_up_after_silence() {
    let mut rx = ReceiverState::new(2);
    assert!(matches!(rx.on_frame(None, 0, false), ReceiverAction::Listen));
    assert!(matches!(rx.on_frame(None, 0, false), ReceiverAction::Listen));
    assert!(matches!(rx.on_frame(None, 0, false), ReceiverAction::Finish));
}

#[test]
fn sender_gives_up_chunk_after_retries() {
    let data = vec![1u8; 10];
    let mut tx = SenderState::new(data.len(), 5, 1);
    assert!(matches!(tx.next_action(&data), SenderAction::SendData { .. }));
    // One retry, then the chunk is given up and the next one goes out.
    assert!(matches!(tx.on_event(&data, None), SenderAction::SendData { .. }));
    match tx.on_event(&data, None) {
        SenderAction::SendData { frame } => {
            assert_eq!(decode_transport(&frame).unwrap().1, 1);
        }
        _ => panic!("expected the next chunk"),
    }
    assert_eq!(tx.stats().timeouts, 2);
    assert_eq!(tx.stats().retransmits, 1);
    // An unrelated reply is ignored.
    let stray = encode_transport(KIND_ACK, 7, 0, &[]);
    assert!(matches!(tx.on_event(&data, Some(&stray)), SenderAction::Listen));
}

#[test]
fn sender_sends_bye_at_most_twice() {
    let data: Vec<u8> = vec![];
    let mut tx = SenderState::new(0, 10, 0);
    let ack = encode_transport(KIND_ACK, 0, 0, &[]);
    assert!(matches!(tx.next_action(&data), SenderAction::SendData { .. }));
    assert!(matches!(tx.on_event(&data, Some(&ack)), SenderAction::Acked));
    match tx.next_action(&data) {
        SenderAction::SendBye { frame } => assert_eq!(frame, tx.bye_frame()),
        _ => panic!("expected a BYE"),
    }
    assert!(matches!(tx.on_event(&data, None), SenderAction::SendBye { .. }));
    assert!(matches!(tx.on_event(&data, None), SenderAction::Done));
}

#[test]
fn long_chunk_is_sent_whole_with_wrapped_length() {
    let data: Vec<u8> = (0..700u32).map(|i| i as u8).collect();
    let s = sosw::net::xfer::SenderState::new(data.len(), 300, 1);
    let f = s.data_frame(&data);
    assert_eq!(f.len(), 6 + 300);
    assert_eq!(f[5], (300 % 256) as u8);
    assert_eq!(&f[6..], &data[..300]);
}

#[test]
fn trainer_takes_more_than_256_modes() {
    let t = sosw::net::train::TrainerState::new(300, 2);
    match t.action() {
        sosw::net::train::TrainerAction::Exchange { mode, .. } => assert_eq!(mode, 299),
        _ => panic!("training starts with an exchange"),
    }
}
