use sosw::net::link::{
    decode_all, decode_message, encode_symbols, find_message, Message, MSG_HELLO, MSG_HELLO_ACK,
    MSG_TRAIN, MSG_TRAIN_ACK,
};

#[test]
fn test_leading_garbage_ignored() {
    let mut symbols = vec![0x1, 0x2, 0x3];
    symbols.extend(encode_symbols(&Message::train(3, 10)));
    let (decoded, _) = decode_message(&symbols).expect("no message decoded");
    assert_eq!((decoded.kind, decoded.node_id, decoded.param), (MSG_TRAIN, 3, 10));
}

#[test]
fn test_dropped_symbol_recovered() {
    let msg = Message::hello_ack(2, 8, "");
    for drop in 0..encode_symbols(&msg).len() {
        let mut s = encode_symbols(&msg);
        s.remove(drop);
        let got = decode_all(&s)
            .into_iter()
            .find(|(m, _)| (m.kind, m.node_id, m.param) == (msg.kind, msg.node_id, msg.param));
        assert!(got.is_some(), "drop at {} broke decode: {:X?}", drop, s);
    }
}

#[test]
fn test_inserted_symbol_recovered() {
    let msg = Message::train(1, 8);
    for ins in 0..encode_symbols(&msg).len() {
        let mut s = encode_symbols(&msg);
        s.insert(ins, 0x4);
        let got = decode_all(&s)
            .into_iter()
            .find(|(m, _)| (m.kind, m.node_id, m.param) == (msg.kind, msg.node_id, msg.param));
        assert!(got.is_some(), "insert at {} broke decode: {:X?}", ins, s);
    }
}

#[test]
fn test_substituted_symbol_recovered() {
    let msg = Message::hello(1, 8, "");
    let n = encode_symbols(&msg).len();
    for flip in 0..n {
        let mut s = encode_symbols(&msg);
        s[flip] = (s[flip] + 1) & 0x0F;
        let got = decode_all(&s)
            .into_iter()
            .find(|(m, _)| (m.kind, m.node_id, m.param) == (msg.kind, msg.node_id, msg.param));
        assert!(got.is_some(), "flip at {} broke decode: {:X?}", flip, s);
    }
}

/// Every kind of message decodes from its own symbols.
#[test]
fn link_symbol_roundtrip_all_kinds() {
    for msg in [
        Message::hello(7, 0, "sosw"),
        Message::hello_ack(0xEE, 0, "x"),
        Message::train(1, 8),
        Message::train_ack(42, 100),
    ] {
        let (m, _) = decode_message(&encode_symbols(&msg)).expect("no message decoded");
        assert_eq!((m.kind, m.node_id, m.param), (msg.kind, msg.node_id, msg.param));
        assert!(m.text.is_empty());
    }
    assert_eq!(MSG_HELLO, 0);
    assert_eq!(MSG_HELLO_ACK, 1);
    assert_eq!(MSG_TRAIN_ACK, 3);
}

/// Symbols carry nibbles only, and noise alone decodes to nothing.
#[test]
fn link_symbols_are_nibbles_and_noise_decodes_nothing() {
    let s = encode_symbols(&Message::train_ack(0xAB, 0xCD));
    assert!(s.iter().all(|&x| x < 16));
    assert!(decode_message(&[0x1, 0x2, 0x3, 0x4]).is_none());
    assert!(decode_all(&[]).is_empty());
}

/// A node looks for a kind of message from another node, skipping its own.
#[test]
fn find_message_skips_own_and_other_kinds() {
    let mut s = encode_symbols(&Message::hello(1, 8, ""));
    s.extend(encode_symbols(&Message::train(2, 5)));
    s.extend(encode_symbols(&Message::hello(3, 9, "")));
    let m = find_message(&s, MSG_HELLO, 1).expect("hello from node 3");
    assert_eq!((m.kind, m.node_id, m.param), (MSG_HELLO, 3, 9));
    let t = find_message(&s, MSG_TRAIN, 1).expect("train from node 2");
    assert_eq!((t.node_id, t.param), (2, 5));
    assert!(find_message(&s, MSG_TRAIN, 2).is_none());
    assert!(find_message(&s, MSG_TRAIN_ACK, 0).is_none());
}
