use sosw::physical::ota::{rs_byte_budget, score_frames};

#[test]
fn budget_counts_started_blocks() {
    assert_eq!(rs_byte_budget(100, 32), 16);
    assert_eq!(rs_byte_budget(223, 32), 32);
    assert_eq!(rs_byte_budget(500, 16), 24);
    assert_eq!(rs_byte_budget(64, 0), 0);
}

#[test]
fn score_counts_exact_correctable_and_missing() {
    // Four sent frames of 4 bytes; the received stream has one training
    // frame first, then frame 0 exact, frame 1 with one wrong byte, frame 2
    // with three wrong bytes, and frame 3 cut short.
    let sent: Vec<u8> = (0..16u8).collect();
    let mut received = vec![9u8; 4];
    received.extend_from_slice(&[0, 1, 2, 3]);
    received.extend_from_slice(&[4, 5, 0, 7]);
    received.extend_from_slice(&[0, 0, 0, 11]);
    received.extend_from_slice(&[12, 13]);
    let s = score_frames(&sent, &received, 4, 1, 4, 1);
    assert_eq!(s.frame_errors, vec![Some(0), Some(1), Some(3), None]);
    assert_eq!(s.exact, 1);
    assert_eq!(s.correctable, 2);
    assert_eq!(s.byte_errors, 4);
}

#[test]
fn score_stops_where_sent_bytes_end() {
    let sent = vec![1u8; 10];
    let received = vec![1u8; 40];
    let s = score_frames(&sent, &received, 4, 0, 5, 0);
    assert_eq!(s.frame_errors, vec![Some(0), Some(0)]);
    assert_eq!(s.exact, 2);
    assert_eq!(s.correctable, 2);
    assert_eq!(s.byte_errors, 0);
}
