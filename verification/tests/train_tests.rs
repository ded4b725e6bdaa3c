use sosw::net::train::{
    ResponderAction, ResponderState, TrainerAction, TrainerState, KIND_DONE, KIND_DONE_ACK,
    KIND_HELLO, KIND_HELLO_ACK, KIND_MODE, KIND_MODE_ACK, KIND_PROBE, KIND_REPORT,
};

/// Runs both sides over a lossless channel on which mode `m` is heard at
/// `snr(m)` dB; the initiator's result and the number of exchanges.
fn negotiate(n_modes: usize, snr: impl Fn(usize) -> u8) -> (TrainerAction, usize) {
    let mut a = TrainerState::new(n_modes, 2);
    let mut b = ResponderState::new(n_modes, 2);
    let mut action = a.action();
    let mut exchanges = 0;
    loop {
        match action {
            TrainerAction::Exchange { frame, mode } => {
                exchanges += 1;
                assert_eq!(mode, b.mode(), "both sides use the same mode");
                let reply = match b.on_frame(Some(&frame), snr(mode), true) {
                    ResponderAction::Reply { frame, .. } | ResponderAction::Finish { frame, .. } => {
                        Some(frame)
                    }
                    _ => None,
                };
                action = a.on_reply(reply.as_deref());
            }
            done => return (done, exchanges),
        }
    }
}

#[test]
fn training_picks_fastest_mode_with_headroom() {
    match negotiate(8, |_| 20) {
        (TrainerAction::Finished { mode }, n) => {
            assert_eq!(mode, 0);
            // HELLO, MODE, PROBE, DONE.
            assert_eq!(n, 4);
        }
        _ => panic!("training did not finish"),
    }
}

#[test]
fn training_steps_down_until_a_mode_passes() {
    match negotiate(8, |m| if m < 3 { 5 } else { 6 }) {
        (TrainerAction::Finished { mode }, n) => {
            assert_eq!(mode, 3);
            assert_eq!(n, 1 + 2 * 4 + 1);
        }
        _ => panic!("training did not finish"),
    }
}

#[test]
fn training_falls_back_to_control_mode() {
    match negotiate(4, |m| if m == 3 { 30 } else { 0 }) {
        (TrainerAction::Finished { mode }, _) => assert_eq!(mode, 3),
        _ => panic!("training did not finish"),
    }
}

#[test]
fn training_without_peer_gives_up() {
    let mut a = TrainerState::new(8, 3);
    let mut tries = 0;
    let mut action = a.action();
    while let TrainerAction::Exchange { frame, mode } = action {
        assert_eq!(frame, vec![KIND_HELLO]);
        assert_eq!(mode, 7);
        tries += 1;
        action = a.on_reply(None);
    }
    assert!(matches!(action, TrainerAction::NoPeer));
    assert_eq!(tries, 4);
}

/// Whatever the peer answers, training ends within 2 (retries + 1) n_modes
/// exchanges.
#[test]
fn training_ends_within_budget() {
    for pattern in 0..4u8 {
        let mut a = TrainerState::new(5, 2);
        let mut action = a.action();
        let mut n = 0;
        while let TrainerAction::Exchange { frame, .. } = action {
            n += 1;
            let reply: Option<Vec<u8>> = match (pattern, frame[0]) {
                (0, _) => Some(vec![0xFF]),
                (1, k) if k == KIND_HELLO => Some(vec![KIND_HELLO_ACK]),
                (2, k) if k == KIND_HELLO => Some(vec![KIND_HELLO_ACK]),
                (2, k) if k == KIND_MODE => Some(vec![KIND_MODE_ACK]),
                (3, k) if k == KIND_HELLO => Some(vec![KIND_HELLO_ACK]),
                (3, k) if k == KIND_MODE => Some(vec![KIND_MODE_ACK]),
                (3, k) if k == KIND_PROBE => Some(vec![KIND_REPORT, 0, 2, 1]),
                _ => None,
            };
            action = a.on_reply(reply.as_deref());
            assert!(n <= 2 * 3 * 5);
        }
    }
}

#[test]
fn responder_answers_and_follows_modes() {
    let mut b = ResponderState::new(4, 1);
    assert_eq!(b.mode(), 3);
    match b.on_frame(Some(&[KIND_HELLO]), 9, true) {
        ResponderAction::Reply { frame, mode } => assert_eq!((frame, mode), (vec![KIND_HELLO_ACK], 3)),
        _ => panic!("expected HELLO_ACK"),
    }
    // An unknown mode is acknowledged but not taken.
    assert!(matches!(b.on_frame(Some(&[KIND_MODE, 9]), 9, true), ResponderAction::Reply { .. }));
    assert_eq!(b.mode(), 3);
    assert!(matches!(b.on_frame(Some(&[KIND_MODE, 1]), 9, true), ResponderAction::Reply { .. }));
    assert_eq!(b.mode(), 1);
    match b.on_frame(Some(&[KIND_PROBE, 0xA5]), 17, false) {
        ResponderAction::Reply { frame, mode } => {
            assert_eq!(frame, vec![KIND_REPORT, 1, 17, 0]);
            assert_eq!(mode, 1);
        }
        _ => panic!("expected a report"),
    }
    assert_eq!(b.mode(), 3);
    // MODE without its byte, an empty frame and unknown kinds are ignored.
    assert!(matches!(b.on_frame(Some(&[KIND_MODE]), 0, true), ResponderAction::Listen));
    assert!(matches!(b.on_frame(Some(&[]), 0, true), ResponderAction::Listen));
    assert!(matches!(b.on_frame(Some(&[0x42]), 0, true), ResponderAction::Listen));
    match b.on_frame(Some(&[KIND_DONE]), 0, true) {
        ResponderAction::Finish { frame, .. } => assert_eq!(frame, vec![KIND_DONE_ACK]),
        _ => panic!("expected DONE_ACK"),
    }
}

#[test]
fn responder_times_out_after_silence() {
    let mut b = ResponderState::new(2, 1);
    for _ in 0..3 {
        assert!(matches!(b.on_frame(None, 0, true), ResponderAction::Listen));
    }
    assert!(matches!(b.on_frame(None, 0, true), ResponderAction::TimedOut));
}
