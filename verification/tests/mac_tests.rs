use sosw::net::fragment::{fragment_eth_frame, FragmentHeader};
use sosw::net::mac::{MacConfig, MacState, Phase, FRAME_TYPE_ACK, FRAME_TYPE_DATA};

#[test]
fn mac_config_defaults_and_durations() {
    let c = MacConfig::default();
    assert_eq!((c.node_id, c.cw_min, c.cw_max, c.max_retries), (1, 4, 64, 5));
    assert_eq!(c.difs(), std::time::Duration::from_millis(600));
    assert_eq!(c.slot(), std::time::Duration::from_millis(60));
    assert_eq!(c.ack_timeout(), std::time::Duration::from_millis(2000));
}

#[test]
fn mac_transmit_cycle() {
    let mut mac = MacState::new(MacConfig::default());
    assert_eq!(mac.phase(), Phase::Idle);
    mac.start_tx(vec![0x55; 600]);
    assert!(mac.has_pending_tx());
    // The first step starts sensing.
    let o = mac.tx_step(0, false, 0);
    assert!(o.restart_timer && o.transmit.is_none());
    assert_eq!(mac.phase(), Phase::Sensing);
    // A busy medium keeps it sensing.
    mac.tx_step(600, true, 2);
    assert_eq!(mac.phase(), Phase::Sensing);
    // DIFS on an idle medium starts a backoff of two slots.
    mac.tx_step(600, false, 2);
    assert_eq!(mac.phase(), Phase::Backoff);
    assert!(mac.tx_step(100, false, 0).transmit.is_none());
    let o = mac.tx_step(120, false, 0);
    let frag = o.transmit.expect("fragment expected");
    let h = FragmentHeader::decode(&frag).unwrap();
    assert!(h.first_frag && !h.last_frag);
    assert_eq!((h.dst_id, h.src_id, h.frag_index), (0xFF, 1, 0));
    assert_eq!(mac.phase(), Phase::WaitingAck);
    // The ACK moves on to the second fragment.
    mac.on_ack(h.frame_id);
    assert!(mac.has_pending_tx());
    mac.tx_step(0, false, 0);
    assert_eq!(mac.phase(), Phase::Sensing);
}

#[test]
fn mac_drops_frame_after_retries() {
    let cfg = MacConfig { max_retries: 1, ..MacConfig::default() };
    let mut mac = MacState::new(cfg);
    mac.start_tx(vec![1, 2, 3]);
    mac.tx_step(0, false, 0);
    mac.tx_step(600, false, 0);
    assert!(mac.tx_step(0, false, 0).transmit.is_some());
    // First timeout: retry.
    mac.tx_step(2000, false, 0);
    assert_eq!(mac.phase(), Phase::Sensing);
    mac.tx_step(600, false, 0);
    assert!(mac.tx_step(0, false, 0).transmit.is_some());
    // Second timeout: past the limit, the frame is dropped.
    mac.tx_step(2000, false, 0);
    assert_eq!(mac.phase(), Phase::Idle);
    assert!(!mac.has_pending_tx());
}

#[test]
fn mac_oversized_frame_dropped() {
    let mut mac = MacState::new(MacConfig::default());
    mac.start_tx(vec![0; 1501]);
    assert!(!mac.has_pending_tx());
}

#[test]
fn mac_receives_and_acknowledges() {
    let mut mac = MacState::new(MacConfig { node_id: 3, ..MacConfig::default() });
    let eth: Vec<u8> = (0..500u32).map(|i| i as u8).collect();
    let frags = fragment_eth_frame(&eth, 3, 9, 77);
    let o = mac.on_receive(FRAME_TYPE_DATA, &frags[0]);
    assert_eq!(o.ack, Some([9, 3, 77, 0]));
    assert!(o.deliver.is_none());
    let o = mac.on_receive(FRAME_TYPE_DATA, &frags[1]);
    assert_eq!(o.ack, Some([9, 3, 77, 1]));
    assert_eq!(o.deliver, Some(eth));
    // A fragment for another node is not acknowledged.
    let other = fragment_eth_frame(&[1, 2], 4, 9, 1);
    let o = mac.on_receive(FRAME_TYPE_DATA, &other[0]);
    assert!(o.ack.is_none());
    assert_eq!(o.deliver, Some(vec![1, 2]));
    // An ACK for us is handed back; one for another node is not.
    assert_eq!(mac.on_receive(FRAME_TYPE_ACK, &[3, 9, 5, 2]).acked, Some((5, 2)));
    assert_eq!(mac.on_receive(FRAME_TYPE_ACK, &[4, 9, 5, 2]).acked, None);
}

#[test]
fn backoff_stays_in_contention_window() {
    let state = sosw::net::mac::MacState::new(sosw::net::mac::MacConfig::default());
    for _ in 0..200 {
        assert!(state.draw_backoff() <= state.cw() as u64);
    }
}
