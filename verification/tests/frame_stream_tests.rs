use sosw::link::frame::{FrameAssembler, FrameParser};
use sosw::Config;

#[test]
fn two_block_frame_fed_in_pieces_parses_once() {
    let config = Config::ofdm_default();
    let mut assembler = FrameAssembler::new(&config);
    let payload: Vec<u8> = (0..300u32).map(|i| (i * 7) as u8).collect();
    let frame = assembler.assemble_frame(&payload);
    assert_eq!(frame.len(), 8 + 2 * 255 + 4);
    for split in [10usize, 262, 263, 300, 400, 521] {
        let mut parser = FrameParser::new(&config);
        let first = parser.feed_bytes(&frame[..split]);
        assert!(first.is_empty(), "split {}: no frame yet", split);
        let second = parser.feed_bytes(&frame[split..]);
        assert_eq!(second.len(), 1, "split {}: one frame", split);
        assert!(second[0].valid);
        assert_eq!(second[0].payload, payload);
        assert_eq!(parser.crc_fail, 0, "split {}: nothing rejected", split);
    }
}

#[test]
fn two_block_frame_fed_whole_counts_no_failure() {
    let config = Config::ofdm_default();
    let mut assembler = FrameAssembler::new(&config);
    let payload = vec![0x5Au8; 400];
    let frame = assembler.assemble_frame(&payload);
    let mut parser = FrameParser::new(&config);
    let frames = parser.feed_bytes(&frame);
    assert_eq!(frames.len(), 1);
    assert_eq!(frames[0].payload, payload);
    assert_eq!(parser.crc_fail, 0);
    assert_eq!(parser.frames_received, parser.frames_valid + parser.fec_fail);
}

#[test]
fn rejected_frame_counts_one_crc_failure() {
    let config = Config::ofdm_default();
    let mut assembler = FrameAssembler::new(&config);
    let mut frame = assembler.assemble_frame(&[0x42; 100]);
    let last = frame.len() - 1;
    frame[last] ^= 0x01;
    let mut parser = FrameParser::new(&config);
    let frames = parser.feed_bytes(&frame);
    assert!(frames.is_empty());
    assert_eq!(parser.crc_fail, 1);
}

#[test]
fn counter_getters_match_fields() {
    let config = Config::ofdm_default();
    let mut assembler = FrameAssembler::new(&config);
    let mut parser = FrameParser::new(&config);
    let mut stream = assembler.assemble_frame(&[1u8; 20]);
    let mut bad = assembler.assemble_frame(&[2u8; 20]);
    let last = bad.len() - 1;
    bad[last] ^= 0x80;
    stream.extend_from_slice(&bad);
    let frames = parser.feed_bytes(&stream);
    assert_eq!(frames.len(), 1);
    assert_eq!(parser.frames_received(), parser.frames_received);
    assert_eq!(parser.frames_valid(), parser.frames_valid);
    assert_eq!(parser.crc_fail(), parser.crc_fail);
    assert_eq!(parser.fec_fail(), parser.fec_fail);
    assert_eq!(parser.frames_received(), 1);
    assert_eq!(parser.crc_fail(), 1);
}
