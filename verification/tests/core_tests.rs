use sosw::config::Config;
use sosw::link::frame::FrameParser;
use sosw::link::gf256::Gf256;
use sosw::physical::dpsk::DpskConfig;
use sosw::{bits_to_bytes, bytes_to_bits};
use sosw::physical::ofdm::{ofdm_frame_bits, ofdm_payload_bytes};
use sosw::net::mac::node_id_from_hostname;
use rand::{Rng, SeedableRng};

#[test]
fn gf256_arithmetic() {
    let gf = Gf256::new();
    assert_eq!(gf.add(0x53, 0xCA), 0x99);
    assert_eq!(gf.sub(0x53, 0xCA), 0x99);
    assert_eq!(gf.mul(2, 0x80), 0x1D);
    assert_eq!(gf.mul(0, 7), 0);
    assert_eq!(gf.mul(1, 0xAB), 0xAB);
    for a in 1..=255u8 {
        assert_eq!(gf.mul(a, gf.inv(a)), 1);
    }
    assert_eq!(gf.inv(0), 0);
    assert_eq!(gf.pow(2, 8), 0x1D);
    assert_eq!(gf.pow(2, 255), 1);
    assert_eq!(gf.pow(2, -1), gf.inv(2));
    assert_eq!(gf.pow(0, 5), 0);
    assert_eq!(gf.pow(9, 0), 1);
    // x^2 + 1 at x = 2 is 5.
    assert_eq!(gf.poly_eval(&[1, 0, 1], 2), 5);
}

#[test]
fn gf256_laws_on_samples() {
    let gf = Gf256::default();
    for &(a, b, c) in &[(3u8, 7u8, 11u8), (0x53, 0xCA, 0x01), (200, 100, 50)] {
        assert_eq!(gf.mul(a, b), gf.mul(b, a));
        assert_eq!(gf.mul(gf.mul(a, b), c), gf.mul(a, gf.mul(b, c)));
        assert_eq!(gf.mul(a, b ^ c), gf.mul(a, b) ^ gf.mul(a, c));
    }
}

#[test]
fn bit_conversions() {
    assert_eq!(bytes_to_bits(&[0xA1]), vec![1, 0, 1, 0, 0, 0, 0, 1]);
    assert_eq!(bits_to_bytes(&[1, 0, 1, 0, 0, 0, 0, 1, 1]), vec![0xA1, 0x80]);
    let data = vec![0x00, 0xFF, 0x5A];
    assert_eq!(bits_to_bytes(&bytes_to_bits(&data)), data);
}

#[test]
fn dpsk_gray_mapping_roundtrip() {
    let c = DpskConfig::default();
    for b0 in 0..2u8 {
        for b1 in 0..2u8 {
            let q = c.phase_quarter_turns(&[b0, b1]);
            assert_eq!(c.quarter_turn_bits(q), vec![b0, b1]);
        }
    }
    assert_eq!(c.phase_quarter_turns(&[1, 0]), 3);
    let b = DpskConfig { bits_per_symbol: 1, ..DpskConfig::default() };
    assert_eq!(b.phase_quarter_turns(&[1]), 2);
    assert_eq!(b.quarter_turn_bits(2), vec![1]);
}

#[test]
fn dpsk_frame_bits_carry_payload() {
    let c = DpskConfig::default();
    let payload = b"dpsk".to_vec();
    let bits = c.frame_bits(&payload);
    let pre = c.preamble_bits();
    assert_eq!(pre.len(), 96);
    assert!(pre.iter().all(|&b| b <= 1));
    assert_eq!(&bits[..pre.len()], &pre[..]);
    assert_eq!(c.payload_from_bits(&bits[pre.len()..]), payload);
}

#[test]
fn config_presets_and_names() {
    let d = Config::ofdm_default();
    assert_eq!((d.payload_size, d.rs_nsym), (442, 32));
    assert_eq!(Config::high_baud().payload_size, 128);
    assert_eq!(Config::robust().data_symbols_per_frame, 21);
    assert_eq!(Config::ultrasonic().data_symbols_per_frame, 51);
    assert_eq!(Config::ultrawide().data_symbols_per_frame, 20);
    assert_eq!(Config::from_preset_name("ROBUST").payload_size, 256);
    assert_eq!(Config::from_preset_name("unknown").payload_size, 442);
}

#[test]
fn frame_parser_summary_text() {
    let parser = FrameParser::new(&Config::ofdm_default());
    assert_eq!(parser.stats_summary(), "Frames: 0/0 valid, 0 crc fail, 0 fec fail");
}

#[test]
fn ofdm_bits_roundtrip() {
    let c = Config::ofdm_default();
    let data: Vec<u8> = (0..20u8).map(|i| i.wrapping_mul(13)).collect();
    let bits = ofdm_frame_bits(&c, &data);
    // 35 data symbols of 60 subcarriers, two bits each.
    assert_eq!(bits.len(), 35 * 60 * 2);
    assert!(bits.iter().all(|&b| b <= 1));
    let back = ofdm_payload_bytes(&c, &bits);
    assert_eq!(back.len(), 35 * 60 * 2 / 8);
    assert_eq!(&back[..data.len()], &data[..]);
    // The padding is the keystream continued past the data.
    let mask = sosw::link::scrambler::Scrambler::new(c.scrambler_seed).mask(back.len());
    assert_eq!(&back[data.len()..], &vec![0u8; back.len() - data.len()][..]);
    assert_eq!(sosw::bits_to_bytes(&bits[..80]).len(), 10);
    assert_eq!(sosw::bits_to_bytes(&bits[8 * 20..8 * 21])[0], mask[20]);
}

#[test]
fn ofdm_bits_partial_pad_and_differential() {
    // 3 subcarriers, 3 symbols: 18 bits, so one data byte and ten pad bits.
    let c = Config {
        sc_min: 10,
        sc_max: 12,
        data_symbols_per_frame: 3,
        ..Config::ofdm_default()
    };
    let bits = ofdm_frame_bits(&c, &[0xFF]);
    assert_eq!(bits.len(), 18);
    let mask = sosw::link::scrambler::Scrambler::new(c.scrambler_seed).mask(3);
    let low2: Vec<u8> = vec![(mask[2] >> 1) & 1, mask[2] & 1];
    assert_eq!(&bits[16..], &low2[..]);
    let d = Config { differential: true, ..c };
    assert_eq!(ofdm_frame_bits(&d, &[0xFF]).len(), 12);
    // Data longer than the frame is carried whole, with no padding.
    assert_eq!(ofdm_frame_bits(&c, &[1, 2, 3]).len(), 24);
}

#[test]
fn node_id_from_hostname_sums_bytes() {
    assert_eq!(node_id_from_hostname(b"ab"), 0xC3);
    assert_eq!(node_id_from_hostname(b""), 1);
    // 0x80 + 0x80 wraps to 0, which is replaced by 1.
    assert_eq!(node_id_from_hostname(&[0x80, 0x80]), 1);
    assert_eq!(node_id_from_hostname(&[0xFF, 0x03]), 2);
}

#[test]
fn ofdm_preamble_bits_match_generator() {
    let c = Config::ofdm_default();
    let bits = sosw::physical::ofdm::ofdm_preamble_bits(&c);
    assert_eq!(bits.len(), 8 * 60 * 2);
    let mut rng = rand_chacha::ChaCha12Rng::seed_from_u64(c.preamble_seed);
    let expected: Vec<u8> = (0..bits.len()).map(|_| rng.random_range(0..2u8)).collect();
    assert_eq!(bits, expected);
    assert!(bits.contains(&0) && bits.contains(&1));
}

#[test]
fn scrambler_mask_matches_generator() {
    let mut rng = rand_chacha::ChaCha12Rng::seed_from_u64(12345);
    let expected: Vec<u8> = (0..64).map(|_| rng.random::<u8>()).collect();
    let mask = sosw::link::scrambler::Scrambler::new(12345).mask(64);
    assert_eq!(mask, expected);
}
