use sosw::physical::dtmf::{bytes_to_nibbles, nibbles_to_bytes};
use sosw::physical::fsk::{unwrap_frame, wrap_frame, FskConfig, FskFec};
use sosw::physical::fsk_bank::FskBankConfig;

fn cfg(m: usize, symbol_samples: usize) -> FskConfig {
    FskConfig {
        m,
        symbol_samples,
        ..FskConfig::default()
    }
}

#[test]
fn test_nibble_bytes_roundtrip() {
    let bytes = vec![0x12, 0xAB, 0x00, 0xFF];
    assert_eq!(nibbles_to_bytes(&bytes_to_nibbles(&bytes)), bytes);
}

#[test]
fn fec_corrects_block_errors() {
    let fec = FskFec::new(32, 16);
    let data: Vec<u8> = (0..100u8).collect();
    let mut coded = fec.encode(&data);
    let bl = fec.block_len();
    let nb = fec.n_blocks(data.len());
    for b in 0..nb {
        for k in 0..8 {
            let i = b * bl + k * 3;
            if i < coded.len() {
                coded[i] ^= 0xA5;
            }
        }
    }
    let (out, ok) = fec.decode(&coded, nb);
    assert!(ok, "FEC reported failure");
    assert_eq!(&out[..data.len()], &data[..], "FEC data mismatch");
}

#[test]
fn bit_packing_roundtrip() {
    for m in [2usize, 4, 8, 16] {
        let c = cfg(m, 960);
        let bytes: Vec<u8> = (0..37u8).collect();
        let syms = c.bytes_to_symbols(&bytes);
        let back = c.symbols_to_bytes(&syms);
        assert_eq!(&back[..bytes.len()], &bytes[..], "M={} packing mismatch", m);
    }
}

#[test]
fn matrix_roundtrip() {
    let c = FskBankConfig::default();
    let bytes: Vec<u8> = (0..33u8).collect();
    let rows = c.bytes_to_matrix(&bytes);
    let back = c.matrix_to_bytes(&rows);
    assert_eq!(&back[..bytes.len()], &bytes[..]);
}

/// Nibbles go out high first; an odd trailing nibble fills a high half.
#[test]
fn nibble_order_and_odd_tail() {
    assert_eq!(bytes_to_nibbles(&[0x12, 0xAB]), vec![1, 2, 0xA, 0xB]);
    assert_eq!(nibbles_to_bytes(&[1, 2, 3]), vec![0x12, 0x30]);
    assert_eq!(nibbles_to_bytes(&[0x1F, 0x22]), vec![0xF2]);
    assert!(nibbles_to_bytes(&[]).is_empty());
}

/// A frame is its payload behind a two-byte big-endian length, followed by
/// the CRC-32 of both.
#[test]
fn wrap_and_unwrap_frame() {
    let w = wrap_frame(&[7, 8, 9]);
    assert_eq!(&w[..5], &[0, 3, 7, 8, 9]);
    assert_eq!(w.len(), 9);
    let c = sosw::link::crc::compute_crc32(&w[..5]).to_be_bytes();
    assert_eq!(&w[5..], &c);
    assert_eq!(unwrap_frame(&w), Some(vec![7, 8, 9]));
    // Trailing bytes after the frame are ignored.
    let mut longer = w.clone();
    longer.extend_from_slice(&[1, 2, 3]);
    assert_eq!(unwrap_frame(&longer), Some(vec![7, 8, 9]));
    // Too short, a length past the end, or a bad CRC gives nothing.
    assert_eq!(unwrap_frame(&[0]), None);
    assert_eq!(unwrap_frame(&[0, 9, 1, 2, 3, 4, 5]), None);
    let mut bad = w.clone();
    bad[3] ^= 1;
    assert_eq!(unwrap_frame(&bad), None);
}

/// Symbols carry `log2(m)` bits each, the first bit of a byte highest.
#[test]
fn symbol_packing_exact() {
    let c = cfg(4, 960);
    assert_eq!(c.bits_per_symbol(), 2);
    assert_eq!(c.bytes_to_symbols(&[0b1101_0010]), vec![3, 1, 0, 2]);
    let c16 = cfg(16, 960);
    assert_eq!(c16.bits_per_symbol(), 4);
    assert_eq!(c16.bytes_to_symbols(&[0xA5]), vec![0xA, 0x5]);
    assert_eq!(c16.symbols_to_bytes(&[0xA, 0x5, 0x3]), vec![0xA5]);
}

/// The FEC frame coder yields whole blocks of data plus parity.
#[test]
fn fsk_fec_lengths() {
    let fec = FskFec::new(32, 16);
    assert_eq!(fec.block_len(), 48);
    assert_eq!(fec.n_blocks(0), 1);
    assert_eq!(fec.n_blocks(64), 2);
    assert_eq!(fec.n_blocks(65), 3);
    assert_eq!(fec.coded_len(65), 144);
    assert_eq!(fec.encode(&[1, 2, 3]).len(), 48);
    // A zero block size is raised to one.
    assert_eq!(FskFec::new(0, 4).data_block, 1);
}

/// Encoding then decoding with FEC returns the wire bytes, zero-padded to
/// whole blocks.
#[test]
fn fsk_fec_roundtrip_clean() {
    let fec = FskFec::new(10, 6);
    let data: Vec<u8> = (1..=25u8).collect();
    let coded = fec.encode(&data);
    let (out, ok) = fec.decode(&coded, fec.n_blocks(data.len()));
    assert!(ok);
    assert_eq!(out.len(), 30);
    assert_eq!(&out[..25], &data[..]);
    assert!(out[25..].iter().all(|&b| b == 0));
}

/// The frame body of a configuration decodes back to its wire bytes.
#[test]
fn fsk_decode_symbols_roundtrip() {
    for (m, nsym) in [(2usize, 0usize), (4, 16), (16, 8)] {
        let c = FskConfig {
            m,
            rs_nsym: nsym,
            payload_size: 40,
            ..FskConfig::default()
        };
        let payload: Vec<u8> = (0..40u8).map(|i| i.wrapping_mul(7)).collect();
        let tx = c.body_symbols(&c.wire_bytes(&payload));
        assert_eq!(&tx[..c.preamble_symbols], &c.preamble()[..]);
        let got = c.decode_symbols(&tx).expect("frame expected");
        assert!(got.fec_ok);
        assert_eq!(unwrap_frame(&got.bytes), Some(payload));
    }
}

/// Mapping then unmapping a symbol gives it back, plain or differential.
#[test]
fn fsk_map_unmap() {
    for differential in [false, true] {
        let c = FskConfig {
            m: 8,
            differential,
            ..FskConfig::default()
        };
        for prev in 0..8u8 {
            for d in 0..8u8 {
                let t = c.map_symbol(d, prev);
                assert!(t < 8);
                assert_eq!(c.unmap_symbol(t, prev), d);
            }
        }
    }
}

/// The bank splits bytes across its channels and reads them back.
#[test]
fn bank_matrix_shape() {
    let c = FskBankConfig::default();
    assert_eq!(c.channels(), 4);
    assert_eq!(c.bits_per_channel_symbol(), 1);
    let rows = c.bytes_to_matrix(&[0xFF]);
    assert_eq!(rows.len(), 2);
    assert!(rows.iter().all(|r| r.len() == 4));
    assert_eq!(c.matrix_to_bytes(&rows), vec![0xFF]);
}
