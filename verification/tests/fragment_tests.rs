use sosw::net::fragment::{fragment_eth_frame, FragmentHeader, ReassemblyBuffer, MAX_FRAG_PAYLOAD};

#[test]
fn test_fragment_header_roundtrip() {
    let hdr = FragmentHeader {
        dst_id: 0xAA,
        src_id: 0xBB,
        first_frag: true,
        last_frag: false,
        frag_index: 3,
        frame_id: 0xCC,
    };
    let encoded = hdr.encode();
    let decoded = FragmentHeader::decode(&encoded).unwrap();
    assert_eq!(decoded.dst_id, 0xAA);
    assert_eq!(decoded.src_id, 0xBB);
    assert!(decoded.first_frag);
    assert!(!decoded.last_frag);
    assert_eq!(decoded.frag_index, 3);
    assert_eq!(decoded.frame_id, 0xCC);
}

#[test]
fn test_decode_too_short() {
    assert!(FragmentHeader::decode(&[0; 3]).is_none());
}

#[test]
fn test_fragment_and_reassemble_small() {
    let data = b"hello sonic wifi!";
    let frags = fragment_eth_frame(data, 1, 2, 42);
    assert_eq!(frags.len(), 1);

    let mut reassembly = ReassemblyBuffer::default();
    let result = reassembly.add_fragment(&frags[0]);
    assert_eq!(result, Some(data.to_vec()));
}

#[test]
fn test_fragment_and_reassemble_large() {
    let data: Vec<u8> = (0..200u8).cycle().take(1500).collect();
    let frags = fragment_eth_frame(&data, 1, 2, 42);
    assert!(frags.len() > 1);

    let mut reassembly = ReassemblyBuffer::default();
    let mut result = None;
    for frag in &frags {
        result = reassembly.add_fragment(frag);
    }
    assert_eq!(result, Some(data));
}

#[test]
fn test_reassembly_incomplete() {
    let data = vec![0xAB; 1000];
    let frags = fragment_eth_frame(&data, 1, 2, 42);
    assert!(frags.len() >= 2);

    let mut reassembly = ReassemblyBuffer::default();
    assert!(reassembly.add_fragment(&frags[0]).is_none());
    assert!(reassembly.pending_count() > 0);
}

#[test]
fn test_out_of_order_fragments() {
    let data: Vec<u8> = (0..200u8).cycle().take(1500).collect();
    let mut frags = fragment_eth_frame(&data, 1, 2, 42);
    assert!(frags.len() >= 2);

    let last = frags.len() - 1;
    frags.swap(0, last);

    let mut reassembly = ReassemblyBuffer::default();
    let mut result = None;
    for frag in &frags {
        result = reassembly.add_fragment(frag);
    }
    assert_eq!(result, Some(data));
}

#[test]
fn test_max_node_id_in_header() {
    let hdr = FragmentHeader {
        dst_id: 0xFF,
        src_id: 0x7F,
        first_frag: false,
        last_frag: true,
        frag_index: 0x3F,
        frame_id: 0xFF,
    };
    let encoded = hdr.encode();
    let decoded = FragmentHeader::decode(&encoded).unwrap();
    assert_eq!(decoded.frag_index, 0x3F);
    assert!(!decoded.first_frag);
    assert!(decoded.last_frag);
}

/// The wire form of a header: ids, then first/last flags in the top bits
/// above the index, then the frame id.
#[test]
fn fragment_header_bytes() {
    let hdr = FragmentHeader {
        dst_id: 1,
        src_id: 2,
        first_frag: true,
        last_frag: true,
        frag_index: 5,
        frame_id: 9,
    };
    assert_eq!(hdr.encode(), [1, 2, 0xC5, 9]);
}

/// A 1500-byte frame splits into pieces of at most MAX_FRAG_PAYLOAD bytes,
/// each behind a 4-byte header, the first and last flagged.
#[test]
fn fragment_sizes_and_flags() {
    let data = vec![7u8; 1500];
    let frags = fragment_eth_frame(&data, 3, 4, 5);
    assert_eq!(frags.len(), 4);
    let mut total = 0;
    for (i, f) in frags.iter().enumerate() {
        let h = FragmentHeader::decode(f).unwrap();
        assert_eq!(h.frag_index as usize, i);
        assert_eq!(h.first_frag, i == 0);
        assert_eq!(h.last_frag, i == frags.len() - 1);
        assert_eq!((h.dst_id, h.src_id, h.frame_id), (3, 4, 5));
        assert!(f.len() - 4 <= MAX_FRAG_PAYLOAD);
        total += f.len() - 4;
    }
    assert_eq!(total, 1500);
    assert_eq!(frags[0].len(), 4 + MAX_FRAG_PAYLOAD);
}

/// Fragments of two interleaved frames from different senders are kept apart.
#[test]
fn reassembly_interleaved_senders() {
    let a: Vec<u8> = (0..900u32).map(|i| (i % 251) as u8).collect();
    let b: Vec<u8> = (0..900u32).map(|i| (i % 241) as u8).collect();
    let fa = fragment_eth_frame(&a, 9, 1, 7);
    let fb = fragment_eth_frame(&b, 9, 2, 7);
    let mut r = ReassemblyBuffer::default();
    assert!(r.add_fragment(&fa[0]).is_none());
    assert!(r.add_fragment(&fb[0]).is_none());
    assert_eq!(r.pending_count(), 2);
    assert!(r.add_fragment(&fa[1]).is_none());
    assert_eq!(r.add_fragment(&fa[2]), Some(a));
    assert_eq!(r.pending_count(), 1);
    assert!(r.add_fragment(&fb[1]).is_none());
    assert_eq!(r.add_fragment(&fb[2]), Some(b));
    assert_eq!(r.pending_count(), 0);
}

/// Too short a MAC frame is ignored.
#[test]
fn reassembly_ignores_short_frame() {
    let mut r = ReassemblyBuffer::default();
    assert!(r.add_fragment(&[1, 2, 3]).is_none());
    assert_eq!(r.pending_count(), 0);
}

fn mac_frame(src: u8, fid: u8, idx: u8, first: bool, last: bool) -> Vec<u8> {
    let h = FragmentHeader {
        dst_id: 9,
        src_id: src,
        first_frag: first,
        last_frag: last,
        frag_index: idx,
        frame_id: fid,
    };
    let mut f = h.encode().to_vec();
    f.push(idx);
    f
}

/// A group whose first index lies past its last never completes; once it
/// holds four times (last + 1) fragments, cleanup drops it and keeps the rest.
#[test]
fn cleanup_drops_only_stale_groups() {
    let mut r = ReassemblyBuffer::default();
    assert!(r.add_fragment(&mac_frame(1, 1, 5, true, false)).is_none());
    assert!(r.add_fragment(&mac_frame(1, 1, 0, false, true)).is_none());
    assert!(r.add_fragment(&mac_frame(1, 1, 1, false, false)).is_none());
    r.cleanup();
    assert_eq!(r.pending_count(), 1);
    assert!(r.add_fragment(&mac_frame(1, 1, 2, false, false)).is_none());
    assert!(r.add_fragment(&mac_frame(2, 1, 0, true, false)).is_none());
    assert_eq!(r.pending_count(), 2);
    r.cleanup();
    assert_eq!(r.pending_count(), 1);
    assert_eq!(r.add_fragment(&mac_frame(2, 1, 1, false, true)), Some(vec![0, 1]));
    assert_eq!(r.pending_count(), 0);
}
