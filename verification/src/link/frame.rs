//! Frame layer: `SYNC(8) | RS-encoded(header(4) | payload) | CRC-32(4)`.
//!
//! The CRC covers the sync pattern and the encoded blocks. The header holds a
//! 4-bit frame type, a 12-bit payload length and a 16-bit sequence number.
use vstd::prelude::*;
use crate::config::Config;
use crate::link::crc::{self, crc_matches, with_crc};
use crate::link::fec::{
    blocks_for,
    rs_codeword,
    padded_chunk,
    rs_decode_spec,
    rs_encode_spec,
    rs_message_stream,
    ReedSolomonFec,
};

verus! {

/// Byte `j` of the 8-byte sync pattern `AA 55 AA 55 AA 55 AA 55`.
pub open spec fn sync_byte(j: int) -> u8 {
    if j % 2 == 0 {
        0xAA
    } else {
        0x55
    }
}

pub open spec fn sync_pattern() -> Seq<u8> {
    Seq::new(8, |j: int| sync_byte(j))
}

fn sync_byte_exec(j: usize) -> (b: u8)
    ensures
        b == sync_byte(j as int),
{
    if j % 2 == 0 {
        0xAA
    } else {
        0x55
    }
}

/// The 4-byte frame header.
pub open spec fn frame_header(frame_type: u8, len: u16, seq: u16) -> Seq<u8> {
    seq![
        ((frame_type << 4u8) | ((len >> 8u16) as u8)) as u8,
        (len & 0xFFu16) as u8,
        ((seq >> 8u16) & 0xFFu16) as u8,
        (seq & 0xFFu16) as u8,
    ]
}

/// The bytes the assembler emits for a payload: sync, the RS codewords of
/// header and payload, and the CRC-32 of both.
pub open spec fn frame_spec(nsym: nat, frame_type: u8, seq: u16, payload: Seq<u8>) -> Seq<u8> {
    let body = frame_header(frame_type, payload.len() as u16, seq) + payload;
    with_crc(
        sync_pattern() + rs_encode_spec(
            nsym,
            body,
            blocks_for(body.len(), (255 - nsym) as nat),
        ),
    )
}

/// A parsed frame, as plain values.
pub struct FrameView {
    pub payload: Seq<u8>,
    pub frame_type: u8,
    pub sequence_number: u16,
    pub valid: bool,
}

#[derive(Clone, Debug)]
pub struct ParsedFrame {
    pub payload: Vec<u8>,
    pub frame_type: u8,
    pub sequence_number: u16,
    pub valid: bool,
}

impl View for ParsedFrame {
    type V = FrameView;

    open spec fn view(&self) -> FrameView {
        FrameView {
            payload: self.payload@,
            frame_type: self.frame_type,
            sequence_number: self.sequence_number,
            valid: self.valid,
        }
    }
}

/// The frame described by a decoded header-and-payload stream (at least 4
/// bytes). A length that runs past the stream gives an empty payload.
pub open spec fn frame_from_decoded(d: Seq<u8>, valid: bool) -> FrameView {
    let frame_type = ((d[0] >> 4u8) & 0x0Fu8) as u8;
    let len = ((((d[0] as u16) & 0x0Fu16) << 8u16) | (d[1] as u16)) as u16;
    let seq = (((d[2] as u16) << 8u16) | (d[3] as u16)) as u16;
    let end = 4 + len;
    FrameView {
        payload: if end <= d.len() {
            d.subrange(4, end)
        } else {
            seq![]
        },
        frame_type,
        sequence_number: seq,
        valid,
    }
}

/// Reading back a header written for a type below 16 and a length below 4096.
proof fn lemma_header_roundtrip(frame_type: u8, len: u16, seq: u16)
    requires
        frame_type < 16,
        len < 4096,
    ensures
        ({
            let h = frame_header(frame_type, len, seq);
            &&& ((h[0] >> 4u8) & 0x0Fu8) as u8 == frame_type
            &&& ((((h[0] as u16) & 0x0Fu16) << 8u16) | (h[1] as u16)) as u16 == len
            &&& (((h[2] as u16) << 8u16) | (h[3] as u16)) as u16 == seq
        }),
{
    let h0 = ((frame_type << 4u8) | ((len >> 8u16) as u8)) as u8;
    let h1 = (len & 0xFFu16) as u8;
    let h2 = ((seq >> 8u16) & 0xFFu16) as u8;
    let h3 = (seq & 0xFFu16) as u8;
    assert(((h0 >> 4u8) & 0x0Fu8) as u8 == frame_type) by (bit_vector)
        requires
            frame_type < 16,
            len < 4096,
            h0 == ((frame_type << 4u8) | ((len >> 8u16) as u8)) as u8,
    ;
    assert(((((h0 as u16) & 0x0Fu16) << 8u16) | (h1 as u16)) as u16 == len) by (bit_vector)
        requires
            frame_type < 16,
            len < 4096,
            h0 == ((frame_type << 4u8) | ((len >> 8u16) as u8)) as u8,
            h1 == (len & 0xFFu16) as u8,
    ;
    assert((((h2 as u16) << 8u16) | (h3 as u16)) as u16 == seq) by (bit_vector)
        requires
            h2 == ((seq >> 8u16) & 0xFFu16) as u8,
            h3 == (seq & 0xFFu16) as u8,
    ;
}

pub struct FrameAssembler {
    fec: ReedSolomonFec,
    sequence_number: u16,
}

impl FrameAssembler {
    /// Parity bytes per RS block.
    pub closed spec fn spec_nsym(&self) -> nat {
        self.fec.spec_nsym()
    }

    /// Sequence number of the next frame.
    pub closed spec fn next_sequence(&self) -> u16 {
        self.sequence_number
    }

    pub fn new(config: &Config) -> (a: Self)
        requires
            config.rs_nsym < 255,
        ensures
            a.spec_nsym() == config.rs_nsym,
            a.next_sequence() == 0,
            a.spec_nsym() < 255,
    {
        let fec = ReedSolomonFec::new(config.rs_nsym);
        Self { fec, sequence_number: 0 }
    }

    /// Frame a payload with frame type 0.
    pub fn assemble_frame(&mut self, payload: &[u8]) -> (frame: Vec<u8>)
        requires
            old(self).spec_nsym() < 255,
            12 + 255 * blocks_for(payload@.len() + 4, (255 - old(self).spec_nsym()) as nat)
                <= usize::MAX,
        ensures
            frame@ == frame_spec(old(self).spec_nsym(), 0, old(self).next_sequence(), payload@),
            frame@.len() == 12 + 255 * blocks_for(
                payload@.len() + 4,
                (255 - old(self).spec_nsym()) as nat,
            ),
            final(self).spec_nsym() == old(self).spec_nsym(),
            final(self).next_sequence() == old(self).next_sequence().wrapping_add(1),
    {
        self.assemble_frame_with_type(payload, 0)
    }

    /// Frame a payload: header (type in the top nibble, 12-bit length,
    /// sequence number), RS-encode header and payload, prefix the sync
    /// pattern and append the CRC-32. The sequence number then advances,
    /// wrapping at 65536.
    pub fn assemble_frame_with_type(&mut self, payload: &[u8], frame_type: u8) -> (frame: Vec<u8>)
        requires
            old(self).spec_nsym() < 255,
            12 + 255 * blocks_for(payload@.len() + 4, (255 - old(self).spec_nsym()) as nat)
                <= usize::MAX,
        ensures
            frame@ == frame_spec(
                old(self).spec_nsym(),
                frame_type,
                old(self).next_sequence(),
                payload@,
            ),
            frame@.len() == 12 + 255 * blocks_for(
                payload@.len() + 4,
                (255 - old(self).spec_nsym()) as nat,
            ),
            final(self).spec_nsym() == old(self).spec_nsym(),
            final(self).next_sequence() == old(self).next_sequence().wrapping_add(1),
    {
        let payload_len = #[verifier::truncate] (payload.len() as u16);
        let seq = self.sequence_number;
        self.sequence_number = self.sequence_number.wrapping_add(1);

        let mut to_encode: Vec<u8> = Vec::new();
        to_encode.push((frame_type << 4) | (#[verifier::truncate] ((payload_len >> 8) as u8)));
        to_encode.push(#[verifier::truncate] ((payload_len & 0xFF) as u8));
        to_encode.push(#[verifier::truncate] (((seq >> 8) & 0xFF) as u8));
        to_encode.push(#[verifier::truncate] ((seq & 0xFF) as u8));
        assert(to_encode@ =~= frame_header(frame_type, payload_len, seq));
        to_encode.extend_from_slice(payload);

        let encoded = self.fec.encode(to_encode.as_slice());

        let mut frame: Vec<u8> = Vec::new();
        let mut j: usize = 0;
        while j < 8
            invariant
                j <= 8,
                frame@ =~= sync_pattern().take(j as int),
            decreases 8 - j,
        {
            frame.push(sync_byte_exec(j));
            j = j + 1;
        }
        assert(frame@ =~= sync_pattern());
        frame.extend_from_slice(encoded.as_slice());
        assert(payload_len == payload@.len() as u16);
        assert(to_encode@ =~= frame_header(frame_type, payload@.len() as u16, seq) + payload@);
        assert(frame@ == sync_pattern() + rs_encode_spec(
            self.fec.spec_nsym(),
            to_encode@,
            blocks_for(to_encode@.len(), (255 - self.fec.spec_nsym()) as nat),
        ));
        crc::compute_and_append_crc(&mut frame);
        frame
    }
}

/// Number of positions `j` in `from..8` where `buf[i + j]` equals the sync
/// pattern.
pub open spec fn sync_matches_from(buf: Seq<u8>, i: int, from: int) -> nat
    decreases 8 - from,
{
    if from >= 8 {
        0
    } else {
        (if buf[i + from] == sync_byte(from) {
            1nat
        } else {
            0nat
        }) + sync_matches_from(buf, i, from + 1)
    }
}

/// The first offset `>= i` at which at least 4 of the 8 sync bytes match.
pub open spec fn first_sync_from(buf: Seq<u8>, i: int) -> Option<int>
    decreases buf.len() - i,
{
    if i < 0 || i + 8 > buf.len() {
        None
    } else if sync_matches_from(buf, i, 0) >= 4 {
        Some(i)
    } else {
        first_sync_from(buf, i + 1)
    }
}

/// Where the parser takes a frame to start: the first offset at which at
/// least 4 of the 8 sync bytes match.
pub open spec fn find_sync_spec(buf: Seq<u8>) -> Option<int> {
    first_sync_from(buf, 0)
}

proof fn lemma_first_sync_bounds(buf: Seq<u8>, i: int)
    requires
        0 <= i,
    ensures
        first_sync_from(buf, i) matches Some(k) ==> i <= k && k + 8 <= buf.len(),
    decreases buf.len() - i,
{
    if i + 8 <= buf.len() && sync_matches_from(buf, i, 0) < 4 {
        lemma_first_sync_bounds(buf, i + 1);
    }
}

/// An intact sync pattern at the start is found at offset 0.
proof fn lemma_sync_at_start(buf: Seq<u8>)
    requires
        buf.len() >= 8,
        buf.take(8) == sync_pattern(),
    ensures
        find_sync_spec(buf) == Some(0int),
{
    assert forall|j: int| 0 <= j < 8 implies buf[0 + j] == sync_byte(j) by {
        assert(buf.take(8)[j] == sync_pattern()[j]);
    }
    assert(sync_matches_from(buf, 0, 8) == 0);
    assert(sync_matches_from(buf, 0, 7) == 1);
    assert(sync_matches_from(buf, 0, 6) == 2);
    assert(sync_matches_from(buf, 0, 5) == 3);
    assert(sync_matches_from(buf, 0, 4) == 4);
    assert(sync_matches_from(buf, 0, 0) >= 4) by {
        assert(sync_matches_from(buf, 0, 3) >= 4);
        assert(sync_matches_from(buf, 0, 2) >= 4);
        assert(sync_matches_from(buf, 0, 1) >= 4);
    }
}


/// Outcome of trying to cut one frame from the front of the buffer.
pub struct Extraction {
    pub frame: Option<FrameView>,
    /// Bytes taken from the buffer when a frame was cut.
    pub consumed: nat,
    /// 1 when the frame cut was accepted only after FEC correction (its
    /// received CRC did not match), else 0.
    pub crc_fails: nat,
    /// Frames accepted through the FEC path with a block left uncorrected.
    pub fec_fails: nat,
}

/// Try candidate frames of `n, n + 1, ..., max_blocks` RS blocks at the
/// front of `buf`, in that order. A candidate is accepted when its received
/// CRC matches, or else when the CRC matches after FEC-correcting and
/// re-encoding its blocks; the first accepted candidate wins.
pub open spec fn extract_at(
    nsym: nat,
    max_blocks: nat,
    buf: Seq<u8>,
    n: nat,
    crc_fails: nat,
) -> Extraction
    decreases max_blocks + 1 - n,
{
    if n == 0 || n > max_blocks || 8 + 255 * n + 4 > buf.len() {
        Extraction { frame: None, consumed: 0, crc_fails, fec_fails: 0 }
    } else {
        let data_end = 8 + 255 * n;
        let full_end = data_end + 4;
        let region = buf.subrange(0, data_end as int);
        let crc_bytes = buf.subrange(data_end as int, full_end as int);
        let decoded = rs_decode_spec(nsym, buf.subrange(8, data_end as int), n);
        if crc_matches(region, crc_bytes) {
            if decoded.0.len() >= 4 {
                Extraction {
                    frame: Some(frame_from_decoded(decoded.0, true)),
                    consumed: full_end as nat,
                    crc_fails,
                    fec_fails: 0,
                }
            } else {
                extract_at(nsym, max_blocks, buf, n + 1, crc_fails)
            }
        } else if decoded.0.len() >= 4 && crc_matches(
            buf.subrange(0, 8) + rs_encode_spec(
                nsym,
                decoded.0,
                blocks_for(decoded.0.len(), (255 - nsym) as nat),
            ),
            crc_bytes,
        ) {
            Extraction {
                frame: Some(frame_from_decoded(decoded.0, decoded.1)),
                consumed: full_end as nat,
                crc_fails: crc_fails + 1,
                fec_fails: if decoded.1 {
                    0
                } else {
                    1
                },
            }
        } else {
            extract_at(nsym, max_blocks, buf, n + 1, crc_fails)
        }
    }
}

/// Extraction at the front of a buffer that starts at a sync position.
pub open spec fn try_extract_spec(nsym: nat, max_blocks: nat, buf: Seq<u8>) -> Extraction {
    if buf.len() < 12 {
        Extraction { frame: None, consumed: 0, crc_fails: 0, fec_fails: 0 }
    } else {
        extract_at(nsym, max_blocks, buf, 1, 0)
    }
}

proof fn lemma_extract_bounds(nsym: nat, max_blocks: nat, buf: Seq<u8>, n: nat, crc_fails: nat)
    ensures
        ({
            let e = extract_at(nsym, max_blocks, buf, n, crc_fails);
            &&& e.frame is Some ==> 0 < e.consumed <= buf.len()
            &&& e.frame is None ==> e.consumed == 0 && e.fec_fails == 0
            &&& e.fec_fails <= 1
            &&& crc_fails <= e.crc_fails
            &&& e.crc_fails <= crc_fails + 1
            &&& e.frame is None ==> e.crc_fails == crc_fails
            &&& e.fec_fails == (if e.frame is Some && !e.frame->Some_0.valid { 1nat } else { 0nat })
        }),
    decreases max_blocks + 1 - n,
{
    if n == 0 || n > max_blocks || 8 + 255 * n + 4 > buf.len() {
    } else {
        lemma_extract_bounds(nsym, max_blocks, buf, n + 1, crc_fails);
    }
}

/// The payload length written in a decoded header.
pub open spec fn header_len(d: Seq<u8>) -> nat {
    ((((d[0] as u16) & 0x0Fu16) << 8u16) | (d[1] as u16)) as u16 as nat
}

/// The RS blocks that the header at the front of `buf` (a sync position)
/// announces, read from its first block when that block is an intact
/// codeword, kept between 1 and `max_blocks` (1 when `max_blocks` is 0); 1
/// otherwise. Only an intact block is believed: RS codes are cyclic, so a
/// block read a few bytes off a real frame (a false sync position) still
/// decodes, to a meaningless header.
pub open spec fn announced_blocks(nsym: nat, max_blocks: nat, buf: Seq<u8>) -> nat {
    let blk = buf.subrange(8, 263);
    let r = rs_decode_spec(nsym, blk, 1);
    let n = if r.1 && rs_encode_spec(nsym, r.0, 1) == blk {
        blocks_for(4 + header_len(r.0), (255 - nsym) as nat)
    } else {
        1
    };
    let m = if n > max_blocks {
        max_blocks
    } else {
        n
    };
    if m < 1 {
        1
    } else {
        m
    }
}

/// The bytes from a sync position on that the frame there takes by its own
/// header; before its first block is in, those of a one-block frame.
pub open spec fn frame_need(nsym: nat, max_blocks: nat, buf: Seq<u8>) -> nat {
    if buf.len() < 263 {
        267
    } else {
        12 + 255 * announced_blocks(nsym, max_blocks, buf)
    }
}

/// Everything one call of the parser's loop produces.
pub struct ParseOutcome {
    pub frames: Seq<FrameView>,
    /// What stays buffered for the next call.
    pub rest: Seq<u8>,
    pub crc_fails: nat,
    pub fec_fails: nat,
}

/// The parser's loop over its buffer: find the first sync position, drop
/// what precedes it and try to cut a frame there. After a frame, go on with
/// what follows it. When none can be cut: if the bytes from the sync
/// position on hold the whole frame its header announces (`frame_need`),
/// it is rejected: count a CRC failure, drop one byte and retry; with fewer,
/// keep them and wait for more. With no sync position left, keep only the
/// last 12 bytes.
pub open spec fn parse_spec(nsym: nat, max_blocks: nat, buf: Seq<u8>) -> ParseOutcome
    decreases buf.len(),
{
    match find_sync_spec(buf) {
        Some(idx) => {
            if 0 <= idx <= buf.len() {
                let b1 = buf.skip(idx);
                let e = try_extract_spec(nsym, max_blocks, b1);
                match e.frame {
                    Some(f) => {
                        if 0 < e.consumed <= b1.len() {
                            let r = parse_spec(nsym, max_blocks, b1.skip(e.consumed as int));
                            ParseOutcome {
                                frames: seq![f] + r.frames,
                                rest: r.rest,
                                crc_fails: e.crc_fails + r.crc_fails,
                                fec_fails: e.fec_fails + r.fec_fails,
                            }
                        } else {
                            ParseOutcome {
                                frames: seq![f],
                                rest: b1,
                                crc_fails: e.crc_fails,
                                fec_fails: e.fec_fails,
                            }
                        }
                    },
                    None => {
                        if b1.len() >= frame_need(nsym, max_blocks, b1) {
                            let r = parse_spec(nsym, max_blocks, b1.skip(1));
                            ParseOutcome {
                                frames: r.frames,
                                rest: r.rest,
                                crc_fails: e.crc_fails + 1 + r.crc_fails,
                                fec_fails: e.fec_fails + r.fec_fails,
                            }
                        } else {
                            ParseOutcome {
                                frames: seq![],
                                rest: b1,
                                crc_fails: e.crc_fails,
                                fec_fails: e.fec_fails,
                            }
                        }
                    },
                }
            } else {
                ParseOutcome { frames: seq![], rest: buf, crc_fails: 0, fec_fails: 0 }
            }
        },
        None => {
            if buf.len() > 12 {
                ParseOutcome {
                    frames: seq![],
                    rest: buf.skip(buf.len() - 12),
                    crc_fails: 0,
                    fec_fails: 0,
                }
            } else {
                ParseOutcome { frames: seq![], rest: buf, crc_fails: 0, fec_fails: 0 }
            }
        },
    }
}

/// Number of frames marked valid.
pub open spec fn count_valid(frames: Seq<FrameView>) -> nat
    decreases frames.len(),
{
    if frames.len() == 0 {
        0
    } else {
        count_valid(frames.drop_last()) + if frames.last().valid {
            1nat
        } else {
            0nat
        }
    }
}

/// The views of a sequence of parsed frames.
pub open spec fn frame_views(frames: Seq<ParsedFrame>) -> Seq<FrameView> {
    Seq::new(frames.len(), |i: int| frames[i]@)
}

/// Whether `buf` starts with a complete single-block frame of this payload.
pub open spec fn starts_with_frame(
    buf: Seq<u8>,
    nsym: nat,
    frame_type: u8,
    seq: u16,
    payload: Seq<u8>,
) -> bool {
    &&& nsym < 255
    &&& frame_type < 16
    &&& payload.len() + 4 <= 255 - nsym
    &&& buf.len() >= 267
    &&& buf.take(267) == frame_spec(nsym, frame_type, seq, payload)
}

/// The frame a parser should return for a single-block frame of this
/// payload.
pub open spec fn expected_frame(frame_type: u8, seq: u16, payload: Seq<u8>) -> FrameView {
    FrameView { payload, frame_type, sequence_number: seq, valid: true }
}

/// The header-and-payload stream of a frame.
pub open spec fn frame_body(frame_type: u8, seq: u16, payload: Seq<u8>) -> Seq<u8> {
    frame_header(frame_type, payload.len() as u16, seq) + payload
}

/// The parts of a buffer that starts with a single-block frame.
proof fn lemma_frame_parts(buf: Seq<u8>, nsym: nat, frame_type: u8, seq: u16, payload: Seq<u8>)
    requires
        starts_with_frame(buf, nsym, frame_type, seq, payload),
    ensures
        ({
            let body = frame_body(frame_type, seq, payload);
            let k = (255 - nsym) as nat;
            &&& blocks_for(body.len(), k) == 1
            &&& buf.subrange(8, 263) == rs_encode_spec(nsym, body, 1)
            &&& crc_matches(buf.subrange(0, 263), buf.subrange(263, 267))
            &&& buf.subrange(0, 8) == sync_pattern()
        }),
{
    let body = frame_body(frame_type, seq, payload);
    let k = (255 - nsym) as nat;
    assert(body.len() == 4 + payload.len());
    assert(blocks_for(body.len(), k) == 1) by {
        assert((body.len() + k - 1) / (k as int) == 1) by {
            vstd::arithmetic::div_mod::lemma_fundamental_div_mod_converse(
                (body.len() + k - 1) as int,
                k as int,
                1,
                (body.len() - 1) as int,
            );
        }
    }
    let enc = rs_encode_spec(nsym, body, 1);
    crate::link::fec::lemma_rs_encode_len(nsym, body, 1);
    let region = sync_pattern() + enc;
    let fr = frame_spec(nsym, frame_type, seq, payload);
    assert(fr == region + crc::be_bytes(crc::crc32_iso_hdlc(region)));
    assert(buf.take(267) == fr);
    assert(buf.subrange(0, 263) =~= region) by {
        assert forall|i: int| 0 <= i < 263 implies buf.subrange(0, 263)[i] == region[i] by {
            assert(buf.take(267)[i] == fr[i]);
        }
    }
    assert(buf.subrange(263, 267) =~= crc::be_bytes(crc::crc32_iso_hdlc(region))) by {
        assert forall|i: int| 0 <= i < 4 implies buf.subrange(263, 267)[i] == crc::be_bytes(
            crc::crc32_iso_hdlc(region),
        )[i] by {
            assert(buf.take(267)[263 + i] == fr[263 + i]);
        }
    }
    assert(buf.subrange(8, 263) =~= enc) by {
        assert forall|i: int| 0 <= i < 255 implies buf.subrange(8, 263)[i] == enc[i] by {
            assert(buf.subrange(0, 263)[8 + i] == region[8 + i]);
        }
    }
    assert(buf.subrange(0, 8) =~= sync_pattern()) by {
        assert forall|i: int| 0 <= i < 8 implies buf.subrange(0, 8)[i] == sync_pattern()[i] by {
            assert(buf.subrange(0, 263)[i] == region[i]);
        }
    }
    crc::lemma_crc_bytes_verify(region);
}

/// A buffer that starts with a single-block frame gives that frame back,
/// provided its block decodes to the frame's message.
proof fn lemma_extract_frame(
    buf: Seq<u8>,
    nsym: nat,
    max_blocks: nat,
    frame_type: u8,
    seq: u16,
    payload: Seq<u8>,
)
    requires
        starts_with_frame(buf, nsym, frame_type, seq, payload),
        max_blocks >= 1,
        rs_decode_spec(nsym, buf.subrange(8, 263), 1) == (
            rs_message_stream(nsym, frame_body(frame_type, seq, payload), 1),
            true,
        ),
    ensures
        try_extract_spec(nsym, max_blocks, buf) == (Extraction {
            frame: Some(expected_frame(frame_type, seq, payload)),
            consumed: 267,
            crc_fails: 0,
            fec_fails: 0,
        }),
{
    lemma_frame_parts(buf, nsym, frame_type, seq, payload);
    let body = frame_body(frame_type, seq, payload);
    let k = (255 - nsym) as nat;
    let d = rs_message_stream(nsym, body, 1);
    assert(d.len() == k);
    lemma_header_roundtrip(frame_type, payload.len() as u16, seq);
    assert(payload.len() as u16 == payload.len());
    assert(d[0] == body[0] && d[1] == body[1] && d[2] == body[2] && d[3] == body[3]);
    assert(d.subrange(4, 4 + payload.len() as int) =~= payload);
    assert(frame_from_decoded(d, true) == expected_frame(frame_type, seq, payload));
}

/// A frame that has only partly arrived is kept whole: parsing any proper
/// prefix of a one-block frame yields no frame, counts no failure and keeps
/// every byte, so the frame is cut once its remaining bytes are fed.
pub proof fn lemma_partial_frame_waits(
    frame: Seq<u8>,
    nsym: nat,
    max_blocks: nat,
    frame_type: u8,
    seq: u16,
    payload: Seq<u8>,
    k: nat,
)
    requires
        starts_with_frame(frame, nsym, frame_type, seq, payload),
        frame.len() == 267,
        k < 267,
    ensures
        parse_spec(nsym, max_blocks, frame.take(k as int)) == (ParseOutcome {
            frames: seq![],
            rest: frame.take(k as int),
            crc_fails: 0,
            fec_fails: 0,
        }),
{
    lemma_frame_parts(frame, nsym, frame_type, seq, payload);
    let p = frame.take(k as int);
    if k >= 8 {
        assert(p.take(8) =~= frame.subrange(0, 8));
        lemma_sync_at_start(p);
        assert(p.skip(0) =~= p);
        let e = try_extract_spec(nsym, max_blocks, p);
        assert(e.frame is None && e.crc_fails == 0 && e.fec_fails == 0);
    } else {
        assert(find_sync_spec(p) is None);
    }
}

/// RS blocks of the frame that carries this payload.
pub open spec fn frame_blocks(nsym: nat, frame_type: u8, seq: u16, payload: Seq<u8>) -> nat {
    blocks_for(frame_body(frame_type, seq, payload).len(), (255 - nsym) as nat)
}

/// Whether the candidate of `n` blocks at the front of `buf` is turned away:
/// its received CRC does not match, nor does the CRC of its FEC-corrected,
/// re-encoded blocks.
pub open spec fn candidate_rejected(nsym: nat, buf: Seq<u8>, n: nat) -> bool {
    let data_end = 8 + 255 * n;
    let crc_bytes = buf.subrange(data_end as int, data_end + 4int);
    let decoded = rs_decode_spec(nsym, buf.subrange(8, data_end as int), n);
    &&& !crc_matches(buf.subrange(0, data_end as int), crc_bytes)
    &&& !(decoded.0.len() >= 4 && crc_matches(
        buf.subrange(0, 8) + rs_encode_spec(
            nsym,
            decoded.0,
            blocks_for(decoded.0.len(), (255 - nsym) as nat),
        ),
        crc_bytes,
    ))
}

/// The premises of `lemma_parse_assembled_frame` and the laws built on it:
/// at most 170 parity bytes, a type below 16, a payload below 4096 bytes, a
/// frame of at most `max_blocks` blocks whose blocks (and first block alone)
/// decode to their messages, and no shorter candidate at its front accepted
/// by a coincident CRC.
pub open spec fn assembled_frame_parses(
    nsym: nat,
    max_blocks: nat,
    frame_type: u8,
    seq: u16,
    payload: Seq<u8>,
) -> bool {
    let k = frame_blocks(nsym, frame_type, seq, payload);
    let frame = frame_spec(nsym, frame_type, seq, payload);
    &&& nsym <= 170
    &&& frame_type < 16
    &&& payload.len() < 4096
    &&& k <= max_blocks
    &&& rs_decode_spec(nsym, frame.subrange(8, 8 + 255 * (k as int)), k) == (
        rs_message_stream(nsym, frame_body(frame_type, seq, payload), k),
        true,
    )
    &&& rs_decode_spec(nsym, frame.subrange(8, 263), 1) == (
        rs_message_stream(nsym, frame_body(frame_type, seq, payload), 1),
        true,
    )
    &&& forall|n: nat| 1 <= n < k ==> #[trigger] candidate_rejected(nsym, frame, n)
}

/// The layout of an assembled frame of `k` blocks: sync pattern, the
/// codewords of header and payload, then the CRC-32 of both.
proof fn lemma_assembled_parts(nsym: nat, frame_type: u8, seq: u16, payload: Seq<u8>)
    requires
        nsym < 255,
    ensures
        ({
            let k = frame_blocks(nsym, frame_type, seq, payload);
            let body = frame_body(frame_type, seq, payload);
            let frame = frame_spec(nsym, frame_type, seq, payload);
            &&& k >= 1
            &&& k * (255 - nsym) >= body.len()
            &&& frame.len() == 12 + 255 * (k as int)
            &&& frame.subrange(0, 8) == sync_pattern()
            &&& frame.subrange(8, 8 + 255 * (k as int)) == rs_encode_spec(nsym, body, k)
            &&& crc_matches(frame.subrange(0, 8 + 255 * (k as int)), frame.subrange(8 + 255 * (k as int), 12 + 255 * (k as int)))
        }),
{
    let k = frame_blocks(nsym, frame_type, seq, payload);
    let kk = (255 - nsym) as nat;
    let body = frame_body(frame_type, seq, payload);
    let frame = frame_spec(nsym, frame_type, seq, payload);
    crate::link::fec::lemma_blocks_for(body.len(), kk);
    vstd::arithmetic::div_mod::lemma_fundamental_div_mod(body.len() as int, kk as int);
    assert(body.len() == 4 + payload.len());
    assert(k * kk >= body.len() && k >= 1) by (nonlinear_arith)
        requires
            kk > 0,
            body.len() >= 4,
            body.len() == kk * (body.len() / kk) + body.len() % kk,
            0 <= body.len() % kk < kk,
            k == body.len() / kk + (if body.len() % kk == 0 { 0int } else { 1int }),
    ;
    let enc = rs_encode_spec(nsym, body, k);
    crate::link::fec::lemma_rs_encode_len(nsym, body, k);
    let region = sync_pattern() + enc;
    assert(frame == region + crc::be_bytes(crc::crc32_iso_hdlc(region)));
    assert(frame.subrange(0, 8 + 255 * (k as int)) =~= region);
    assert(frame.subrange(8 + 255 * (k as int), 12 + 255 * (k as int)) =~= crc::be_bytes(crc::crc32_iso_hdlc(region)));
    assert(frame.subrange(8, 8 + 255 * (k as int)) =~= enc);
    assert(frame.subrange(0, 8) =~= sync_pattern());
    crc::lemma_crc_bytes_verify(region);
}

/// The decoded message stream of an assembled frame describes that frame.
proof fn lemma_decoded_describes(nsym: nat, frame_type: u8, seq: u16, payload: Seq<u8>, k: nat)
    requires
        nsym < 255,
        frame_type < 16,
        payload.len() < 4096,
        k * (255 - nsym) >= 4 + payload.len(),
    ensures
        rs_message_stream(nsym, frame_body(frame_type, seq, payload), k).len() >= 4,
        frame_from_decoded(rs_message_stream(nsym, frame_body(frame_type, seq, payload), k), true)
            == expected_frame(frame_type, seq, payload),
{
    let body = frame_body(frame_type, seq, payload);
    let d = rs_message_stream(nsym, body, k);
    assert(d.len() == k * (255 - nsym));
    lemma_header_roundtrip(frame_type, payload.len() as u16, seq);
    assert(payload.len() as u16 == payload.len());
    assert(d[0] == body[0] && d[1] == body[1] && d[2] == body[2] && d[3] == body[3]);
    assert(d.subrange(4, 4 + payload.len() as int) =~= payload);
}

/// A window of a concatenation that lies in its first part.
proof fn lemma_front_window(a: Seq<u8>, b: Seq<u8>, i: int, j: int)
    requires
        0 <= i <= j <= a.len(),
    ensures
        (a + b).subrange(i, j) == a.subrange(i, j),
{
    assert((a + b).subrange(i, j) =~= a.subrange(i, j));
}

/// One candidate at the front of `buf`, given its pieces: a candidate
/// turned away passes extraction on to the next one, and an accepted one
/// with a matching received CRC is cut.
proof fn lemma_extract_step(nsym: nat, max_blocks: nat, buf: Seq<u8>, n: nat, crc_fails: nat)
    requires
        1 <= n <= max_blocks,
        12 + 255 * n <= buf.len(),
    ensures
        candidate_rejected(nsym, buf, n) ==> extract_at(nsym, max_blocks, buf, n, crc_fails)
            == extract_at(nsym, max_blocks, buf, n + 1, crc_fails),
        ({
            let data_end = 8 + 255 * n;
            let decoded = rs_decode_spec(nsym, buf.subrange(8, data_end as int), n);
            crc_matches(buf.subrange(0, data_end as int), buf.subrange(data_end as int, data_end + 4int))
                && decoded.0.len() >= 4 ==> extract_at(nsym, max_blocks, buf, n, crc_fails) == (
            Extraction {
                frame: Some(frame_from_decoded(decoded.0, true)),
                consumed: 12 + 255 * n,
                crc_fails,
                fec_fails: 0,
            })
        }),
{
}

/// Extraction over the candidates from `n` blocks on, at the front of an
/// assembled frame followed by `rest`.
#[verifier::spinoff_prover]
proof fn lemma_extract_assembled(
    nsym: nat,
    max_blocks: nat,
    frame_type: u8,
    seq: u16,
    payload: Seq<u8>,
    rest: Seq<u8>,
    n: nat,
)
    requires
        assembled_frame_parses(nsym, max_blocks, frame_type, seq, payload),
        1 <= n <= frame_blocks(nsym, frame_type, seq, payload),
    ensures
        extract_at(
            nsym,
            max_blocks,
            frame_spec(nsym, frame_type, seq, payload) + rest,
            n,
            0,
        ) == (Extraction {
            frame: Some(expected_frame(frame_type, seq, payload)),
            consumed: 12 + 255 * frame_blocks(nsym, frame_type, seq, payload),
            crc_fails: 0,
            fec_fails: 0,
        }),
    decreases frame_blocks(nsym, frame_type, seq, payload) - n,
{
    let k = frame_blocks(nsym, frame_type, seq, payload);
    let frame = frame_spec(nsym, frame_type, seq, payload);
    let buf = frame + rest;
    lemma_assembled_parts(nsym, frame_type, seq, payload);
    let data_end = 8 + 255 * n;
    lemma_front_window(frame, rest, 0, data_end as int);
    lemma_front_window(frame, rest, data_end as int, data_end + 4int);
    lemma_front_window(frame, rest, 8, data_end as int);
    lemma_front_window(frame, rest, 0, 8);
    lemma_extract_step(nsym, max_blocks, buf, n, 0);
    if n == k {
        lemma_decoded_describes(nsym, frame_type, seq, payload, k);
    } else {
        assert(candidate_rejected(nsym, frame, n));
        assert(candidate_rejected(nsym, buf, n));
        lemma_extract_assembled(nsym, max_blocks, frame_type, seq, payload, rest, n + 1);
    }
}

/// A frame as the assembler builds it, of any number of blocks, is parsed
/// back with its type, sequence number and payload, and parsing goes on with
/// the bytes after it. Left out: frames on which a shorter candidate at the
/// front passes a CRC check by coincidence, and RS decoding that changes a
/// codeword (which `rs_correct_block` reports it does not).
pub proof fn lemma_parse_assembled_frame(
    nsym: nat,
    max_blocks: nat,
    frame_type: u8,
    seq: u16,
    payload: Seq<u8>,
    rest: Seq<u8>,
)
    requires
        assembled_frame_parses(nsym, max_blocks, frame_type, seq, payload),
    ensures
        ({
            let r = parse_spec(nsym, max_blocks, rest);
            let k = frame_blocks(nsym, frame_type, seq, payload);
            parse_spec(nsym, max_blocks, frame_spec(nsym, frame_type, seq, payload) + rest) == (
            ParseOutcome {
                frames: seq![expected_frame(frame_type, seq, payload)] + r.frames,
                rest: r.rest,
                crc_fails: r.crc_fails,
                fec_fails: r.fec_fails,
            })
        }),
{
    let k = frame_blocks(nsym, frame_type, seq, payload);
    let frame = frame_spec(nsym, frame_type, seq, payload);
    let buf = frame + rest;
    lemma_assembled_parts(nsym, frame_type, seq, payload);
    assert(buf.take(8) =~= frame.subrange(0, 8));
    lemma_sync_at_start(buf);
    assert(buf.skip(0) =~= buf);
    lemma_extract_assembled(nsym, max_blocks, frame_type, seq, payload, rest, 1);
    assert(buf.skip(12 + 255 * (k as int)) =~= rest);
}

/// Extraction over the candidates from `n` blocks on, at the front of a
/// proper prefix of an assembled frame: every candidate that fits is one of
/// the shorter ones, which are turned away, so none is cut.
proof fn lemma_extract_prefix(
    nsym: nat,
    max_blocks: nat,
    frame_type: u8,
    seq: u16,
    payload: Seq<u8>,
    m: nat,
    n: nat,
)
    requires
        assembled_frame_parses(nsym, max_blocks, frame_type, seq, payload),
        m < frame_spec(nsym, frame_type, seq, payload).len(),
        1 <= n <= frame_blocks(nsym, frame_type, seq, payload),
    ensures
        extract_at(
            nsym,
            max_blocks,
            frame_spec(nsym, frame_type, seq, payload).take(m as int),
            n,
            0,
        ) == (Extraction { frame: None, consumed: 0, crc_fails: 0, fec_fails: 0 }),
    decreases frame_blocks(nsym, frame_type, seq, payload) - n,
{
    let k = frame_blocks(nsym, frame_type, seq, payload);
    let frame = frame_spec(nsym, frame_type, seq, payload);
    let p = frame.take(m as int);
    lemma_assembled_parts(nsym, frame_type, seq, payload);
    if n == 0 || n > max_blocks || 8 + 255 * n + 4 > p.len() {
    } else {
        assert(n < k);
        let data_end = 8 + 255 * n;
        assert(p.subrange(0, data_end as int) =~= frame.subrange(0, data_end as int));
        assert(p.subrange(data_end as int, data_end + 4int) =~= frame.subrange(
            data_end as int,
            data_end + 4int,
        ));
        assert(p.subrange(8, data_end as int) =~= frame.subrange(8, data_end as int));
        assert(p.subrange(0, 8) =~= frame.subrange(0, 8));
        assert(candidate_rejected(nsym, frame, n));
        assert(candidate_rejected(nsym, p, n));
        lemma_extract_step(nsym, max_blocks, p, n, 0);
        lemma_extract_prefix(nsym, max_blocks, frame_type, seq, payload, m, n + 1);
    }
}

/// The header in the first block of an assembled frame announces the
/// frame's own number of blocks.
proof fn lemma_announced_blocks(
    nsym: nat,
    max_blocks: nat,
    frame_type: u8,
    seq: u16,
    payload: Seq<u8>,
)
    requires
        assembled_frame_parses(nsym, max_blocks, frame_type, seq, payload),
    ensures
        ({
            let frame = frame_spec(nsym, frame_type, seq, payload);
            let k = frame_blocks(nsym, frame_type, seq, payload);
            rs_encode_spec(nsym, rs_decode_spec(nsym, frame.subrange(8, 263), 1).0, 1)
                == frame.subrange(8, 263)
                && rs_decode_spec(nsym, frame.subrange(8, 263), 1).0.len() >= 2
                && blocks_for(
                4 + header_len(rs_decode_spec(nsym, frame.subrange(8, 263), 1).0),
                (255 - nsym) as nat,
            ) == k
        }),
{
    lemma_assembled_parts(nsym, frame_type, seq, payload);
    let body = frame_body(frame_type, seq, payload);
    let kk = (255 - nsym) as nat;
    let d = rs_message_stream(nsym, body, 1);
    assert(1 * kk == kk);
    assert(d == padded_chunk(body, 0, kk));
    let k = frame_blocks(nsym, frame_type, seq, payload);
    let frame = frame_spec(nsym, frame_type, seq, payload);
    crate::link::fec::lemma_rs_encode_block(nsym, body, k, 0);
    assert(frame.subrange(8, 263) =~= frame.subrange(8, 8 + 255 * (k as int)).subrange(0, 255));
    assert(padded_chunk(d, 0, kk) =~= d);
    assert(rs_encode_spec(nsym, d, 0) == Seq::<u8>::empty());
    assert((1 - 1) * kk == 0);
    assert(rs_encode_spec(nsym, d, 1) == rs_encode_spec(nsym, d, 0) + rs_codeword(
        nsym,
        padded_chunk(d, 0, kk),
    ));
    assert(rs_encode_spec(nsym, d, 1) =~= rs_codeword(nsym, d));
    assert(body.len() == 4 + payload.len());
    assert(d[0] == body[0] && d[1] == body[1]);
    lemma_header_roundtrip(frame_type, payload.len() as u16, seq);
    assert(payload.len() as u16 == payload.len());
    assert(header_len(d) == payload.len());
}

/// A frame as the assembler builds it, of any number of blocks, that has
/// only partly arrived is kept whole: parsing any proper prefix of it yields
/// no frame, counts no failure and keeps every byte (its header, once in,
/// announces the whole frame, which has not arrived yet).
pub proof fn lemma_assembled_prefix_waits(
    nsym: nat,
    max_blocks: nat,
    frame_type: u8,
    seq: u16,
    payload: Seq<u8>,
    m: nat,
)
    requires
        assembled_frame_parses(nsym, max_blocks, frame_type, seq, payload),
        m < frame_spec(nsym, frame_type, seq, payload).len(),
    ensures
        ({
            let p = frame_spec(nsym, frame_type, seq, payload).take(m as int);
            parse_spec(nsym, max_blocks, p) == (ParseOutcome {
                frames: seq![],
                rest: p,
                crc_fails: 0,
                fec_fails: 0,
            })
        }),
{
    let k = frame_blocks(nsym, frame_type, seq, payload);
    let frame = frame_spec(nsym, frame_type, seq, payload);
    let p = frame.take(m as int);
    lemma_assembled_parts(nsym, frame_type, seq, payload);
    if m >= 8 {
        assert(p.take(8) =~= frame.subrange(0, 8));
        lemma_sync_at_start(p);
        assert(p.skip(0) =~= p);
        if m >= 12 {
            lemma_extract_prefix(nsym, max_blocks, frame_type, seq, payload, m, 1);
        }
        let e = try_extract_spec(nsym, max_blocks, p);
        assert(e.frame is None && e.crc_fails == 0 && e.fec_fails == 0);
        if m >= 263 {
            assert(p.subrange(8, 263) =~= frame.subrange(8, 263));
            lemma_announced_blocks(nsym, max_blocks, frame_type, seq, payload);
        }
        assert(p.len() < frame_need(nsym, max_blocks, p));
    } else {
        assert(find_sync_spec(p) is None);
    }
}

/// A frame as the assembler builds it, fed in two pieces split anywhere
/// inside it, parses as if fed whole: the first piece yields no frame and no
/// failure and stays buffered whole, so the call with the second piece (and
/// whatever follows the frame) sees the whole frame and gives it back. Fed
/// in more pieces, every split is such a split.
pub proof fn lemma_chunked_frame(
    nsym: nat,
    max_blocks: nat,
    frame_type: u8,
    seq: u16,
    payload: Seq<u8>,
    m: nat,
    rest: Seq<u8>,
)
    requires
        assembled_frame_parses(nsym, max_blocks, frame_type, seq, payload),
        m < frame_spec(nsym, frame_type, seq, payload).len(),
    ensures
        ({
            let frame = frame_spec(nsym, frame_type, seq, payload);
            let first = parse_spec(nsym, max_blocks, frame.take(m as int));
            let whole = parse_spec(nsym, max_blocks, frame + rest);
            &&& first.frames.len() == 0
            &&& first.crc_fails == 0
            &&& first.fec_fails == 0
            &&& parse_spec(nsym, max_blocks, first.rest + (frame.skip(m as int) + rest)) == whole
            &&& whole.frames == seq![expected_frame(frame_type, seq, payload)] + parse_spec(
                nsym,
                max_blocks,
                rest,
            ).frames
        }),
{
    let frame = frame_spec(nsym, frame_type, seq, payload);
    lemma_assembled_prefix_waits(nsym, max_blocks, frame_type, seq, payload, m);
    assert(frame.take(m as int) + (frame.skip(m as int) + rest) =~= frame + rest);
    lemma_parse_assembled_frame(nsym, max_blocks, frame_type, seq, payload, rest);
}

/// Assembled frames back to back: the frame of each `(type, sequence
/// number, payload)` in turn.
pub open spec fn frames_concat(nsym: nat, specs: Seq<(u8, u16, Seq<u8>)>) -> Seq<u8>
    decreases specs.len(),
{
    if specs.len() == 0 {
        seq![]
    } else {
        frame_spec(nsym, specs[0].0, specs[0].1, specs[0].2) + frames_concat(
            nsym,
            specs.drop_first(),
        )
    }
}

/// The frames a parser should give back for these frames.
pub open spec fn expected_frames(specs: Seq<(u8, u16, Seq<u8>)>) -> Seq<FrameView> {
    Seq::new(specs.len(), |i: int| expected_frame(specs[i].0, specs[i].1, specs[i].2))
}

/// Assembled frames fed back to back are all given back, in order, each with
/// its type, sequence number and payload, leaving nothing buffered and
/// counting no failure (under the premises of `lemma_parse_assembled_frame`
/// for each frame).
pub proof fn lemma_parse_frame_sequence(
    nsym: nat,
    max_blocks: nat,
    specs: Seq<(u8, u16, Seq<u8>)>,
)
    requires
        forall|i: int|
            0 <= i < specs.len() ==> assembled_frame_parses(
                nsym,
                max_blocks,
                #[trigger] specs[i].0,
                specs[i].1,
                specs[i].2,
            ),
    ensures
        parse_spec(nsym, max_blocks, frames_concat(nsym, specs)) == (ParseOutcome {
            frames: expected_frames(specs),
            rest: seq![],
            crc_fails: 0,
            fec_fails: 0,
        }),
    decreases specs.len(),
{
    if specs.len() == 0 {
        assert(find_sync_spec(Seq::<u8>::empty()) is None);
        assert(expected_frames(specs) =~= Seq::<FrameView>::empty());
    } else {
        let tail = specs.drop_first();
        assert forall|i: int| 0 <= i < tail.len() implies assembled_frame_parses(
            nsym,
            max_blocks,
            #[trigger] tail[i].0,
            tail[i].1,
            tail[i].2,
        ) by {
            assert(tail[i] == specs[i + 1]);
        }
        lemma_parse_frame_sequence(nsym, max_blocks, tail);
        assert(assembled_frame_parses(nsym, max_blocks, specs[0].0, specs[0].1, specs[0].2));
        lemma_parse_assembled_frame(
            nsym,
            max_blocks,
            specs[0].0,
            specs[0].1,
            specs[0].2,
            frames_concat(nsym, tail),
        );
        assert(seq![expected_frame(specs[0].0, specs[0].1, specs[0].2)] + expected_frames(tail)
            =~= expected_frames(specs));
    }
}

/// Valid frames of a concatenation.
proof fn lemma_count_valid_concat(a: Seq<FrameView>, b: Seq<FrameView>)
    ensures
        count_valid(a + b) == count_valid(a) + count_valid(b),
    decreases b.len(),
{
    if b.len() > 0 {
        assert((a + b).drop_last() =~= a + b.drop_last());
        lemma_count_valid_concat(a, b.drop_last());
    } else {
        assert(a + b =~= a);
    }
}

/// Every frame the parser gives back is valid or counted as an FEC
/// failure, never both: over any buffer, the FEC failures and the valid
/// frames add up to the frames.
pub proof fn lemma_parse_counts(nsym: nat, max_blocks: nat, buf: Seq<u8>)
    ensures
        ({
            let p = parse_spec(nsym, max_blocks, buf);
            p.fec_fails + count_valid(p.frames) == p.frames.len()
        }),
    decreases buf.len(),
{
    match find_sync_spec(buf) {
        Some(idx) => {
            if 0 <= idx <= buf.len() {
                let b1 = buf.skip(idx);
                let e = try_extract_spec(nsym, max_blocks, b1);
                if b1.len() >= 12 {
                    lemma_extract_bounds(nsym, max_blocks, b1, 1, 0);
                }
                assert(count_valid(Seq::<FrameView>::empty()) == 0);
                match e.frame {
                    Some(f) => {
                        assert(count_valid(seq![f]) == if f.valid { 1nat } else { 0nat }) by {
                            assert(seq![f].drop_last() =~= Seq::<FrameView>::empty());
                        }
                        if 0 < e.consumed <= b1.len() {
                            let rb = b1.skip(e.consumed as int);
                            lemma_parse_counts(nsym, max_blocks, rb);
                            let r = parse_spec(nsym, max_blocks, rb);
                            lemma_count_valid_concat(seq![f], r.frames);
                            assert(seq![f].drop_last() =~= Seq::<FrameView>::empty());
                        } else {
                            assert(seq![f].drop_last() =~= Seq::<FrameView>::empty());
                        }
                    },
                    None => {
                        if b1.len() >= frame_need(nsym, max_blocks, b1) {
                            lemma_parse_counts(nsym, max_blocks, b1.skip(1));
                        }
                    },
                }
            }
        },
        None => {},
    }
}

/// Whether two byte runs are equal.
fn same_bytes(a: &[u8], b: &[u8]) -> (r: bool)
    ensures
        r == (a@ == b@),
{
    if a.len() != b.len() {
        return false;
    }
    let mut i: usize = 0;
    while i < a.len()
        invariant
            i <= a@.len(),
            a@.len() == b@.len(),
            forall|j: int| 0 <= j < i ==> a@[j] == b@[j],
        decreases a@.len() - i,
    {
        if a[i] != b[i] {
            return false;
        }
        i = i + 1;
    }
    assert(a@ =~= b@);
    true
}

/// Build the frame a decoded header-and-payload stream describes.
fn frame_from_bytes(decoded: &Vec<u8>, valid: bool) -> (f: ParsedFrame)
    requires
        decoded@.len() >= 4,
    ensures
        f@ == frame_from_decoded(decoded@, valid),
{
    let d0 = decoded[0];
    let frame_type = (d0 >> 4) & 0x0F;
    let payload_len = (((d0 as u16) & 0x0F) << 8) | (decoded[1] as u16);
    let seq_num = ((decoded[2] as u16) << 8) | (decoded[3] as u16);
    let payload_end = 4 + payload_len as usize;
    let payload = if payload_end <= decoded.len() {
        vstd::slice::slice_to_vec(vstd::slice::slice_subrange(decoded.as_slice(), 4, payload_end))
    } else {
        Vec::new()
    };
    ParsedFrame { payload, frame_type, sequence_number: seq_num, valid }
}

pub struct FrameParser {
    fec: ReedSolomonFec,
    buffer: Vec<u8>,
    pub frames_received: usize,
    pub frames_valid: usize,
    pub crc_fail: usize,
    pub fec_fail: usize,
    max_blocks: usize,
}

impl FrameParser {
    pub closed spec fn spec_nsym(&self) -> nat {
        self.fec.spec_nsym()
    }

    /// Longest candidate frame, in RS blocks.
    pub closed spec fn spec_max_blocks(&self) -> nat {
        self.max_blocks as nat
    }

    /// The counters `frames_received`, `frames_valid`, `crc_fail`,
    /// `fec_fail`.
    pub closed spec fn counters(&self) -> (nat, nat, nat, nat) {
        (
            self.frames_received as nat,
            self.frames_valid as nat,
            self.crc_fail as nat,
            self.fec_fail as nat,
        )
    }

    /// Bytes received and not yet consumed.
    pub closed spec fn spec_buffer(&self) -> Seq<u8> {
        self.buffer@
    }

    /// At most 170 parity bytes: with more, correcting a damaged block
    /// overflows the decoder's polynomials.
    pub closed spec fn wf(&self) -> bool {
        self.spec_nsym() <= 170
    }

    /// Whether the counters leave room for a call that feeds `extra` bytes
    /// (each pass of the loop consumes a byte and fails at most
    /// `max_blocks` CRC checks).
    pub open spec fn has_counter_room(&self, extra: nat) -> bool {
        let passes = self.spec_buffer().len() + extra + 1;
        let c = self.counters();
        &&& c.0 + passes <= usize::MAX
        &&& c.1 + passes <= usize::MAX
        &&& c.3 + passes <= usize::MAX
        &&& c.2 + passes * (self.spec_max_blocks() + 1) <= usize::MAX
    }

    /// A parser with nothing fed and nothing counted has room for a call
    /// feeding `extra` bytes when `(extra + 1) * (max_blocks + 1)` fits a
    /// `usize`.
    pub proof fn lemma_fresh_room(&self, extra: nat)
        requires
            self.counters() == (0nat, 0nat, 0nat, 0nat),
            self.spec_buffer().len() == 0,
            (extra + 1) * (self.spec_max_blocks() + 1) <= usize::MAX,
        ensures
            self.has_counter_room(extra),
    {
        let mb = self.spec_max_blocks();
        assert(extra + 1 <= (extra + 1) * (mb + 1)) by (nonlinear_arith);
    }

    /// Frames returned so far (the field `frames_received`).
    pub fn frames_received(&self) -> (n: usize)
        ensures
            n == self.counters().0,
    {
        self.frames_received
    }

    /// Frames returned valid so far (the field `frames_valid`).
    pub fn frames_valid(&self) -> (n: usize)
        ensures
            n == self.counters().1,
    {
        self.frames_valid
    }

    /// CRC failures so far (the field `crc_fail`).
    pub fn crc_fail(&self) -> (n: usize)
        ensures
            n == self.counters().2,
    {
        self.crc_fail
    }

    /// FEC failures so far (the field `fec_fail`).
    pub fn fec_fail(&self) -> (n: usize)
        ensures
            n == self.counters().3,
    {
        self.fec_fail
    }

    /// A parser sized for frames carrying up to `payload_size` bytes.
    pub fn new(config: &Config) -> (p: Self)
        requires
            config.rs_nsym <= 170,
            config.payload_size + 4 + 254 <= usize::MAX,
        ensures
            p.wf(),
            p.spec_nsym() == config.rs_nsym,
            p.spec_max_blocks() == blocks_for(
                (config.payload_size + 4) as nat,
                (255 - config.rs_nsym) as nat,
            ),
            p.spec_buffer() == Seq::<u8>::empty(),
            p.counters() == (0nat, 0nat, 0nat, 0nat),
    {
        let fec = ReedSolomonFec::new(config.rs_nsym);
        let msg_len = fec.max_data_bytes();
        let max_blocks = (4 + config.payload_size + (msg_len - 1)) / msg_len;
        Self {
            fec,
            buffer: Vec::new(),
            frames_received: 0,
            frames_valid: 0,
            crc_fail: 0,
            fec_fail: 0,
            max_blocks,
        }
    }

    /// First offset with at least 4 of the 8 sync bytes in place.
    fn find_sync(&self) -> (r: Option<usize>)
        ensures
            r matches Some(i) ==> find_sync_spec(self.buffer@) == Some(i as int),
            r is None ==> find_sync_spec(self.buffer@) is None,
    {
        if self.buffer.len() < 8 {
            return None;
        }
        let mut i: usize = 0;
        while i <= self.buffer.len() - 8
            invariant
                self.buffer@.len() >= 8,
                i <= self.buffer@.len() - 7,
                first_sync_from(self.buffer@, 0) == first_sync_from(self.buffer@, i as int),
            decreases self.buffer@.len() - 7 - i,
        {
            let mut matches: usize = 0;
            let mut j: usize = 0;
            while j < 8
                invariant
                    j <= 8,
                    matches <= j,
                    i + 8 <= self.buffer@.len(),
                    self.buffer@.len() == self.buffer.len(),
                    matches + sync_matches_from(self.buffer@, i as int, j as int)
                        == sync_matches_from(self.buffer@, i as int, 0),
                decreases 8 - j,
            {
                if self.buffer[i + j] == sync_byte_exec(j) {
                    matches = matches + 1;
                }
                j = j + 1;
            }
            if matches >= 4 {
                return Some(i);
            }
            i = i + 1;
        }
        None
    }

    /// Cut one frame from the front of the buffer (which starts at a sync
    /// position), trying candidate lengths of 1 to `max_blocks` RS blocks.
    fn try_extract_frame(&mut self) -> (r: Option<ParsedFrame>)
        requires
            old(self).wf(),
            old(self).crc_fail + 1 <= usize::MAX,
            old(self).fec_fail + 1 <= usize::MAX,
        ensures
            ({
                let e = try_extract_spec(
                    old(self).spec_nsym(),
                    old(self).spec_max_blocks(),
                    old(self).spec_buffer(),
                );
                &&& r matches Some(f) ==> e.frame == Some(f@)
                &&& r is None ==> e.frame is None
                &&& final(self).spec_buffer() == old(self).spec_buffer().skip(e.consumed as int)
                &&& final(self).crc_fail == old(self).crc_fail + e.crc_fails
                &&& final(self).fec_fail == old(self).fec_fail + e.fec_fails
            }),
            final(self).wf(),
            final(self).spec_nsym() == old(self).spec_nsym(),
            final(self).spec_max_blocks() == old(self).spec_max_blocks(),
            final(self).frames_received == old(self).frames_received,
            final(self).frames_valid == old(self).frames_valid,
            forall|ft: u8, seq: u16, payload: Seq<u8>|
                #[trigger] starts_with_frame(old(self).spec_buffer(), old(self).spec_nsym(), ft, seq, payload)
                    && old(self).spec_max_blocks() >= 1 ==> try_extract_spec(
                    old(self).spec_nsym(),
                    old(self).spec_max_blocks(),
                    old(self).spec_buffer(),
                ) == (Extraction {
                    frame: Some(expected_frame(ft, seq, payload)),
                    consumed: 267,
                    crc_fails: 0,
                    fec_fails: 0,
                }),
    {
        let ghost buf0 = self.buffer@;
        let ghost nsym = self.spec_nsym();
        let ghost maxb = self.spec_max_blocks();
        if self.buffer.len() < 12 {
            return None;
        }
        let block_len: usize = 255;
        let mut n: usize = 1;
        proof {
            lemma_extract_bounds(nsym, maxb, buf0, 1, 0);
        }
        while n <= self.max_blocks
            invariant
                self.buffer@ == buf0,
                buf0 == old(self).spec_buffer(),
                nsym == old(self).spec_nsym(),
                maxb == old(self).spec_max_blocks(),
                buf0.len() >= 12,
                buf0.len() == self.buffer.len(),
                self.wf(),
                nsym == self.spec_nsym(),
                maxb == self.spec_max_blocks(),
                block_len == 255,
                1 <= n <= maxb + 1,
                self.crc_fail == old(self).crc_fail,
                old(self).crc_fail + 1 <= usize::MAX,
                self.fec_fail == old(self).fec_fail,
                old(self).fec_fail + 1 <= usize::MAX,
                self.frames_received == old(self).frames_received,
                self.frames_valid == old(self).frames_valid,
                extract_at(nsym, maxb, buf0, 1, 0) == extract_at(
                    nsym,
                    maxb,
                    buf0,
                    n as nat,
                    0,
                ),
                n > 1 ==> forall|ft: u8, seq: u16, payload: Seq<u8>|
                    !(#[trigger] starts_with_frame(buf0, nsym, ft, seq, payload) && maxb >= 1),
            decreases maxb + 1 - n,
        {
            if n > (self.buffer.len() - 12) / block_len {
                proof {
                    vstd::arithmetic::div_mod::lemma_fundamental_div_mod(
                        (buf0.len() - 12) as int,
                        255,
                    );
                    assert(8 + 255 * n + 4 > buf0.len()) by (nonlinear_arith)
                        requires
                            n > (buf0.len() - 12) / 255,
                            (buf0.len() - 12) as int == 255 * ((buf0.len() - 12) / 255) + (
                            buf0.len() - 12) % 255,
                            (buf0.len() - 12) % 255 < 255,
                    ;
                }
                return None;
            }
            proof {
                assert(255 * n <= buf0.len() - 12) by (nonlinear_arith)
                    requires
                        n <= (buf0.len() - 12) / 255,
                ;
            }
            let total_fec = n * block_len;
            let data_end = 8 + total_fec;
            let full_end = data_end + 4;
            let crc_region = vstd::slice::slice_subrange(self.buffer.as_slice(), 0, data_end);
            let crc_bytes = vstd::slice::slice_subrange(self.buffer.as_slice(), data_end, full_end);
            let fec_data = vstd::slice::slice_subrange(self.buffer.as_slice(), 8, data_end);
            proof {
                crate::link::fec::lemma_blocks_for((255 * n) as nat, 255);
                assert((255 * n) % 255 == 0 && (255 * n) / 255 == n) by (nonlinear_arith);
            }
            let (decoded, success) = self.fec.decode(fec_data);
            proof {
                assert forall|ft: u8, seq: u16, payload: Seq<u8>|
                    #[trigger] starts_with_frame(buf0, nsym, ft, seq, payload) && maxb >= 1 && n
                        == 1 implies try_extract_spec(nsym, maxb, buf0) == (Extraction {
                    frame: Some(expected_frame(ft, seq, payload)),
                    consumed: 267,
                    crc_fails: 0,
                    fec_fails: 0,
                }) && decoded@.len() >= 4 && crc_matches(
                    crc_region@,
                    crc_bytes@,
                ) by {
                    lemma_frame_parts(buf0, nsym, ft, seq, payload);
                    let body = frame_body(ft, seq, payload);
                    assert(fec_data@ == rs_encode_spec(
                        nsym,
                        body,
                        blocks_for(fec_data@.len(), 255),
                    ));
                    lemma_extract_frame(buf0, nsym, maxb, ft, seq, payload);
                }
                assert(crc_region@ == buf0.subrange(0, data_end as int));
                assert(crc_bytes@ == buf0.subrange(data_end as int, full_end as int));
                assert(fec_data@ == buf0.subrange(8, data_end as int));
                assert(blocks_for(fec_data@.len(), 255) == n);
                assert((decoded@, success) == rs_decode_spec(
                    nsym,
                    buf0.subrange(8, data_end as int),
                    n as nat,
                ));
            }
            if crc::verify_crc32(crc_region, crc_bytes) {
                if decoded.len() >= 4 {
                    let frame = frame_from_bytes(&decoded, true);
                    self.buffer = self.buffer.split_off(full_end);
                    return Some(frame);
                }
            } else {
                if decoded.len() >= 4 {
                    proof {
                        let k: int = 255 - nsym;
                        assert(decoded@.len() == k * n);
                        crate::link::fec::lemma_blocks_for((k * n) as nat, k as nat);
                        assert((k * n) % k == 0 && (k * n) / k == n) by (nonlinear_arith)
                            requires
                                k > 0,
                        ;
                    }
                    let reencoded = self.fec.encode(decoded.as_slice());
                    let mut crc_check = vstd::slice::slice_to_vec(
                        vstd::slice::slice_subrange(self.buffer.as_slice(), 0, 8),
                    );
                    crc_check.extend_from_slice(reencoded.as_slice());
                    assert(crc_check@ == buf0.subrange(0, 8) + rs_encode_spec(
                        nsym,
                        decoded@,
                        blocks_for(decoded@.len(), (255 - nsym) as nat),
                    ));
                    if crc::verify_crc32(crc_check.as_slice(), crc_bytes) {
                        self.crc_fail = self.crc_fail + 1;
                        if !success {
                            self.fec_fail = self.fec_fail + 1;
                        }
                        let frame = frame_from_bytes(&decoded, success);
                        self.buffer = self.buffer.split_off(full_end);
                        return Some(frame);
                    }
                }
            }
            n = n + 1;
        }
        None
    }

    /// Whether the bytes from the front (a sync position at which no frame
    /// could be cut) hold the whole frame that its header announces.
    fn holds_announced_frame(&self) -> (r: bool)
        requires
            self.wf(),
        ensures
            r == (self.spec_buffer().len() >= frame_need(
                self.spec_nsym(),
                self.spec_max_blocks(),
                self.spec_buffer(),
            )),
    {
        let len = self.buffer.len();
        if len < 263 {
            return false;
        }
        let blk = vstd::slice::slice_subrange(self.buffer.as_slice(), 8, 263);
        proof {
            assert(blocks_for(255, 255) == 1);
        }
        let (d, ok) = self.fec.decode(blk);
        let ghost nsym = self.spec_nsym();
        assert(blk@.len() == 255);
        assert((d@, ok) == rs_decode_spec(nsym, self.buffer@.subrange(8, 263), 1));
        assert((255 - nsym) * 1 == 255 - nsym);
        assert(d@.len() == 255 - nsym);
        let hl = ((((d[0] as u16) & 0x0F) << 8) | (d[1] as u16)) as usize;
        assert(hl == header_len(d@));
        let k = 255 - self.fec.nsym();
        proof {
            crate::link::fec::lemma_blocks_for(k as nat, k as nat);
            assert(k as nat / (k as nat) == 1 && k as nat % (k as nat) == 0) by (nonlinear_arith)
                requires
                    k > 0,
            ;
        }
        let intact = ok && {
            let re = self.fec.encode(d.as_slice());
            same_bytes(re.as_slice(), blk)
        };
        assert(intact == (ok && rs_encode_spec(nsym, d@, 1) == blk@));
        let n = if intact {
            (4 + hl + k - 1) / k
        } else {
            1
        };
        assert(intact ==> n == blocks_for((4 + hl) as nat, k as nat));
        let m = if n > self.max_blocks {
            self.max_blocks
        } else {
            n
        };
        let a = if m < 1 {
            1
        } else {
            m
        };
        assert(a == announced_blocks(nsym, self.spec_max_blocks(), self.buffer@));
        proof {
            vstd::arithmetic::div_mod::lemma_fundamental_div_mod((len - 12) as int, 255);
            assert((a <= (len - 12) / 255) == (12 + 255 * a <= len)) by (nonlinear_arith)
                requires
                    len >= 263,
                    (len - 12) as int == 255 * ((len - 12) / 255) + (len - 12) % 255,
                    0 <= (len - 12) % 255 < 255,
            ;
        }
        a <= (len - 12) / 255
    }

    /// Append received bytes and cut every frame that can be cut, in order.
    /// Counters: every frame counts as received, valid ones as valid; a
    /// frame accepted only after FEC correction, and every candidate frame
    /// rejected whole, count as a CRC failure; frames accepted through FEC
    /// with an uncorrected block count as FEC failures.
    #[verifier::rlimit(100)]
    pub fn feed_bytes(&mut self, data: &[u8]) -> (frames: Vec<ParsedFrame>)
        requires
            old(self).wf(),
            old(self).has_counter_room(data@.len()),
            old(self).spec_buffer().len() + data@.len() <= usize::MAX,
        ensures
            ({
                let p = parse_spec(
                    old(self).spec_nsym(),
                    old(self).spec_max_blocks(),
                    old(self).spec_buffer() + data@,
                );
                &&& frame_views(frames@) == p.frames
                &&& final(self).spec_buffer() == p.rest
                &&& final(self).counters() == (
                    old(self).counters().0 + p.frames.len(),
                    old(self).counters().1 + count_valid(p.frames),
                    old(self).counters().2 + p.crc_fails,
                    old(self).counters().3 + p.fec_fails,
                )
            }),
            final(self).counters().0 + old(self).counters().1 + old(self).counters().3
                == old(self).counters().0 + final(self).counters().1 + final(self).counters().3,
            final(self).wf(),
            final(self).spec_nsym() == old(self).spec_nsym(),
            final(self).spec_max_blocks() == old(self).spec_max_blocks(),
            forall|ft: u8, seq: u16, payload: Seq<u8>|
                #[trigger] starts_with_frame(old(self).spec_buffer() + data@, old(self).spec_nsym(), ft, seq, payload)
                    && (old(self).spec_buffer() + data@).len() == 267
                    && old(self).spec_max_blocks() >= 1 ==> parse_spec(
                    old(self).spec_nsym(),
                    old(self).spec_max_blocks(),
                    old(self).spec_buffer() + data@,
                ) == (ParseOutcome {
                    frames: seq![expected_frame(ft, seq, payload)],
                    rest: seq![],
                    crc_fails: 0,
                    fec_fails: 0,
                }),
    {
        let ghost nsym = self.spec_nsym();
        let ghost mb = self.spec_max_blocks();
        self.buffer.extend_from_slice(data);
        let ghost init = self.buffer@;
        let mut frames: Vec<ParsedFrame> = Vec::new();
        let ghost mut crc_so_far: nat = 0;
        let ghost mut fec_so_far: nat = 0;
        let ghost mut first = true;
        loop
            invariant_except_break
                ({
                    let p0 = parse_spec(nsym, mb, init);
                    let pc = parse_spec(nsym, mb, self.buffer@);
                    &&& p0.frames == frame_views(frames@) + pc.frames
                    &&& p0.rest == pc.rest
                    &&& p0.crc_fails == crc_so_far + pc.crc_fails
                    &&& p0.fec_fails == fec_so_far + pc.fec_fails
                }),
                self.frames_received + self.buffer@.len() + 1 <= usize::MAX,
                self.frames_valid + self.buffer@.len() + 1 <= usize::MAX,
                self.fec_fail + self.buffer@.len() + 1 <= usize::MAX,
                self.crc_fail + (self.buffer@.len() + 1) * (mb + 1) <= usize::MAX,
            invariant
                self.wf(),
                nsym == self.spec_nsym(),
                mb == self.spec_max_blocks(),
                nsym == old(self).spec_nsym(),
                mb == old(self).spec_max_blocks(),
                init == old(self).spec_buffer() + data@,
                first ==> self.buffer@ == init,
                !first ==> forall|ft: u8, seq: u16, payload: Seq<u8>|
                    #[trigger] starts_with_frame(init, nsym, ft, seq, payload) && init.len() == 267
                        && mb >= 1 ==> parse_spec(nsym, mb, init) == (ParseOutcome {
                        frames: seq![expected_frame(ft, seq, payload)],
                        rest: seq![],
                        crc_fails: 0,
                        fec_fails: 0,
                    }),
                self.frames_received == old(self).frames_received + frames@.len(),
                self.frames_valid == old(self).frames_valid + count_valid(frame_views(frames@)),
                self.crc_fail == old(self).crc_fail + crc_so_far,
                self.fec_fail == old(self).fec_fail + fec_so_far,
            ensures
                !first,
                forall|ft: u8, seq: u16, payload: Seq<u8>|
                    #[trigger] starts_with_frame(init, nsym, ft, seq, payload) && init.len() == 267
                        && mb >= 1 ==> parse_spec(nsym, mb, init) == (ParseOutcome {
                        frames: seq![expected_frame(ft, seq, payload)],
                        rest: seq![],
                        crc_fails: 0,
                        fec_fails: 0,
                    }),
                ({
                    let p0 = parse_spec(nsym, mb, init);
                    &&& p0.frames == frame_views(frames@)
                    &&& p0.rest == self.buffer@
                    &&& p0.crc_fails == crc_so_far
                    &&& p0.fec_fails == fec_so_far
                }),
                self.wf(),
                nsym == self.spec_nsym(),
                mb == self.spec_max_blocks(),
                self.frames_received == old(self).frames_received + frames@.len(),
                self.frames_valid == old(self).frames_valid + count_valid(frame_views(frames@)),
                self.crc_fail == old(self).crc_fail + crc_so_far,
                self.fec_fail == old(self).fec_fail + fec_so_far,
            decreases self.buffer@.len(),
        {
            let ghost b = self.buffer@;
            let ghost was_first = first;
            proof {
                first = false;
            }
            match self.find_sync() {
                Some(idx) => {
                    proof {
                        lemma_first_sync_bounds(b, 0);
                    }
                    if idx > 0 {
                        self.buffer = self.buffer.split_off(idx);
                    }
                    assert(self.buffer@ == b.skip(idx as int));
                    let ghost b1 = self.buffer@;
                    assert(b1.len() <= b.len());
                    assert((b1.len() + 1) * (mb + 1) <= (b.len() + 1) * (mb + 1)) by (nonlinear_arith)
                        requires
                            b1.len() <= b.len(),
                    ;
                    let ghost e = try_extract_spec(nsym, mb, b1);
                    proof {
                        lemma_extract_bounds(nsym, mb, b1, 1, 0);
                        assert((b1.len() + 1) * (mb + 1) == b1.len() * (mb + 1) + mb + 1)
                            by (nonlinear_arith);
                        assert(b1.len() * (mb + 1) >= 0) by (nonlinear_arith);
                    }
                    let res = self.try_extract_frame();
                    proof {
                        if was_first {
                            assert forall|ft: u8, seq: u16, payload: Seq<u8>|
                                #[trigger] starts_with_frame(init, nsym, ft, seq, payload)
                                    && init.len() == 267 && mb >= 1 implies parse_spec(
                                nsym,
                                mb,
                                init,
                            ) == (ParseOutcome {
                                frames: seq![expected_frame(ft, seq, payload)],
                                rest: seq![],
                                crc_fails: 0,
                                fec_fails: 0,
                            }) by {
                                lemma_frame_parts(init, nsym, ft, seq, payload);
                                lemma_sync_at_start(init);
                                assert(init.take(8) == init.subrange(0, 8));
                                assert(idx == 0);
                                assert(init.skip(0) =~= init);
                                assert(b1 == init);
                                assert(starts_with_frame(b1, nsym, ft, seq, payload));
                                let ex = try_extract_spec(nsym, mb, b1);
                                assert(ex.frame == Some(expected_frame(ft, seq, payload)));
                                assert(ex.consumed == 267);
                                let empty = Seq::<u8>::empty();
                                assert(init.skip(267) =~= empty);
                                assert(find_sync_spec(empty) is None);
                                let r = parse_spec(nsym, mb, empty);
                                assert(r.frames =~= Seq::<FrameView>::empty());
                                assert(r.rest =~= empty);
                                assert(seq![expected_frame(ft, seq, payload)] + r.frames =~= seq![
                                    expected_frame(ft, seq, payload),
                                ]);
                            }
                        }
                    }
                    match res {
                        Some(frame) => {
                            proof {
                                crc_so_far = crc_so_far + e.crc_fails;
                                fec_so_far = fec_so_far + e.fec_fails;
                                let b2 = self.buffer@;
                                assert(b2.len() < b1.len());
                                assert((b2.len() + 1) * (mb + 1) <= b1.len() * (mb + 1))
                                    by (nonlinear_arith)
                                    requires
                                        b2.len() < b1.len(),
                                ;
                            }
                            self.frames_received = self.frames_received + 1;
                            if frame.valid {
                                self.frames_valid = self.frames_valid + 1;
                            }
                            let ghost old_frames = frames@;
                            frames.push(frame);
                            proof {
                                assert(frame_views(frames@) =~= frame_views(old_frames) + seq![
                                    frame@,
                                ]);
                                assert(frame_views(frames@).drop_last() =~= frame_views(
                                    old_frames,
                                ));
                                let pb = parse_spec(nsym, mb, b);
                                let p2 = parse_spec(nsym, mb, self.buffer@);
                                assert(e.frame == Some(frame@));
                                assert(self.buffer@ == b1.skip(e.consumed as int));
                                assert(pb.frames == seq![frame@] + p2.frames);
                                assert(frame_views(old_frames) + pb.frames =~= frame_views(frames@)
                                    + p2.frames);
                            }
                        },
                        None => {
                            proof {
                                crc_so_far = crc_so_far + e.crc_fails;
                                fec_so_far = fec_so_far + e.fec_fails;
                                assert(b1.skip(0) =~= b1);
                                assert(self.buffer@ == b1);
                                assert(e.frame is None);
                            }
                            if self.holds_announced_frame() {
                                self.crc_fail = self.crc_fail + 1;
                                self.buffer = self.buffer.split_off(1);
                                proof {
                                    crc_so_far = crc_so_far + 1;
                                    assert(b1.skip(0) =~= b1);
                                    assert(self.buffer@ == b1.skip(1));
                                    let b2 = self.buffer@;
                                    assert((b2.len() + 1) * (mb + 1) <= b1.len() * (mb + 1))
                                        by (nonlinear_arith)
                                        requires
                                            b2.len() + 1 == b1.len(),
                                    ;
                                }
                            } else {
                                proof {
                                    assert(b1.len() < frame_need(nsym, mb, b1));
                                    assert(find_sync_spec(b) == Some(idx as int));
                                    let pb = parse_spec(nsym, mb, b);
                                    assert(pb.frames =~= Seq::<FrameView>::empty());
                                    assert(pb.rest == b1);
                                    assert(frame_views(frames@) + pb.frames =~= frame_views(
                                        frames@,
                                    ));
                                }
                                break ;
                            }
                        },
                    }
                },
                None => {
                    proof {
                        if was_first {
                            assert forall|ft: u8, seq: u16, payload: Seq<u8>|
                                #[trigger] starts_with_frame(init, nsym, ft, seq, payload)
                                    && init.len() == 267 && mb >= 1 implies false by {
                                lemma_frame_parts(init, nsym, ft, seq, payload);
                                lemma_sync_at_start(init);
                                assert(init.take(8) == init.subrange(0, 8));
                            }
                        }
                    }
                    if self.buffer.len() > 12 {
                        let drain_to = self.buffer.len() - 12;
                        self.buffer = self.buffer.split_off(drain_to);
                        assert(self.buffer@ == b.skip(b.len() - 12));
                    }
                    break ;
                },
            }
        }
        proof {
            lemma_parse_counts(nsym, mb, init);
        }
        frames
    }
}

/// The decimal digits of `n`, most significant first, without leading
/// zeros.
pub open spec fn decimal(n: nat) -> Seq<char>
    decreases n,
{
    if n < 10 {
        seq![(48 + n) as char]
    } else {
        decimal(n / 10).push((48 + n % 10) as char)
    }
}

/// The counter summary: `Frames: <valid>/<received> valid, <crc> crc fail,
/// <fec> fec fail`, each number in decimal.
pub open spec fn summary_text(received: nat, valid: nat, crc: nat, fec: nat) -> Seq<char> {
    seq!['F', 'r', 'a', 'm', 'e', 's', ':', ' '] + decimal(valid) + seq!['/'] + decimal(received)
        + seq![' ', 'v', 'a', 'l', 'i', 'd', ',', ' '] + decimal(crc) + seq![
        ' ',
        'c',
        'r',
        'c',
        ' ',
        'f',
        'a',
        'i',
        'l',
        ',',
        ' ',
    ] + decimal(fec) + seq![' ', 'f', 'e', 'c', ' ', 'f', 'a', 'i', 'l']
}

/// Formats the four counters with `std::format!`. Claimed: the text is
/// `summary_text` of them, which is what `Display` for `usize` (decimal, no
/// sign, no padding) and the format string produce.
#[verifier::external_body]
fn format_summary(received: usize, valid: usize, crc: usize, fec: usize) -> (s: String)
    ensures
        s@ == summary_text(received as nat, valid as nat, crc as nat, fec as nat),
{
    format!("Frames: {}/{} valid, {} crc fail, {} fec fail", valid, received, crc, fec)
}

impl FrameParser {
    /// A one-line summary of the parser's counters.
    pub fn stats_summary(&self) -> (s: String)
        ensures
            s@ == summary_text(
                self.counters().0,
                self.counters().1,
                self.counters().2,
                self.counters().3,
            ),
    {
        format_summary(self.frames_received, self.frames_valid, self.crc_fail, self.fec_fail)
    }
}

} // verus!
