//! The integer side of the non-coherent M-FSK modem: wire framing
//! (`[len_hi, len_lo, payload, crc32]`), the shortened Reed-Solomon block
//! code, the pseudo-random preamble, base-M symbol packing and the
//! time-differential symbol mapping.
use vstd::prelude::*;
use crate::link::crc::{
    compute_and_append_crc, crc_matches, verify_crc32, with_crc, lemma_crc_bytes_verify,
    crc32_iso_hdlc, be_bytes,
};
use crate::bits::{bits_of, bit_of, bit_or_zero, pack_prefix, shift_in, pack_bits, lemma_pack_bits_of, bytes_to_bits};
use crate::link::fec::{
    rs_codeword, rs_corrected, padded_chunk, blocks_for, lemma_blocks_for, rs_encode_block,
    rs_correct_block, rs_parity,
};

verus! {

/// The two length bytes of a wrapped frame: the length modulo 2^16, most
/// significant byte first.
pub open spec fn length_header(len: nat) -> Seq<u8> {
    seq![((len / 256) % 256) as u8, (len % 256) as u8]
}

/// The wire frame of `payload`: length header, payload, CRC-32 of both.
pub open spec fn wrapped(payload: Seq<u8>) -> Seq<u8> {
    with_crc(length_header(payload.len()) + payload)
}

/// The payload length that the first two bytes of `bytes` announce.
pub open spec fn header_len(bytes: Seq<u8>) -> nat {
    bytes[0] as nat * 256 + bytes[1] as nat
}

/// What `unwrap_frame` recovers from `bytes`.
pub open spec fn unwrapped(bytes: Seq<u8>) -> Option<Seq<u8>> {
    if bytes.len() < 6 {
        None
    } else {
        let end = 2 + header_len(bytes) as int;
        if end + 4 > bytes.len() {
            None
        } else if !crc_matches(bytes.subrange(0, end), bytes.subrange(end, end + 4)) {
            None
        } else {
            Some(bytes.subrange(2, end))
        }
    }
}

/// Wrap a payload for transmission: `[len_hi, len_lo, payload..., crc32]`.
pub fn wrap_frame(payload: &[u8]) -> (v: Vec<u8>)
    ensures
        v@ == wrapped(payload@),
{
    let len = payload.len();
    let mut v: Vec<u8> = Vec::new();
    #[verifier::truncate]
    let hi = (len >> 8) as u8;
    #[verifier::truncate]
    let lo = (len & 0xFF) as u8;
    assert(hi == ((len / 256) % 256) as u8 && lo == (len % 256) as u8) by (bit_vector)
        requires
            hi == (len >> 8) as u8,
            lo == (len & 0xFF) as u8,
    ;
    v.push(hi);
    v.push(lo);
    v.extend_from_slice(payload);
    assert(v@ =~= length_header(payload@.len()) + payload@);
    compute_and_append_crc(&mut v);
    v
}

/// Recover the payload from wrapped bytes, verifying the CRC-32.
pub fn unwrap_frame(bytes: &[u8]) -> (out: Option<Vec<u8>>)
    ensures
        out.is_some() == unwrapped(bytes@).is_some(),
        out.is_some() ==> out.unwrap()@ == unwrapped(bytes@).unwrap(),
{
    if bytes.len() < 6 {
        return None;
    }
    let b0 = bytes[0];
    let b1 = bytes[1];
    let len = ((b0 as usize) << 8) | b1 as usize;
    assert(len == b0 as nat * 256 + b1 as nat) by (bit_vector)
        requires
            len == ((b0 as usize) << 8usize) | (b1 as usize),
    ;
    let end = 2 + len;
    if end > bytes.len() - 4 {
        return None;
    }
    let body = vstd::slice::slice_subrange(bytes, 0, end);
    let tail = vstd::slice::slice_subrange(bytes, end, end + 4);
    if !verify_crc32(body, tail) {
        return None;
    }
    Some(vstd::slice::slice_to_vec(vstd::slice::slice_subrange(bytes, 2, end)))
}

/// A payload shorter than 2^16 bytes comes back out of its wire frame.
pub proof fn lemma_unwrap_wrapped(payload: Seq<u8>)
    requires
        payload.len() < 65536,
    ensures
        unwrapped(wrapped(payload)) == Some(payload),
{
    let h = length_header(payload.len());
    let body = h + payload;
    let w = wrapped(payload);
    assert(header_len(w) == payload.len());
    let end = 2 + payload.len() as int;
    assert(w.subrange(0, end as int) =~= body);
    assert(w.subrange(end as int, end + 4) =~= be_bytes(crc32_iso_hdlc(body)));
    lemma_crc_bytes_verify(body);
    assert(w.subrange(2, end as int) =~= payload);
}

/// The shortened-code stream: one `data_block + nsym`-byte codeword for each
/// of the first `nb` `data_block`-byte pieces of `wire` (zero-padded).
pub open spec fn fec_encode_spec(data_block: nat, nsym: nat, wire: Seq<u8>, nb: nat) -> Seq<u8>
    decreases nb,
{
    if nb == 0 {
        seq![]
    } else {
        fec_encode_spec(data_block, nsym, wire, (nb - 1) as nat) + rs_codeword(
            nsym,
            padded_chunk(wire, ((nb - 1) * data_block) as int, data_block),
        )
    }
}

/// How block `b` of `coded` decodes: its corrected message, or its received
/// data part when correction fails.
pub open spec fn fec_decode_block(data_block: nat, nsym: nat, coded: Seq<u8>, b: nat) -> (
    Seq<u8>,
    bool,
) {
    let bl = data_block + nsym;
    let blk = coded.subrange((b * bl) as int, (b * bl + bl) as int);
    match rs_corrected(nsym, blk) {
        Some(d) => (d, true),
        None => (blk.take(data_block as int), false),
    }
}

/// The decoded data of the first `k` blocks, and whether all corrected.
pub open spec fn fec_decode_blocks(data_block: nat, nsym: nat, coded: Seq<u8>, k: nat) -> (
    Seq<u8>,
    bool,
)
    decreases k,
{
    if k == 0 {
        (seq![], true)
    } else {
        let prev = fec_decode_blocks(data_block, nsym, coded, (k - 1) as nat);
        let cur = fec_decode_block(data_block, nsym, coded, (k - 1) as nat);
        (prev.0 + cur.0, prev.1 && cur.1)
    }
}

/// Decoding `n_blocks` blocks: the blocks that `coded` holds in full are
/// decoded in turn; if it holds fewer than asked for, the flag is false.
pub open spec fn fec_decode_spec(data_block: nat, nsym: nat, coded: Seq<u8>, n_blocks: nat) -> (
    Seq<u8>,
    bool,
) {
    let avail = coded.len() / (data_block + nsym);
    if n_blocks <= avail {
        fec_decode_blocks(data_block, nsym, coded, n_blocks)
    } else {
        (fec_decode_blocks(data_block, nsym, coded, avail).0, false)
    }
}

/// Coded block `b` of `coded`: bytes `b * bl .. (b + 1) * bl`.
pub open spec fn coded_block(coded: Seq<u8>, bl: nat, b: int) -> Seq<u8> {
    coded.subrange(b * bl, b * bl + bl)
}

proof fn lemma_fec_decode_blocks_flag(data_block: nat, nsym: nat, coded: Seq<u8>, k: nat)
    ensures
        fec_decode_blocks(data_block, nsym, coded, k).1 <==> forall|b: int|
            0 <= b < k ==> (#[trigger] rs_corrected(
                nsym,
                coded_block(coded, data_block + nsym, b),
            )) is Some,
    decreases k,
{
    if k > 0 {
        let km = (k - 1) as nat;
        lemma_fec_decode_blocks_flag(data_block, nsym, coded, km);
        let bl = data_block + nsym;
        assert(coded_block(coded, bl, km as int) == coded.subrange((km * bl) as int, (km * bl
            + bl) as int));
        if fec_decode_blocks(data_block, nsym, coded, k).1 {
            assert forall|b: int| 0 <= b < k implies (#[trigger] rs_corrected(
                nsym,
                coded_block(coded, bl, b),
            )) is Some by {
                if b < km {
                    assert(rs_corrected(nsym, coded_block(coded, bl, b)) is Some);
                }
            }
        } else {
            if fec_decode_blocks(data_block, nsym, coded, km).1 {
                assert(!(rs_corrected(nsym, coded_block(coded, bl, km as int)) is Some));
            } else {
                let w = choose|b: int|
                    0 <= b < km && !(#[trigger] rs_corrected(nsym, coded_block(coded, bl, b)) is Some);
                assert(!(rs_corrected(nsym, coded_block(coded, bl, w)) is Some));
            }
        }
    }
}

/// Decoding reports success exactly when `coded` holds all `n_blocks`
/// blocks and every one of them was corrected: one block that fails (or is
/// missing) makes the whole frame fail, wherever it stands.
pub proof fn lemma_fec_decode_ok(data_block: nat, nsym: nat, coded: Seq<u8>, n_blocks: nat)
    requires
        data_block + nsym > 0,
    ensures
        fec_decode_spec(data_block, nsym, coded, n_blocks).1 <==> (n_blocks * (data_block + nsym)
            <= coded.len() && forall|b: int|
            0 <= b < n_blocks ==> (#[trigger] rs_corrected(
                nsym,
                coded_block(coded, data_block + nsym, b),
            )) is Some),
{
    let bl = data_block + nsym;
    let avail = coded.len() / bl;
    vstd::arithmetic::div_mod::lemma_fundamental_div_mod(coded.len() as int, bl as int);
    assert(n_blocks <= avail <==> n_blocks * bl <= coded.len()) by (nonlinear_arith)
        requires
            bl > 0,
            coded.len() == bl * avail + coded.len() % bl,
            0 <= coded.len() % bl < bl,
    ;
    lemma_fec_decode_blocks_flag(data_block, nsym, coded, n_blocks);
}

/// Blocks needed for `wire_len` bytes: at least one.
pub open spec fn fec_blocks(wire_len: nat, data_block: nat) -> nat {
    let b = blocks_for(wire_len, data_block);
    if b == 0 {
        1
    } else {
        b
    }
}

proof fn lemma_fec_encode_len(data_block: nat, nsym: nat, wire: Seq<u8>, nb: nat)
    ensures
        fec_encode_spec(data_block, nsym, wire, nb).len() == nb * (data_block + nsym),
    decreases nb,
{
    let bl = data_block + nsym;
    if nb == 0 {
        assert(nb * bl == 0);
    } else {
        lemma_fec_encode_len(data_block, nsym, wire, (nb - 1) as nat);
        let cw = rs_codeword(nsym, padded_chunk(wire, ((nb - 1) * data_block) as int, data_block));
        assert(cw.len() == bl);
        let prev = fec_encode_spec(data_block, nsym, wire, (nb - 1) as nat);
        assert(fec_encode_spec(data_block, nsym, wire, nb) == prev + cw);
        assert(prev.len() == ((nb - 1) as nat) * bl);
        assert(((nb - 1) as nat) * bl + bl == nb * bl) by (nonlinear_arith)
            requires
                nb > 0,
        ;
    }
}

proof fn lemma_fec_encode_block(data_block: nat, nsym: nat, wire: Seq<u8>, nb: nat, b: nat)
    requires
        b < nb,
    ensures
        fec_encode_spec(data_block, nsym, wire, nb).subrange(
            (b * (data_block + nsym)) as int,
            (b * (data_block + nsym) + (data_block + nsym)) as int,
        ) == rs_codeword(nsym, padded_chunk(wire, (b * data_block) as int, data_block)),
    decreases nb,
{
    let bl = data_block + nsym;
    lemma_fec_encode_len(data_block, nsym, wire, nb);
    lemma_fec_encode_len(data_block, nsym, wire, (nb - 1) as nat);
    let prev = fec_encode_spec(data_block, nsym, wire, (nb - 1) as nat);
    if b < nb - 1 {
        lemma_fec_encode_block(data_block, nsym, wire, (nb - 1) as nat, b);
        assert(b * bl + bl <= (nb - 1) * bl) by (nonlinear_arith)
            requires
                b < nb - 1,
        ;
        assert(fec_encode_spec(data_block, nsym, wire, nb).subrange(
            (b * bl) as int,
            (b * bl + bl) as int,
        ) =~= prev.subrange((b * bl) as int, (b * bl + bl) as int));
    } else {
        assert(b * bl == (nb - 1) * bl);
        assert(fec_encode_spec(data_block, nsym, wire, nb).subrange(
            (b * bl) as int,
            (b * bl + bl) as int,
        ) =~= rs_codeword(nsym, padded_chunk(wire, ((nb - 1) * data_block) as int, data_block)));
    }
}

proof fn lemma_padded_step(wire: Seq<u8>, data_block: nat, b: nat)
    ensures
        padded_chunk(wire, 0, ((b + 1) * data_block) as nat) == padded_chunk(wire, 0, b * data_block)
            + padded_chunk(wire, (b * data_block) as int, data_block),
{
    assert((b + 1) * data_block == b * data_block + data_block) by (nonlinear_arith);
    assert(padded_chunk(wire, 0, ((b + 1) * data_block) as nat) =~= padded_chunk(wire, 0, b * data_block)
        + padded_chunk(wire, (b * data_block) as int, data_block));
}

/// Byte-level Reed-Solomon coding for FSK frames: blocks of `data_block` data
/// bytes plus `nsym` parity bytes (a shortened code, so small frames do not
/// pay for a whole 255-byte block).
pub struct FskFec {
    pub data_block: usize,
    pub nsym: usize,
}

impl FskFec {
    /// A coder for `data_block`-byte blocks (at least one) with `nsym`
    /// parity bytes each.
    pub fn new(data_block: usize, nsym: usize) -> (f: Self)
        requires
            nsym <= 255,
        ensures
            f.data_block == (if data_block == 0 { 1 } else { data_block }),
            f.nsym == nsym,
    {
        FskFec { data_block: if data_block == 0 { 1 } else { data_block }, nsym }
    }

    /// Bytes per coded block.
    pub fn block_len(&self) -> (n: usize)
        requires
            self.data_block + self.nsym <= usize::MAX,
        ensures
            n == self.data_block + self.nsym,
    {
        self.data_block + self.nsym
    }

    /// Blocks needed for a `wire_len`-byte frame (at least one).
    pub fn n_blocks(&self, wire_len: usize) -> (n: usize)
        requires
            self.data_block > 0,
        ensures
            n == fec_blocks(wire_len as nat, self.data_block as nat),
            n >= 1,
            n <= wire_len + 1,
    {
        proof {
            lemma_blocks_for(wire_len as nat, self.data_block as nat);
            assert(wire_len / self.data_block <= wire_len) by (nonlinear_arith)
                requires
                    self.data_block > 0,
            ;
            assert(wire_len % self.data_block != 0 ==> wire_len / self.data_block < wire_len)
                by (nonlinear_arith)
                requires
                    self.data_block > 0,
            ;
        }
        let q = wire_len / self.data_block;
        let b = if wire_len % self.data_block == 0 { q } else { q + 1 };
        if b == 0 {
            1
        } else {
            b
        }
    }

    /// Coded length of a `wire_len`-byte frame.
    pub fn coded_len(&self, wire_len: usize) -> (n: usize)
        requires
            self.data_block > 0,
            fec_blocks(wire_len as nat, self.data_block as nat) * (self.data_block + self.nsym)
                <= usize::MAX,
        ensures
            n == fec_blocks(wire_len as nat, self.data_block as nat) * (self.data_block
                + self.nsym),
    {
        let nb = self.n_blocks(wire_len);
        assert(self.data_block + self.nsym <= nb * (self.data_block + self.nsym))
            by (nonlinear_arith)
            requires
                nb >= 1,
        ;
        nb * self.block_len()
    }

    /// One codeword per `data_block`-byte piece of `wire` (the last piece
    /// zero-padded).
    pub fn encode(&self, wire: &[u8]) -> (out: Vec<u8>)
        requires
            self.data_block > 0,
            self.data_block + self.nsym <= 256,
            fec_blocks(wire@.len(), self.data_block as nat) * (self.data_block + self.nsym)
                <= usize::MAX,
        ensures
            out@ == fec_encode_spec(
                self.data_block as nat,
                self.nsym as nat,
                wire@,
                fec_blocks(wire@.len(), self.data_block as nat),
            ),
            out@.len() == fec_blocks(wire@.len(), self.data_block as nat) * (self.data_block
                + self.nsym),
    {
        let nb = self.n_blocks(wire.len());
        let db = self.data_block;
        let ghost bl = (self.data_block + self.nsym) as nat;
        let mut out: Vec<u8> = Vec::new();
        let mut b: usize = 0;
        proof {
            assert(wire@.len() == wire.len());
            assert(nb * db <= nb * bl) by (nonlinear_arith)
                requires
                    db <= bl,
            ;
        }
        while b < nb
            invariant
                b <= nb,
                nb == fec_blocks(wire@.len(), db as nat),
                db == self.data_block,
                db > 0,
                bl == db + self.nsym,
                db + self.nsym <= 256,
                nb * bl <= usize::MAX,
                nb * db <= nb * bl,
                wire@.len() == wire.len(),
                out@ == fec_encode_spec(db as nat, self.nsym as nat, wire@, b as nat),
            decreases nb - b,
        {
            assert(b * db <= nb * db) by (nonlinear_arith)
                requires
                    b < nb,
            ;
            let start = b * db;
            let mut block: Vec<u8> = Vec::new();
            let mut j: usize = 0;
            while j < db
                invariant
                    j <= db,
                    wire@.len() == wire.len(),
                    block@.len() == j,
                    forall|t: int|
                        0 <= t < j ==> block@[t] == (if start + t < wire@.len() {
                            wire@[start + t]
                        } else {
                            0
                        }),
                decreases db - j,
            {
                let v = if j < wire.len() && start < wire.len() - j {
                    wire[start + j]
                } else {
                    0
                };
                block.push(v);
                j = j + 1;
            }
            assert(block@ =~= padded_chunk(wire@, b * db, db as nat));
            let encoded = rs_encode_block(self.nsym, block.as_slice());
            proof {
                let par = rs_parity(self.nsym as nat, block@);
                assert(padded_chunk(par, 0, self.nsym as nat) =~= par);
            }
            out.extend_from_slice(encoded.as_slice());
            b = b + 1;
        }
        proof {
            lemma_fec_encode_len(db as nat, self.nsym as nat, wire@, nb as nat);
        }
        out
    }

    /// Decode exactly `n_blocks` blocks from `coded`: each block yields its
    /// corrected data, or its received data part when correction fails; the
    /// flag says whether every block was present and corrected.
    pub fn decode(&self, coded: &[u8], n_blocks: usize) -> (out: (Vec<u8>, bool))
        requires
            self.data_block > 0,
            self.data_block + self.nsym < 256,
            self.nsym <= 170,
        ensures
            (out.0@, out.1) == fec_decode_spec(
                self.data_block as nat,
                self.nsym as nat,
                coded@,
                n_blocks as nat,
            ),
            forall|wire: Seq<u8>|
                #![trigger fec_encode_spec(self.data_block as nat, self.nsym as nat, wire, n_blocks as nat)]
                coded@ == fec_encode_spec(
                    self.data_block as nat,
                    self.nsym as nat,
                    wire,
                    n_blocks as nat,
                ) ==> out.1 && out.0@ == padded_chunk(
                    wire,
                    0,
                    (n_blocks * self.data_block) as nat,
                ),
            out.1 <==> (n_blocks * (self.data_block + self.nsym) <= coded@.len() && forall|b: int|
                0 <= b < n_blocks ==> (#[trigger] rs_corrected(
                    self.nsym as nat,
                    coded_block(coded@, (self.data_block + self.nsym) as nat, b),
                )) is Some),
    {
        proof {
            lemma_fec_decode_ok(self.data_block as nat, self.nsym as nat, coded@, n_blocks as nat);
        }
        let bl = self.block_len();
        let db = self.data_block;
        let nsym = self.nsym;
        let mut out: Vec<u8> = Vec::new();
        let mut ok = true;
        let mut b: usize = 0;
        proof {
            assert(coded@.len() == coded.len());
            assert(padded_chunk(coded@, 0, 0) =~= seq![]);
        }
        while b < n_blocks
            invariant_except_break
                (out@, ok) == fec_decode_blocks(db as nat, nsym as nat, coded@, b as nat),
                b * bl <= coded@.len(),
                b <= coded@.len() / (bl as nat),
                forall|wire: Seq<u8>|
                    #![trigger fec_encode_spec(db as nat, nsym as nat, wire, n_blocks as nat)]
                    coded@ == fec_encode_spec(db as nat, nsym as nat, wire, n_blocks as nat)
                        ==> ok && out@ == padded_chunk(wire, 0, (b * db) as nat),
            invariant
                b <= n_blocks,
                nsym <= 170,
                bl == db + nsym,
                db == self.data_block,
                db > 0,
                nsym == self.nsym,
                bl < 256,
                coded@.len() == coded.len(),
            ensures
                (out@, ok) == fec_decode_spec(db as nat, nsym as nat, coded@, n_blocks as nat),
                forall|wire: Seq<u8>|
                    #![trigger fec_encode_spec(db as nat, nsym as nat, wire, n_blocks as nat)]
                    coded@ == fec_encode_spec(db as nat, nsym as nat, wire, n_blocks as nat)
                        ==> ok && out@ == padded_chunk(wire, 0, (n_blocks * db) as nat),
            decreases n_blocks - b,
        {
            let start = b * bl;
            if bl > coded.len() - start {
                proof {
                    let avail = coded@.len() / (bl as nat);
                    vstd::arithmetic::div_mod::lemma_fundamental_div_mod(
                        coded@.len() as int,
                        bl as int,
                    );
                    assert(avail == b) by (nonlinear_arith)
                        requires
                            b * bl <= coded@.len(),
                            coded@.len() < b * bl + bl,
                            coded@.len() == bl * avail + coded@.len() % (bl as nat),
                            coded@.len() % (bl as nat) < bl,
                            bl > 0,
                    ;
                    assert forall|wire: Seq<u8>|
                        #![trigger fec_encode_spec(db as nat, nsym as nat, wire, n_blocks as nat)]
                        coded@ == fec_encode_spec(
                            db as nat,
                            nsym as nat,
                            wire,
                            n_blocks as nat,
                        ) implies false by {
                        lemma_fec_encode_len(db as nat, nsym as nat, wire, n_blocks as nat);
                        assert(b * bl + bl <= n_blocks * bl) by (nonlinear_arith)
                            requires
                                b < n_blocks,
                        ;
                    }
                }
                ok = false;
                break;
            }
            let block = vstd::slice::slice_subrange(coded, start, start + bl);
            let res = rs_correct_block(nsym, block);
            proof {
                assert forall|wire: Seq<u8>|
                    #![trigger fec_encode_spec(db as nat, nsym as nat, wire, n_blocks as nat)]
                    coded@ == fec_encode_spec(
                        db as nat,
                        nsym as nat,
                        wire,
                        n_blocks as nat,
                    ) implies res.is_some() && res.unwrap()@ == padded_chunk(
                    wire,
                    b * db,
                    db as nat,
                ) by {
                    lemma_fec_encode_block(db as nat, nsym as nat, wire, n_blocks as nat, b as nat);
                    let msg = padded_chunk(wire, b * db, db as nat);
                    assert(block@ =~= rs_codeword(nsym as nat, msg));
                    assert(block@.take(block@.len() - nsym) =~= msg);
                }
            }
            match res {
                Some(corrected) => {
                    out.extend_from_slice(corrected.as_slice());
                },
                None => {
                    ok = false;
                    out.extend_from_slice(vstd::slice::slice_subrange(block, 0, db));
                },
            }
            proof {
                assert(b * bl + bl == (b + 1) * bl) by (nonlinear_arith);
                assert forall|wire: Seq<u8>|
                    #![trigger fec_encode_spec(db as nat, nsym as nat, wire, n_blocks as nat)]
                    coded@ == fec_encode_spec(
                        db as nat,
                        nsym as nat,
                        wire,
                        n_blocks as nat,
                    ) implies ok && out@ == padded_chunk(wire, 0, ((b + 1) * db) as nat) by {
                    lemma_padded_step(wire, db as nat, b as nat);
                }
            }
            b = b + 1;
            proof {
                vstd::arithmetic::div_mod::lemma_fundamental_div_mod(
                    coded@.len() as int,
                    bl as int,
                );
                let avail = coded@.len() / (bl as nat);
                assert(b <= avail) by (nonlinear_arith)
                    requires
                        b * bl <= coded@.len(),
                        coded@.len() == bl * avail + coded@.len() % (bl as nat),
                        coded@.len() % (bl as nat) < bl,
                        bl > 0,
                ;
            }
        }
        (out, ok)
    }
}

/// `floor(log2(m))`, and 0 for `m < 2`.
pub open spec fn log2_floor(m: nat) -> nat
    decreases m,
{
    if m < 2 {
        0
    } else {
        1 + log2_floor(m / 2)
    }
}

/// The floor logarithm is at most its argument, and at least 1 from 2 on.
pub proof fn lemma_log2_floor_le(n: nat)
    ensures
        log2_floor(n) <= n,
        n >= 2 ==> log2_floor(n) >= 1,
    decreases n,
{
    if n >= 2 {
        lemma_log2_floor_le(n / 2);
    }
}

/// Casting to a byte keeps the value modulo 256.
proof fn lemma_low_byte(m: usize)
    ensures
        (m as u8) as nat == m % 256,
{
    assert((m as u8) as nat == m % 256) by (bit_vector);
}

/// Below `2^(k+1)` the floor logarithm is at most `k`.
pub proof fn lemma_log2_floor_lt(m: nat, k: nat)
    requires
        m < pow2(k + 1),
    ensures
        log2_floor(m) <= k,
    decreases m,
{
    if m >= 2 {
        if k == 0 {
            assert(pow2(1) == 2);
        } else {
            assert(pow2(k + 1) == 2 * pow2(k));
            assert(pow2(((k - 1) + 1) as nat) == pow2(k));
            lemma_log2_floor_lt(m / 2, (k - 1) as nat);
        }
    }
}

/// One step of the 32-bit xorshift generator (13, 17, 5).
pub open spec fn xorshift(s: u32) -> u32 {
    let a = s ^ (s << 13u32);
    let b = a ^ (a >> 17u32);
    b ^ (b << 5u32)
}

/// `s` with the entries at `i` and `j` exchanged.
pub open spec fn swapped(s: Seq<u8>, i: int, j: int) -> Seq<u8> {
    s.update(i, s[j]).update(j, s[i])
}

/// Fisher-Yates from position `i` down to 1, each step drawing the next
/// xorshift state `s'` and exchanging position `i` with `s' % (i + 1)`;
/// the shuffled sequence and the final state.
pub open spec fn shuffle_down(perm: Seq<u8>, s: u32, i: nat) -> (Seq<u8>, u32)
    decreases i,
{
    if i == 0 {
        (perm, s)
    } else {
        let s2 = xorshift(s);
        let j = (s2 as nat) % (i + 1);
        shuffle_down(swapped(perm, i as int, j as int), s2, (i - 1) as nat)
    }
}

/// `0, 1, .., k - 1`.
pub open spec fn identity_perm(k: nat) -> Seq<u8> {
    Seq::new(k, |i: int| i as u8)
}

/// One shuffled round of the `k` tones, and the generator state after it.
pub open spec fn preamble_round(k: nat, s: u32) -> (Seq<u8>, u32) {
    if k == 0 {
        (seq![], s)
    } else {
        shuffle_down(identity_perm(k), s, (k - 1) as nat)
    }
}

/// The generator state after `r` rounds from `s0`.
pub open spec fn preamble_state(k: nat, s0: u32, r: nat) -> u32
    decreases r,
{
    if r == 0 {
        s0
    } else {
        preamble_round(k, preamble_state(k, s0, (r - 1) as nat)).1
    }
}

/// `r` rounds of shuffled tones from state `s0`, back to back.
pub open spec fn preamble_stream(k: nat, s0: u32, r: nat) -> Seq<u8>
    decreases r,
{
    if r == 0 {
        seq![]
    } else {
        preamble_stream(k, s0, (r - 1) as nat) + preamble_round(
            k,
            preamble_state(k, s0, (r - 1) as nat),
        ).0
    }
}

/// Whether `p` holds each of `0..k` exactly once.
pub open spec fn is_tone_permutation(p: Seq<u8>, k: nat) -> bool {
    &&& p.len() == k
    &&& p.no_duplicates()
    &&& forall|v: int| 0 <= v < k ==> #[trigger] p.contains(v as u8)
}

proof fn lemma_swapped_perm(p: Seq<u8>, k: nat, i: int, j: int)
    requires
        is_tone_permutation(p, k),
        0 <= i < k,
        0 <= j < k,
    ensures
        is_tone_permutation(swapped(p, i, j), k),
{
    let q = swapped(p, i, j);
    let src = |x: int| if x == j { i } else if x == i { j } else { x };
    assert forall|x: int| 0 <= x < k implies #[trigger] q[x] == p[src(x)] by {}
    assert forall|v: int| 0 <= v < k implies #[trigger] q.contains(v as u8) by {
        assert(p.contains(v as u8));
        let t = choose|t: int| 0 <= t < p.len() && p[t] == v as u8;
        let x = if t == i { j } else if t == j { i } else { t };
        assert(q[x] == p[src(x)]);
        assert(q[x] == v as u8);
    }
    assert forall|a: int, b: int| 0 <= a < q.len() && 0 <= b < q.len() && a != b implies q[a]
        != q[b] by {
        assert(q[a] == p[src(a)]);
        assert(q[b] == p[src(b)]);
    }
}

proof fn lemma_shuffle_perm(p: Seq<u8>, k: nat, s: u32, i: nat)
    requires
        is_tone_permutation(p, k),
        i < k,
    ensures
        is_tone_permutation(shuffle_down(p, s, i).0, k),
    decreases i,
{
    if i > 0 {
        let s2 = xorshift(s);
        let j = (s2 as nat) % (i + 1);
        lemma_swapped_perm(p, k, i as int, j as int);
        lemma_shuffle_perm(swapped(p, i as int, j as int), k, s2, (i - 1) as nat);
    }
}

/// Every round of the preamble holds each tone exactly once, whatever the
/// generator state (for up to 256 tones).
pub proof fn lemma_preamble_round_is_permutation(k: nat, s: u32)
    requires
        k <= 256,
    ensures
        is_tone_permutation(preamble_round(k, s).0, k),
{
    if k > 0 {
        let id = identity_perm(k);
        assert forall|v: int| 0 <= v < k implies #[trigger] id.contains(v as u8) by {
            assert(id[v] == v as u8);
        }
        assert forall|a: int, b: int| 0 <= a < id.len() && 0 <= b < id.len() && a != b implies id[a]
            != id[b] by {
            assert(id[a] == a as u8 && id[b] == b as u8);
        }
        lemma_shuffle_perm(id, k, s, (k - 1) as nat);
    }
}

proof fn lemma_preamble_stream_len(k: nat, s0: u32, r: nat)
    ensures
        preamble_stream(k, s0, r).len() == r * k,
    decreases r,
{
    if r > 0 {
        lemma_preamble_stream_len(k, s0, (r - 1) as nat);
        let st = preamble_state(k, s0, (r - 1) as nat);
        if k > 0 {
            lemma_shuffle_len(identity_perm(k), st, (k - 1) as nat);
        }
        assert(((r - 1) as nat) * k + k == r * k) by (nonlinear_arith)
            requires
                r > 0,
        ;
    } else {
        assert(r * k == 0) by (nonlinear_arith)
            requires
                r == 0,
        ;
    }
}

proof fn lemma_shuffle_len(p: Seq<u8>, s: u32, i: nat)
    requires
        i < p.len(),
    ensures
        shuffle_down(p, s, i).0.len() == p.len(),
    decreases i,
{
    if i > 0 {
        let s2 = xorshift(s);
        let j = (s2 as nat) % (i + 1);
        lemma_shuffle_len(swapped(p, i as int, j as int), s2, (i - 1) as nat);
    }
}

/// What `decode_wire_fec` makes of `raw`: decode the first block, read the
/// announced length, decode the blocks that length needs (as far as `raw`
/// holds them) and keep the frame's bytes.
pub open spec fn decode_wire_spec(data_block: nat, nsym: nat, raw: Seq<u8>) -> (Seq<u8>, bool) {
    let bl = data_block + nsym;
    if raw.len() < bl {
        (raw, false)
    } else {
        let first = fec_decode_spec(data_block, nsym, raw.take(bl as int), 1);
        if first.0.len() < 2 {
            (first.0, false)
        } else {
            let wire_len = 2 + header_len(first.0) + 4;
            let nb = fec_blocks(wire_len, data_block);
            let need: int = if nb * bl < raw.len() {
                (nb * bl) as int
            } else {
                raw.len() as int
            };
            let rest = fec_decode_spec(data_block, nsym, raw.take(need), nb);
            let keep: int = if wire_len < rest.0.len() {
                wire_len as int
            } else {
                rest.0.len() as int
            };
            (rest.0.take(keep), first.1 && rest.1)
        }
    }
}

proof fn lemma_fec_encode_prefix(data_block: nat, nsym: nat, wire: Seq<u8>, nb: nat)
    requires
        nb >= 1,
    ensures
        fec_encode_spec(data_block, nsym, wire, nb).take((data_block + nsym) as int)
            == fec_encode_spec(data_block, nsym, wire, 1),
    decreases nb,
{
    let bl = data_block + nsym;
    lemma_fec_encode_len(data_block, nsym, wire, 1);
    assert(1 * bl == bl);
    if nb > 1 {
        lemma_fec_encode_prefix(data_block, nsym, wire, (nb - 1) as nat);
        lemma_fec_encode_len(data_block, nsym, wire, (nb - 1) as nat);
        assert(((nb - 1) as nat) * bl >= bl) by (nonlinear_arith)
            requires
                nb > 1,
        ;
        let prev = fec_encode_spec(data_block, nsym, wire, (nb - 1) as nat);
        let cw = rs_codeword(nsym, padded_chunk(wire, ((nb - 1) * data_block) as int, data_block));
        assert(fec_encode_spec(data_block, nsym, wire, nb) == prev + cw);
        assert((prev + cw).take(bl as int) =~= prev.take(bl as int));
    }
}

/// `2^k`.
pub open spec fn pow2(k: nat) -> nat
    decreases k,
{
    if k == 0 {
        1
    } else {
        2 * pow2((k - 1) as nat)
    }
}

/// The tone counts for which symbols carry whole bits and every symbol
/// value is a tone: the powers of two from 2 to 128.
pub open spec fn is_tone_count(m: nat) -> bool {
    m == 2 || m == 4 || m == 8 || m == 16 || m == 32 || m == 64 || m == 128
}

/// Base-M symbols of a bit stream: `bps`-bit groups, most significant bit
/// first, the last group zero-padded, each masked with `mask`.
pub open spec fn symbols_of(bits: Seq<u8>, bps: nat, mask: u8) -> Seq<u8> {
    Seq::new(
        blocks_for(bits.len(), bps),
        |j: int| (pack_prefix(bits, j * bps, bps) & mask) as u8,
    )
}

/// The bit stream of a symbol stream: the low `bps` bits of each symbol, most
/// significant first.
pub open spec fn symbol_bits(symbols: Seq<u8>, bps: nat) -> Seq<u8> {
    Seq::new(
        symbols.len() * bps,
        |t: int| ((symbols[t / (bps as int)] >> ((bps - 1 - t % (bps as int)) as u8)) & 1u8) as u8,
    )
}

/// The whole bytes of a bit stream (a partial last byte is dropped).
pub open spec fn full_bytes(bits: Seq<u8>) -> Seq<u8> {
    Seq::new(bits.len() / 8, |j: int| pack_prefix(bits, 8 * j, 8))
}

proof fn lemma_shift_in_bits(x: u8, b: u8, sh: u8)
    requires
        x < 128,
        b <= 1,
        sh < 7,
    ensures
        shift_in(x, b) == 2 * x + b,
        (shift_in(x, b) >> 0u8) & 1u8 == b,
        (shift_in(x, b) >> ((sh + 1) as u8)) & 1u8 == (x >> sh) & 1u8,
{
    assert(shift_in(x, b) == 2 * x + b) by (bit_vector)
        requires
            x < 128,
            b <= 1,
    ;
    assert((shift_in(x, b) >> 0u8) & 1u8 == b) by (bit_vector)
        requires
            x < 128,
            b <= 1,
    ;
    assert((shift_in(x, b) >> ((sh + 1) as u8)) & 1u8 == (x >> sh) & 1u8) by (bit_vector)
        requires
            x < 128,
            b <= 1,
            sh < 7,
    ;
}

/// Shifting in `k <= 8` one-bit entries builds a value below `2^k` whose bits,
/// read from the top, are those entries.
proof fn lemma_pack_prefix_bits(bits: Seq<u8>, s: int, k: nat)
    requires
        k <= 8,
        forall|i: int| #[trigger] bit_or_zero(bits, i) <= 1,
    ensures
        pack_prefix(bits, s, k) < pow2(k),
        forall|i: int|
            0 <= i < k ==> (pack_prefix(bits, s, k) >> ((k - 1 - i) as u8)) & 1u8
                == #[trigger] bit_or_zero(bits, s + i),
    decreases k,
{
    if k > 0 {
        let km = (k - 1) as nat;
        lemma_pack_prefix_bits(bits, s, km);
        let x = pack_prefix(bits, s, km);
        let b = bit_or_zero(bits, s + (km as int));
        assert(b <= 1);
        assert(pow2(km) <= 128) by {
            lemma_pow2_le(km, 7);
            reveal_with_fuel(pow2, 8);
        }
        lemma_shift_in_bits(x, b, 0);
        assert forall|i: int| 0 <= i < k implies (pack_prefix(bits, s, k) >> ((k - 1 - i) as u8))
            & 1u8 == #[trigger] bit_or_zero(bits, s + i) by {
            if i == km {
                lemma_shift_in_bits(x, b, 0);
            } else {
                lemma_shift_in_bits(x, b, (km - 1 - i) as u8);
                assert((k - 1 - i) as u8 == ((km - 1 - i) as u8 + 1) as u8);
            }
        }
    }
}

proof fn lemma_pow2_le(a: nat, b: nat)
    requires
        a <= b,
    ensures
        pow2(a) <= pow2(b),
        pow2(a) >= 1,
    decreases b,
{
    if b > 0 {
        if a < b {
            lemma_pow2_le(a, (b - 1) as nat);
        }
        lemma_pow2_le(0, (b - 1) as nat);
    }
}

/// Shifting in entries depends only on the entries read.
proof fn lemma_pack_prefix_ext(a: Seq<u8>, sa: int, b: Seq<u8>, sb: int, k: nat)
    requires
        forall|i: int| 0 <= i < k ==> #[trigger] bit_or_zero(a, sa + i) == bit_or_zero(b, sb + i),
    ensures
        pack_prefix(a, sa, k) == pack_prefix(b, sb, k),
    decreases k,
{
    if k > 0 {
        lemma_pack_prefix_ext(a, sa, b, sb, (k - 1) as nat);
        assert(bit_or_zero(a, sa + (k - 1)) == bit_or_zero(b, sb + (k - 1)));
    }
}

proof fn lemma_bit_of_is_bit(x: u8, k: int)
    ensures
        bit_of(x, k) <= 1,
{
    let sh = (7 - k) as u8;
    assert(((x >> sh) & 1u8) <= 1) by (bit_vector);
}

proof fn lemma_mask_keeps(v: u8, m: u8)
    requires
        v < m,
        is_tone_count(m as nat),
    ensures
        v & ((m - 1) as u8) == v,
{
    assert(v & ((m - 1) as u8) == v) by (bit_vector)
        requires
            v < m,
            m == 2 || m == 4 || m == 8 || m == 16 || m == 32 || m == 64 || m == 128,
    ;
}

proof fn lemma_log2_of_tone_count(m: nat)
    requires
        is_tone_count(m),
    ensures
        1 <= log2_floor(m) <= 7,
        pow2(log2_floor(m)) == m,
{
    reveal_with_fuel(log2_floor, 8);
    reveal_with_fuel(pow2, 8);
}

/// Packing bytes into base-M symbols and unpacking them gives the bytes back,
/// for every power-of-two tone count from 2 to 128.
pub proof fn lemma_symbols_roundtrip(data: Seq<u8>, m: nat)
    requires
        is_tone_count(m),
    ensures
        full_bytes(symbol_bits(symbols_of(bits_of(data), log2_floor(m), (m - 1) as u8), log2_floor(m)))
            == data,
{
    lemma_log2_of_tone_count(m);
    let bps = log2_floor(m);
    let bits = bits_of(data);
    let syms = symbols_of(bits, bps, (m - 1) as u8);
    let sb = symbol_bits(syms, bps);
    let n = data.len();
    let ns = blocks_for(bits.len(), bps);
    lemma_blocks_for(bits.len(), bps);
    assert forall|i: int| #[trigger] bit_or_zero(bits, i) <= 1 by {
        if 0 <= i < bits.len() {
            lemma_bit_of_is_bit(data[i / 8], i % 8);
        }
    }
    // every symbol bit is the corresponding data bit (or padding)
    assert forall|t: int| 0 <= t < sb.len() implies #[trigger] sb[t] == bit_or_zero(bits, t) by {
        let j = t / (bps as int);
        let i = t % (bps as int);
        vstd::arithmetic::div_mod::lemma_fundamental_div_mod(t, bps as int);
        assert(0 <= j < ns) by (nonlinear_arith)
            requires
                0 <= t < ns * bps,
                j == t / (bps as int),
                bps >= 1,
        ;
        lemma_pack_prefix_bits(bits, j * bps, bps);
        let v = pack_prefix(bits, j * bps, bps);
        assert(v < m);
        lemma_mask_keeps(v, m as u8);
        assert(syms[j] == v);
        assert(j * bps + i == t) by (nonlinear_arith)
            requires
                t == bps * j + i,
        ;
    }
    // the byte count survives the padding
    assert(sb.len() / 8 == n) by {
        vstd::arithmetic::div_mod::lemma_fundamental_div_mod(bits.len() as int, bps as int);
        assert(8 * n <= ns * bps < 8 * n + 8) by (nonlinear_arith)
            requires
                bits.len() == 8 * n,
                ns == bits.len() / bps + (if bits.len() % bps == 0 { 0int } else { 1int }),
                bits.len() == bps * (bits.len() / bps) + bits.len() % bps,
                0 <= bits.len() % bps < bps,
                bps <= 7,
                bps >= 1,
        ;
    }
    lemma_pack_bits_of(data);
    assert forall|j: int| 0 <= j < n implies #[trigger] full_bytes(sb)[j] == data[j] by {
        assert forall|i: int| 0 <= i < 8 implies #[trigger] bit_or_zero(sb, 8 * j + i)
            == bit_or_zero(bits, 8 * j + i) by {
            assert(8 * j + i < 8 * n);
            assert(sb[8 * j + i] == bit_or_zero(bits, 8 * j + i));
        }
        lemma_pack_prefix_ext(sb, 8 * j, bits, 8 * j, 8);
        assert(pack_bits(bits)[j] == pack_prefix(bits, 8 * j, 8));
    }
    assert(full_bytes(sb) =~= data);
}

/// How many of the first `n` entries of `a` and `b` agree.
pub open spec fn count_matches(a: Seq<u8>, b: Seq<u8>, n: nat) -> nat
    decreases n,
{
    if n == 0 {
        0
    } else {
        count_matches(a, b, (n - 1) as nat) + (if a[n - 1] == b[n - 1] {
            1nat
        } else {
            0nat
        })
    }
}

proof fn lemma_count_matches_bound(a: Seq<u8>, b: Seq<u8>, n: nat)
    ensures
        count_matches(a, b, n) <= n,
    decreases n,
{
    if n > 0 {
        lemma_count_matches_bound(a, b, (n - 1) as nat);
    }
}

proof fn lemma_count_matches_all(a: Seq<u8>, b: Seq<u8>, n: nat)
    requires
        forall|i: int| 0 <= i < n ==> a[i] == b[i],
    ensures
        count_matches(a, b, n) == n,
    decreases n,
{
    if n > 0 {
        lemma_count_matches_all(a, b, (n - 1) as nat);
    }
}

proof fn lemma_shuffle_bounded(p: Seq<u8>, k: nat, s: u32, i: nat)
    requires
        i < p.len(),
        p.len() == k,
        forall|t: int| 0 <= t < p.len() ==> #[trigger] p[t] < k,
    ensures
        forall|t: int|
            0 <= t < shuffle_down(p, s, i).0.len() ==> #[trigger] shuffle_down(p, s, i).0[t] < k,
    decreases i,
{
    lemma_shuffle_len(p, s, i);
    if i > 0 {
        let s2 = xorshift(s);
        let j = (s2 as nat) % (i + 1);
        let q = swapped(p, i as int, j as int);
        assert forall|t: int| 0 <= t < q.len() implies #[trigger] q[t] < k by {}
        lemma_shuffle_bounded(q, k, s2, (i - 1) as nat);
        assert(shuffle_down(p, s, i) == shuffle_down(q, s2, (i - 1) as nat));
    } else {
        assert(shuffle_down(p, s, i) == (p, s));
    }
}

proof fn lemma_preamble_stream_bounded(k: nat, s0: u32, r: nat)
    requires
        k <= 256,
    ensures
        forall|t: int|
            0 <= t < preamble_stream(k, s0, r).len() ==> #[trigger] preamble_stream(k, s0, r)[t]
                < k,
    decreases r,
{
    if r > 0 {
        lemma_preamble_stream_bounded(k, s0, (r - 1) as nat);
        let st = preamble_state(k, s0, (r - 1) as nat);
        if k > 0 {
            let id = identity_perm(k);
            assert forall|t: int| 0 <= t < id.len() implies #[trigger] id[t] < k by {}
            lemma_shuffle_bounded(id, k, st, (k - 1) as nat);
        }
        let a = preamble_stream(k, s0, (r - 1) as nat);
        let b = preamble_round(k, st).0;
        assert(preamble_stream(k, s0, r) == a + b);
        assert forall|t: int| 0 <= t < (a + b).len() implies #[trigger] (a + b)[t] < k by {
            if t >= a.len() {
                assert((a + b)[t] == b[t - a.len()]);
            }
        }
    }
}

proof fn lemma_mask_below(x: u8, m: u8)
    requires
        m >= 1,
    ensures
        x & ((m - 1) as u8) < m,
{
    assert(x & ((m - 1) as u8) < m) by (bit_vector)
        requires
            m >= 1,
    ;
}

/// One step of the xorshift generator.
fn next_state(s: u32) -> (r: u32)
    ensures
        r == xorshift(s),
{
    let mut x = s;
    x ^= x << 13;
    x ^= x >> 17;
    x ^= x << 5;
    x
}

/// `n` symbols of shuffled rounds of `k` tones from `seed` (forced odd).
pub open spec fn preamble_spec(k: nat, seed: u32, n: nat) -> Seq<u8> {
    preamble_stream(k, seed | 1u32, blocks_for(n, k)).take(n as int)
}

/// A preamble of `k > 0` tones has the length asked for, and each entry is a
/// tone.
pub proof fn lemma_preamble_shape(k: nat, seed: u32, n: nat)
    requires
        0 < k <= 256,
    ensures
        preamble_spec(k, seed, n).len() == n,
        forall|t: int|
            0 <= t < preamble_spec(k, seed, n).len() ==> #[trigger] preamble_spec(k, seed, n)[t] < k,
{
    let r = blocks_for(n, k);
    lemma_preamble_stream_len(k, seed | 1u32, r);
    lemma_preamble_stream_bounded(k, seed | 1u32, r);
    lemma_blocks_for(n, k);
    vstd::arithmetic::div_mod::lemma_fundamental_div_mod(n as int, k as int);
    assert(r * k >= n) by (nonlinear_arith)
        requires
            r == n / k + (if n % k == 0 { 0int } else { 1int }),
            n == k * (n / k) + n % k,
            0 <= n % k < k,
    ;
}

/// `count` symbols of shuffled rounds of `tones` tones (taken as a byte),
/// driven by xorshift from `seed` forced odd.
pub fn shuffled_preamble(tones: usize, seed: u32, count: usize) -> (out: Vec<u8>)
requires
    count == 0 || tones % 256 != 0,
ensures
    out@ == preamble_spec((tones % 256) as nat, seed, count as nat),
{
    let s0: u32 = seed | 1;
    let mut s: u32 = s0;
    #[verifier::truncate]
    let k8 = tones as u8;
    let ghost k: nat = (tones % 256) as nat;
    proof {
        lemma_low_byte(tones);
    }
    let n = count;
    let mut out: Vec<u8> = Vec::new();
    let ghost mut r: nat = 0;
    while out.len() < n
        invariant
            n == count,
            n == 0 || k > 0,
            k8 as nat == k,
            k <= 255,
            out@ == preamble_stream(k, s0, r),
            s == preamble_state(k, s0, r),
            out@.len() == r * k,
            r == 0 || (r - 1) * k < n,
        decreases n + k - out@.len(),
    {
        let mut perm: Vec<u8> = Vec::new();
        let mut v: u8 = 0;
        while v < k8
            invariant
                v <= k8,
                perm@ == identity_perm(v as nat),
            decreases k8 - v,
        {
            perm.push(v);
            v = v + 1;
            assert(perm@ =~= identity_perm(v as nat));
        }
        let ghost s_round = s;
        let mut i: usize = perm.len();
        if i > 0 {
            i = i - 1;
        }
        assert(preamble_round(k, s_round) == shuffle_down(perm@, s, i as nat));
        while i > 0
            invariant
                i < perm@.len(),
                perm@.len() == k,
                k <= 255,
                shuffle_down(perm@, s, i as nat) == preamble_round(k, s_round),
            decreases i,
        {
            let ghost before = perm@;
            s = next_state(s);
            let j = (s as usize) % (i + 1);
            let a = perm[i];
            let b = perm[j];
            perm.set(i, b);
            perm.set(j, a);
            assert(perm@ =~= swapped(before, i as int, j as int));
            i = i - 1;
        }
        let ghost old_out = out@;
        out.extend_from_slice(perm.as_slice());
        proof {
            lemma_shuffle_len(identity_perm(k), s_round, (k - 1) as nat);
            assert(out@ == preamble_stream(k, s0, r + 1));
            r = r + 1;
            assert(out@.len() == r * k) by (nonlinear_arith)
                requires
                    out@.len() == old_out.len() + k,
                    old_out.len() == (r - 1) * k,
            ;
        }
    }
    proof {
        if n > 0 {
            let t = (n + k - 1) as int;
            let rem = t - (r as int) * (k as int);
            assert(0 <= rem < k) by (nonlinear_arith)
                requires
                    r == 0 || (r - 1) * k < n,
                    n <= r * k,
                    n > 0,
                    k > 0,
                    rem == t - (r as int) * (k as int),
                    t == n + k - 1,
            ;
            vstd::arithmetic::div_mod::lemma_fundamental_div_mod_converse(
                t,
                k as int,
                r as int,
                rem,
            );
        }
    }
    out.truncate(n);
    out
}

/// Whether `s` begins with `prefix`.
pub open spec fn starts_with(s: Seq<u8>, prefix: Seq<u8>) -> bool {
    prefix.len() <= s.len() && s.take(prefix.len() as int) == prefix
}

/// The coded wire frame of `payload` for `data_block`-byte blocks with
/// `nsym` parity bytes each.
pub open spec fn coded_frame(data_block: nat, nsym: nat, payload: Seq<u8>) -> Seq<u8> {
    fec_encode_spec(data_block, nsym, wrapped(payload), fec_blocks(wrapped(payload).len(), data_block))
}

/// FEC-decode a variable-length wire frame. The length lives in the first
/// data block, so that block is decoded and read first, then all the
/// blocks the frame needs. Bytes past the coded frame are ignored.
pub fn decode_wire(raw: &[u8], fec: &FskFec) -> (out: (Vec<u8>, bool))
    requires
        fec.data_block > 0,
        fec.data_block + fec.nsym < 256,
        fec.nsym <= 170,
    ensures
        (out.0@, out.1) == decode_wire_spec(fec.data_block as nat, fec.nsym as nat, raw@),
        forall|p: Seq<u8>|
            #![trigger wrapped(p)]
            p.len() < 65536 && fec.data_block >= 2 && starts_with(
                raw@,
                coded_frame(fec.data_block as nat, fec.nsym as nat, p),
            ) ==> out.1 && out.0@ == wrapped(p),
{
    let bl = fec.block_len();
    let db = fec.data_block;
    let nsym = fec.nsym;
    if raw.len() < bl {
        proof {
            assert forall|p: Seq<u8>|
                #![trigger wrapped(p)]
                p.len() < 65536 && db >= 2 && starts_with(
                    raw@,
                    coded_frame(db as nat, nsym as nat, p),
                ) implies false by {
                let nb = fec_blocks(wrapped(p).len(), db as nat);
                lemma_fec_encode_len(db as nat, nsym as nat, wrapped(p), nb);
                assert(nb * bl >= bl) by (nonlinear_arith)
                    requires
                        nb >= 1,
                ;
            }
        }
        return (vstd::slice::slice_to_vec(raw), false);
    }
    let head = vstd::slice::slice_subrange(raw, 0, bl);
    let (first, ok1) = fec.decode(head, 1);
    proof {
        assert forall|p: Seq<u8>|
            #![trigger wrapped(p)]
            p.len() < 65536 && db >= 2 && starts_with(
                raw@,
                coded_frame(db as nat, nsym as nat, p),
            ) implies ok1 && first@ == padded_chunk(wrapped(p), 0, db as nat) by {
            let w = wrapped(p);
            let nb = fec_blocks(w.len(), db as nat);
            lemma_fec_encode_prefix(db as nat, nsym as nat, w, nb);
            lemma_fec_encode_len(db as nat, nsym as nat, w, nb);
            assert(nb * bl >= bl) by (nonlinear_arith)
                requires
                    nb >= 1,
            ;
            assert(head@ =~= fec_encode_spec(db as nat, nsym as nat, w, nb).take(bl as int));
            assert(1 * db == db);
        }
    }
    if first.len() < 2 {
        return (first, false);
    }
    let len = ((first[0] as usize) << 8) | first[1] as usize;
    let b0 = first[0];
    let b1 = first[1];
    assert(len == b0 as nat * 256 + b1 as nat) by (bit_vector)
        requires
            len == ((b0 as usize) << 8usize) | (b1 as usize),
    ;
    let wire_len = 2 + len + 4;
    let nb = fec.n_blocks(wire_len);
    assert(nb * bl <= 65542 * 256) by (nonlinear_arith)
        requires
            nb <= wire_len + 1,
            wire_len <= 65541,
            bl < 256,
    ;
    let need = if nb * bl < raw.len() {
        nb * bl
    } else {
        raw.len()
    };
    let body = vstd::slice::slice_subrange(raw, 0, need);
    let (data, ok2) = fec.decode(body, nb);
    let keep = if wire_len < data.len() {
        wire_len
    } else {
        data.len()
    };
    let wire = vstd::slice::slice_to_vec(vstd::slice::slice_subrange(data.as_slice(), 0, keep));
    proof {
        assert forall|p: Seq<u8>|
            #![trigger wrapped(p)]
            p.len() < 65536 && db >= 2 && starts_with(
                raw@,
                coded_frame(db as nat, nsym as nat, p),
            ) implies ok1 && ok2 && wire@ == wrapped(p) by {
            let w = wrapped(p);
            let nbw = fec_blocks(w.len(), db as nat);
            assert(first@ == padded_chunk(w, 0, db as nat));
            assert(first@[0] == w[0] && first@[1] == w[1]);
            assert(header_len(w) == p.len());
            assert(wire_len == w.len());
            lemma_fec_encode_len(db as nat, nsym as nat, w, nbw);
            assert(need == nbw * bl);
            assert(body@ =~= fec_encode_spec(db as nat, nsym as nat, w, nbw));
            lemma_blocks_for(w.len(), db as nat);
            let q = (w.len() as int) / (db as int);
            let r = (w.len() as int) % (db as int);
            vstd::arithmetic::div_mod::lemma_fundamental_div_mod(w.len() as int, db as int);
            assert(q == (w.len() / (db as nat)) as int);
            assert(r == (w.len() % (db as nat)) as int);
            assert(w.len() >= 6);
            assert(blocks_for(w.len(), db as nat) >= 1) by (nonlinear_arith)
                requires
                    blocks_for(w.len(), db as nat) == q + (if r == 0 { 0int } else { 1int }),
                    w.len() == db * q + r,
                    w.len() >= 6,
                    0 <= r < db,
            ;
            assert(nbw == q + (if r == 0 { 0int } else { 1int }));
            assert(nbw * db >= w.len()) by (nonlinear_arith)
                requires
                    nbw == q + (if r == 0 { 0int } else { 1int }),
                    w.len() == db * q + r,
                    0 <= r < db,
            ;
            assert(data@ == padded_chunk(w, 0, (nbw * db) as nat));
            assert(wire@ =~= w);
        }
    }
    (wire, ok1 && ok2)
}

/// Data bytes per coded block for a configured block size (at least one).
pub open spec fn fec_block_of(fec_data_block: usize) -> nat {
    if fec_data_block == 0 {
        1
    } else {
        fec_data_block as nat
    }
}

/// The payload as sent: cut to `payload_size`.
pub open spec fn sent_payload(payload: Seq<u8>, payload_size: usize) -> Seq<u8> {
    if payload.len() > payload_size {
        payload.take(payload_size as int)
    } else {
        payload
    }
}

/// The transmitted wire bytes of a payload: the wire frame of the sent
/// payload, Reed-Solomon coded when parity bytes are configured.
pub open spec fn wire_bytes_spec(
    payload: Seq<u8>,
    payload_size: usize,
    rs_nsym: usize,
    fec_data_block: usize,
) -> Seq<u8> {
    let p = sent_payload(payload, payload_size);
    if rs_nsym > 0 {
        coded_frame(fec_block_of(fec_data_block), rs_nsym as nat, p)
    } else {
        wrapped(p)
    }
}

/// Whether the coder can take a wire frame of `wire_len` bytes: the blocks
/// fit the code, and the coded frame fits in memory.
pub open spec fn fec_fits_spec(wire_len: nat, rs_nsym: usize, fec_data_block: usize) -> bool {
    rs_nsym <= 255 && (rs_nsym > 0 ==> fec_block_of(fec_data_block) + rs_nsym <= 256 && fec_blocks(
        wire_len,
        fec_block_of(fec_data_block),
    ) * (fec_block_of(fec_data_block) + rs_nsym) <= usize::MAX)
}

/// The whole bytes of the low `bps` bits of each symbol, most significant
/// first.
pub fn unpack_symbols(symbols: &[u8], bps: usize) -> (out: Vec<u8>)
    requires
        bps <= 8,
        symbols@.len() * bps <= usize::MAX,
    ensures
        out@ == full_bytes(symbol_bits(symbols@, bps as nat)),
{
    let ghost all_bits = symbol_bits(symbols@, bps as nat);
    let mut bits: Vec<u8> = Vec::new();
    let mut k: usize = 0;
    while k < symbols.len()
        invariant
            bps <= 8,
            symbols@.len() * bps <= usize::MAX,
            all_bits == symbol_bits(symbols@, bps as nat),
            k <= symbols@.len(),
            bits@.len() == k * bps,
            forall|t: int| 0 <= t < bits@.len() ==> #[trigger] bits@[t] == all_bits[t],
        decreases symbols@.len() - k,
    {
        let sym = symbols[k];
        let mut i: usize = bps;
        assert(k * bps + bps <= symbols@.len() * bps) by (nonlinear_arith)
            requires
                k < symbols@.len(),
        ;
        while i > 0
            invariant
                i <= bps,
                bps <= 8,
                k < symbols@.len(),
                sym == symbols@[k as int],
                all_bits == symbol_bits(symbols@, bps as nat),
                k * bps + bps <= symbols@.len() * bps,
                bits@.len() == k * bps + (bps - i),
                forall|t: int| 0 <= t < bits@.len() ==> #[trigger] bits@[t] == all_bits[t],
            decreases i,
        {
            let ghost t = (k * bps + (bps - i)) as int;
            proof {
                vstd::arithmetic::div_mod::lemma_fundamental_div_mod_converse(
                    t,
                    bps as int,
                    k as int,
                    (bps - i) as int,
                );
            }
            bits.push((sym >> ((i - 1) as u8)) & 1);
            i = i - 1;
        }
        assert(bits@.len() == (k + 1) * bps) by (nonlinear_arith)
            requires
                bits@.len() == k * bps + bps,
        ;
        k = k + 1;
    }
    let n_bytes = bits.len() / 8;
    let mut out: Vec<u8> = Vec::new();
    let mut j: usize = 0;
    while j < n_bytes
        invariant
            n_bytes == bits@.len() / 8,
            bits@.len() == all_bits.len(),
            bits@ == all_bits,
            j <= n_bytes,
            out@ == full_bytes(all_bits).take(j as int),
        decreases n_bytes - j,
    {
        let mut v: u8 = 0;
        let mut c: usize = 0;
        assert(8 * j + 8 <= bits.len());
        while c < 8
            invariant
                c <= 8,
                j < n_bytes,
                8 * j + 8 <= bits@.len(),
                bits@.len() == bits.len(),
                v == pack_prefix(bits@, 8 * j, c as nat),
            decreases 8 - c,
        {
            v = (v << 1) | bits[8 * j + c];
            c = c + 1;
        }
        out.push(v);
        j = j + 1;
        assert(out@ =~= full_bytes(all_bits).take(j as int));
    }
    assert(out@ =~= full_bytes(all_bits));
    out
}

/// A symbol stream made of the successive `bps`-bit groups of the bit
/// expansion of `data` (zero-padded), covering all of it, unpacks to bytes
/// that begin with `data`.
pub proof fn lemma_symbol_groups_unpack(data: Seq<u8>, syms: Seq<u8>, bps: nat)
    requires
        1 <= bps <= 8,
        forall|j: int|
            0 <= j < syms.len() ==> #[trigger] syms[j] == pack_prefix(bits_of(data), j * bps, bps),
        syms.len() * bps >= 8 * data.len(),
    ensures
        starts_with(full_bytes(symbol_bits(syms, bps)), data),
{
    let bits = bits_of(data);
    let sb = symbol_bits(syms, bps);
    let n = data.len();
    assert forall|i: int| #[trigger] bit_or_zero(bits, i) <= 1 by {
        if 0 <= i < bits.len() {
            lemma_bit_of_is_bit(data[i / 8], i % 8);
        }
    }
    assert forall|t: int| 0 <= t < sb.len() implies #[trigger] sb[t] == bit_or_zero(bits, t) by {
        let j = t / (bps as int);
        let i = t % (bps as int);
        vstd::arithmetic::div_mod::lemma_fundamental_div_mod(t, bps as int);
        assert(0 <= j < syms.len()) by (nonlinear_arith)
            requires
                0 <= t < syms.len() * bps,
                j == t / (bps as int),
                bps >= 1,
        ;
        lemma_pack_prefix_bits(bits, j * bps, bps);
        assert(j * bps + i == t) by (nonlinear_arith)
            requires
                t == bps * j + i,
        ;
    }
    lemma_pack_bits_of(data);
    let fb = full_bytes(sb);
    assert(fb.len() >= n);
    assert forall|j: int| 0 <= j < n implies #[trigger] fb[j] == data[j] by {
        assert forall|i: int| 0 <= i < 8 implies #[trigger] bit_or_zero(sb, 8 * j + i)
            == bit_or_zero(bits, 8 * j + i) by {
            assert(8 * j + i < 8 * n);
            assert(sb[8 * j + i] == bit_or_zero(bits, 8 * j + i));
        }
        lemma_pack_prefix_ext(sb, 8 * j, bits, 8 * j, 8);
        assert(pack_bits(bits)[j] == pack_prefix(bits, 8 * j, 8));
    }
    assert(fb.take(n as int) =~= data);
}

/// Bytes that begin with the wire frame of a payload shorter than 2^16 bytes
/// unwrap to that payload, whatever follows the frame.
pub proof fn lemma_unwrap_prefix(payload: Seq<u8>, bytes: Seq<u8>)
    requires
        payload.len() < 65536,
        starts_with(bytes, wrapped(payload)),
    ensures
        unwrapped(bytes) == Some(payload),
{
    let w = wrapped(payload);
    lemma_unwrap_wrapped(payload);
    let end = 2 + payload.len() as int;
    assert(w.len() == end + 4);
    assert(bytes[0] == w[0] && bytes[1] == w[1]);
    assert(bytes.subrange(0, end) =~= w.subrange(0, end));
    assert(bytes.subrange(end, end + 4) =~= w.subrange(end, end + 4));
    assert(bytes.subrange(2, end) =~= w.subrange(2, end));
}

/// The payload recovered from one frame's tone decisions.
pub struct FskSymbols {
    /// Payload symbols (preamble stripped, differential decoded).
    pub symbols: Vec<u8>,
    /// Payload bytes (symbols packed to bytes, FEC-decoded when enabled).
    pub bytes: Vec<u8>,
    /// Whether the FEC decoded without flagged block failures.
    pub fec_ok: bool,
    /// Preamble symbols matched.
    pub preamble_matches: usize,
}

/// The integer parameters of the M-FSK modem (tone frequencies and
/// amplitude are the audio side's).
#[derive(Clone, Copy, Debug)]
pub struct FskConfig {
    pub sample_rate: u32,
    /// Number of tones (2, 4, 8 or 16).
    pub m: usize,
    /// Samples per symbol (tone burst).
    pub symbol_samples: usize,
    /// Number of known symbols prefixing every frame.
    pub preamble_symbols: usize,
    pub preamble_seed: u32,
    /// Transmit data as the difference from the previous symbol.
    pub differential: bool,
    /// Silence inserted before the frame body.
    pub leading_silence: usize,
    /// Silence inserted after the frame body.
    pub guard_samples: usize,
    /// Reed-Solomon parity bytes per block (0 disables FEC).
    pub rs_nsym: usize,
    /// Data bytes per RS block when FEC is enabled.
    pub fec_data_block: usize,
    /// Largest payload carried by one frame.
    pub payload_size: usize,
}

impl FskConfig {
    /// Bits carried by one symbol.
    pub open spec fn spec_bits_per_symbol(&self) -> nat {
        log2_floor(self.m as nat)
    }

    /// The mask applied to symbol values: the tone count, as a byte, less one.
    pub open spec fn spec_mask(&self) -> u8 {
        ((self.m % 256) - 1) as u8
    }

    /// The preamble: rounds of shuffled tones from the seed (forced odd),
    /// cut to `preamble_symbols`.
    pub open spec fn spec_preamble(&self) -> Seq<u8> {
        preamble_spec((self.m % 256) as nat, self.preamble_seed, self.preamble_symbols as nat)
    }

    /// Wire length of a full-size frame (length header, payload, CRC).
    pub open spec fn spec_wire_len(&self) -> nat {
        (self.payload_size + 6) as nat
    }

    /// Split bytes into base-M symbols, most significant bit first; the last
    /// symbol is zero-padded.
    pub fn bytes_to_symbols(&self, bytes: &[u8]) -> (out: Vec<u8>)
        requires
            2 <= self.m < 512,
            self.m != 256,
            8 * bytes@.len() <= usize::MAX,
        ensures
            out@ == symbols_of(bits_of(bytes@), self.spec_bits_per_symbol(), self.spec_mask()),
    {
        let bps = self.bits_per_symbol();
        proof {
            reveal_with_fuel(pow2, 10);
            lemma_log2_floor_lt(self.m as nat, 8);
            lemma_log2_floor_le(self.m as nat);
        }
        let mask = self.mask();
        let bits = bytes_to_bits(bytes);
        proof {
            assert(bits@.len() == bits.len());
            lemma_blocks_for(bits@.len(), bps as nat);
        }
        let q = bits.len() / bps;
        let r = bits.len() % bps;
        let n_sym = if r == 0 { q } else { q + 1 };
        proof {
            vstd::arithmetic::div_mod::lemma_fundamental_div_mod(bits.len() as int, bps as int);
        }
        let ghost target = symbols_of(bits@, bps as nat, mask);
        let mut out: Vec<u8> = Vec::new();
        let mut j: usize = 0;
        while j < n_sym
            invariant
                1 <= bps <= 8,
                n_sym == blocks_for(bits@.len(), bps as nat),
                n_sym == (if r == 0 { q as int } else { q + 1 }),
                bits.len() == bps * q + r,
                r < bps,
                bits@.len() == bits.len(),
                target == symbols_of(bits@, bps as nat, mask),
                j <= n_sym,
                out@ == target.take(j as int),
            decreases n_sym - j,
        {
            assert(j * bps <= bits.len()) by (nonlinear_arith)
                requires
                    j < n_sym,
                    n_sym == (if r == 0 { q as int } else { q + 1 }),
                    bits.len() == bps * q + r,
                    r < bps,
                    bps >= 1,
            ;
            let start = j * bps;
            let mut v: u8 = 0;
            let mut i: usize = 0;
            while i < bps
                invariant
                    i <= bps,
                    start <= bits@.len(),
                    bits@.len() == bits.len(),
                    v == pack_prefix(bits@, start as int, i as nat),
                decreases bps - i,
            {
                let b = if i < bits.len() - start {
                    bits[start + i]
                } else {
                    0
                };
                v = (v << 1) | b;
                i = i + 1;
            }
            out.push(v & mask);
            j = j + 1;
            assert(out@ =~= target.take(j as int));
        }
        assert(out@ =~= target);
        out
    }

    /// Pack symbols into bytes, most significant bit first; a partial last
    /// byte is dropped.
    pub fn symbols_to_bytes(&self, symbols: &[u8]) -> (out: Vec<u8>)
        requires
            self.m < 512,
            symbols@.len() * self.spec_bits_per_symbol() <= usize::MAX,
        ensures
            out@ == full_bytes(symbol_bits(symbols@, self.spec_bits_per_symbol())),
    {
        let bps = self.bits_per_symbol();
        proof {
            reveal_with_fuel(pow2, 10);
            lemma_log2_floor_lt(self.m as nat, 8);
        }
        unpack_symbols(symbols, bps)
    }

    /// The transmitted wire bytes for a payload: cut to `payload_size`, add
    /// length and CRC, then RS-code if enabled. No padding to a fixed size,
    /// so a short frame stays short.
    pub fn wire_bytes(&self, payload: &[u8]) -> (out: Vec<u8>)
        requires
            self.fec_fits(wrapped(self.spec_sent_payload(payload@)).len()),
        ensures
            out@ == self.spec_wire_bytes(payload@),
    {
        let p = if payload.len() > self.payload_size {
            vstd::slice::slice_subrange(payload, 0, self.payload_size)
        } else {
            payload
        };
        assert(p@ =~= self.spec_sent_payload(payload@));
        let wire = wrap_frame(p);
        match self.fec() {
            Some(fec) => fec.encode(wire.as_slice()),
            None => wire,
        }
    }

    /// FEC-decode a variable-length wire frame (see `decode_wire`).
    pub fn decode_wire_fec(&self, raw: &[u8], fec: &FskFec) -> (out: (Vec<u8>, bool))
        requires
            fec.data_block > 0,
            fec.data_block + fec.nsym < 256,
            fec.nsym <= 170,
        ensures
            (out.0@, out.1) == decode_wire_spec(fec.data_block as nat, fec.nsym as nat, raw@),
            forall|p: Seq<u8>|
                #![trigger wrapped(p)]
                p.len() < 65536 && fec.data_block >= 2 && starts_with(
                    raw@,
                    coded_frame(fec.data_block as nat, fec.nsym as nat, p),
                ) ==> out.1 && out.0@ == wrapped(p),
    {
        decode_wire(raw, fec)
    }

    /// The symbols of a frame body: the preamble, then the payload symbols,
    /// each mapped after the symbol sent before it.
    pub fn body_symbols(&self, bytes: &[u8]) -> (out: Vec<u8>)
        requires
            is_tone_count(self.m as nat),
            8 * bytes@.len() <= usize::MAX,
        ensures
            out@ == self.spec_body_symbols(bytes@),
    {
        let mut symbols = self.preamble();
        proof {
            self.lemma_preamble_shape();
        }
        let ghost pre = symbols@;
        let prev0: u8 = if symbols.len() == 0 {
            0
        } else {
            symbols[symbols.len() - 1]
        };
        let syms = self.bytes_to_symbols(bytes);
        proof {
            lemma_low_byte(self.m);
            lemma_log2_of_tone_count(self.m as nat);
        }
        let mut prev = prev0;
        let mut i: usize = 0;
        while i < syms.len()
            invariant
                is_tone_count(self.m as nat),
                self.m % 256 == self.m,
                self.spec_mask() == (self.m - 1) as u8,
                pre == self.spec_preamble(),
                syms@ == symbols_of(bits_of(bytes@), self.spec_bits_per_symbol(), self.spec_mask()),
                prev0 == (if pre.len() == 0 {
                    0
                } else {
                    pre.last()
                }),
                i <= syms@.len(),
                symbols@ == pre + self.spec_mapped(syms@, prev0, i as nat),
                prev == (if i == 0 {
                    prev0
                } else {
                    self.spec_mapped(syms@, prev0, i as nat).last()
                }),
                prev < self.m,
            decreases syms@.len() - i,
        {
            let d = syms[i];
            proof {
                lemma_mask_below(
                    pack_prefix(bits_of(bytes@), i * self.spec_bits_per_symbol(), self.spec_bits_per_symbol()),
                    self.m as u8,
                );
                self.lemma_unmap_map(d, prev);
            }
            let t = self.map_symbol(d, prev);
            symbols.push(t);
            prev = t;
            i = i + 1;
        }
        symbols
    }

    /// The integer tail of frame demodulation: from the tone decisions of a
    /// burst (preamble slots first), check the preamble, undo the
    /// differential mapping, pack the payload symbols into bytes and
    /// FEC-decode them. A frame body built by `body_symbols` from
    /// `wire_bytes(p)` decodes to the wire frame of the sent payload.
    pub fn decode_symbols(&self, tx: &[u8]) -> (out: Option<FskSymbols>)
        requires
            2 <= self.m <= 128,
            self.preamble_symbols >= 1,
            forall|i: int| 0 <= i < tx@.len() ==> #[trigger] tx@[i] < self.m,
            8 * tx@.len() <= usize::MAX,
            self.rs_nsym <= 170,
            self.rs_nsym > 0 ==> self.spec_fec_block() + self.rs_nsym < 256,
        ensures
            out.is_some() == self.spec_decode_symbols(tx@).is_some(),
            out.is_some() ==> (out.unwrap().symbols@, out.unwrap().bytes@, out.unwrap().fec_ok,
            out.unwrap().preamble_matches as nat) == self.spec_decode_symbols(tx@).unwrap(),
            forall|p: Seq<u8>|
                #![trigger self.spec_wire_bytes(p)]
                is_tone_count(self.m as nat) && self.spec_sent_payload(p).len() < 65536 && (
                self.rs_nsym > 0 ==> self.spec_fec_block() >= 2) && tx@ == self.spec_body_symbols(
                    self.spec_wire_bytes(p),
                ) ==> out.is_some() && out.unwrap().fec_ok && out.unwrap().bytes@ == wrapped(
                    self.spec_sent_payload(p),
                ),
    {
        let pre = self.preamble();
        proof {
            lemma_low_byte(self.m);
            self.lemma_preamble_shape();
        }
        let n = pre.len();
        if tx.len() < n {
            proof {
                self.lemma_no_body_rejected(tx@);
            }
            return None;
        }
        let mut matches: usize = 0;
        let mut i: usize = 0;
        while i < n
            invariant
                n == pre@.len(),
                n <= tx@.len(),
                i <= n,
                matches == count_matches(tx@, pre@, i as nat),
                matches <= i,
            decreases n - i,
        {
            if tx[i] == pre[i] {
                matches = matches + 1;
            }
            i = i + 1;
        }
        if matches * 4 < n * 3 {
            proof {
                self.lemma_no_body_rejected(tx@);
            }
            return None;
        }
        let mut prev = pre[n - 1];
        let mut data: Vec<u8> = Vec::new();
        let mut k: usize = n;
        let ghost target = self.spec_unmapped(tx@, pre@, n as nat);
        while k < tx.len()
            invariant
                2 <= self.m <= 128,
                self.m % 256 == self.m,
                n == pre@.len(),
                1 <= n <= k <= tx@.len(),
                forall|t: int| 0 <= t < tx@.len() ==> #[trigger] tx@[t] < self.m,
                forall|t: int| 0 <= t < pre@.len() ==> #[trigger] pre@[t] < self.m % 256,
                target == self.spec_unmapped(tx@, pre@, n as nat),
                prev == (if k == n {
                    pre@.last()
                } else {
                    tx@[k - 1]
                }),
                data@ == target.take(k - n),
            decreases tx@.len() - k,
        {
            let d = self.unmap_symbol(tx[k], prev);
            data.push(d);
            prev = tx[k];
            k = k + 1;
            assert(data@ =~= target.take(k - n));
        }
        assert(data@ =~= target);
        if data.len() == 0 {
            proof {
                self.lemma_no_body_rejected(tx@);
            }
            return None;
        }
        proof {
            reveal_with_fuel(pow2, 9);
            lemma_log2_floor_lt(self.m as nat, 7);
            let bps = self.spec_bits_per_symbol();
            assert(data@.len() * bps <= 8 * tx@.len()) by (nonlinear_arith)
                requires
                    data@.len() <= tx@.len(),
                    bps <= 7,
            ;
        }
        let raw = self.symbols_to_bytes(data.as_slice());
        let ghost raw_spec = full_bytes(symbol_bits(data@, self.spec_bits_per_symbol()));
        let (bytes, fec_ok) = match self.fec() {
            Some(fec) => self.decode_wire_fec(raw.as_slice(), &fec),
            None => (raw, true),
        };
        proof {
            assert forall|p: Seq<u8>|
                #![trigger self.spec_wire_bytes(p)]
                is_tone_count(self.m as nat) && self.spec_sent_payload(p).len() < 65536 && (
                self.rs_nsym > 0 ==> self.spec_fec_block() >= 2) && tx@ == self.spec_body_symbols(
                    self.spec_wire_bytes(p),
                ) implies fec_ok && bytes@ == wrapped(self.spec_sent_payload(p)) by {
                self.lemma_body_decodes(p);
                let w = wrapped(self.spec_sent_payload(p));
                assert(raw@ == self.spec_wire_bytes(p));
                if self.rs_nsym > 0 {
                    assert(raw@ == coded_frame(
                        self.spec_fec_block(),
                        self.rs_nsym as nat,
                        self.spec_sent_payload(p),
                    ));
                    assert(raw@.take(raw@.len() as int) =~= raw@);
                }
            }
        }
        Some(FskSymbols { symbols: data, bytes, fec_ok, preamble_matches: matches })
    }

    /// Samples taken by the preamble.
    pub fn preamble_samples(&self) -> (n: usize)
        requires
            self.preamble_symbols * self.symbol_samples <= usize::MAX,
        ensures
            n == self.preamble_symbols * self.symbol_samples,
    {
        self.preamble_symbols * self.symbol_samples
    }

    /// Samples of the frame body that precede the payload.
    pub fn frame_body_samples(&self) -> (n: usize)
        requires
            self.preamble_symbols * self.symbol_samples <= usize::MAX,
        ensures
            n == self.preamble_symbols * self.symbol_samples,
    {
        self.preamble_samples()
    }

    /// Deterministic pseudo-random preamble: rounds of a Fisher-Yates shuffle
    /// of all tones driven by xorshift from the seed, so every tone appears
    /// about equally often (`lemma_preamble_round_is_permutation`).
    pub fn preamble(&self) -> (out: Vec<u8>)
        requires
            self.preamble_symbols == 0 || self.m % 256 != 0,
        ensures
            out@ == self.spec_preamble(),
    {
        shuffled_preamble(self.m, self.preamble_seed, self.preamble_symbols)
    }

    /// The transmitted value of payload symbol `data` after the transmitted
    /// symbol `prev`: `(data + prev) mod M` in differential mode, else `data`,
    /// both masked to the tone range.
    pub fn map_symbol(&self, data: u8, prev: u8) -> (t: u8)
        requires
            self.m % 256 != 0,
            self.differential ==> data + prev <= 255,
        ensures
            t == self.spec_map_symbol(data, prev),
    {
        let mask = self.mask();
        if self.differential {
            (data + prev) & mask
        } else {
            data & mask
        }
    }

    /// Inverse of `map_symbol`.
    pub fn unmap_symbol(&self, tx: u8, prev: u8) -> (d: u8)
        requires
            self.m % 256 != 0,
            self.differential ==> tx + (self.m % 256) <= 255 && prev <= tx + (self.m % 256),
        ensures
            d == self.spec_unmap_symbol(tx, prev),
    {
        #[verifier::truncate]
        let m8 = self.m as u8;
        proof {
            lemma_low_byte(self.m);
        }
        let mask = self.mask();
        if self.differential {
            (tx + m8 - prev) & mask
        } else {
            tx & mask
        }
    }

    /// The tone count as a byte, less one.
    fn mask(&self) -> (r: u8)
        requires
            self.m % 256 != 0,
        ensures
            r == self.spec_mask(),
    {
        #[verifier::truncate]
        let m8 = self.m as u8;
        proof {
            lemma_low_byte(self.m);
        }
        m8 - 1
    }

    /// The frame coder, when parity bytes are configured.
    pub fn fec(&self) -> (f: Option<FskFec>)
        requires
            self.rs_nsym <= 255,
        ensures
            f.is_some() == (self.rs_nsym > 0),
            f.is_some() ==> f.unwrap().nsym == self.rs_nsym && f.unwrap().data_block == (if self.fec_data_block == 0 {
                1
            } else {
                self.fec_data_block
            }),
    {
        if self.rs_nsym > 0 {
            Some(FskFec::new(self.fec_data_block, self.rs_nsym))
        } else {
            None
        }
    }

    /// Length of a full-size wire frame (length+crc header plus payload).
    pub fn wire_len(&self) -> (n: usize)
        requires
            self.payload_size + 6 <= usize::MAX,
        ensures
            n == self.spec_wire_len(),
    {
        self.payload_size + 6
    }

    /// The frame parameters for the outer `FrameAssembler`/`FrameParser`:
    /// the default preset with this modem's parity and payload sizes.
    pub fn framing_config(&self) -> (c: crate::config::Config)
        ensures
            c.has_preset_defaults(),
            c.fft_size == 256 && c.cp_length == 32 && c.sc_min == 10 && c.sc_max == 69,
            c.data_symbols_per_frame == 35,
            c.rs_nsym == self.rs_nsym,
            c.payload_size == self.payload_size,
    {
        let mut c = crate::config::Config::ofdm_default();
        c.rs_nsym = self.rs_nsym;
        c.payload_size = self.payload_size;
        c
    }

    /// Data bytes per coded block (at least one).
    pub open spec fn spec_fec_block(&self) -> nat {
        fec_block_of(self.fec_data_block)
    }

    /// The payload as sent: cut to `payload_size`.
    pub open spec fn spec_sent_payload(&self, payload: Seq<u8>) -> Seq<u8> {
        sent_payload(payload, self.payload_size)
    }

    /// The transmitted wire bytes of a payload.
    pub open spec fn spec_wire_bytes(&self, payload: Seq<u8>) -> Seq<u8> {
        wire_bytes_spec(payload, self.payload_size, self.rs_nsym, self.fec_data_block)
    }

    /// Whether the coder can take a wire frame of `wire_len` bytes.
    pub open spec fn fec_fits(&self, wire_len: nat) -> bool {
        fec_fits_spec(wire_len, self.rs_nsym, self.fec_data_block)
    }

    /// The transmitted value of payload symbol `data` after `prev`.
    pub open spec fn spec_map_symbol(&self, data: u8, prev: u8) -> u8 {
        if self.differential {
            ((data + prev) as u8) & self.spec_mask()
        } else {
            data & self.spec_mask()
        }
    }

    /// The payload symbol recovered from transmitted `tx` after `prev`.
    pub open spec fn spec_unmap_symbol(&self, tx: u8, prev: u8) -> u8 {
        if self.differential {
            ((tx + (self.m % 256) - prev) as u8) & self.spec_mask()
        } else {
            tx & self.spec_mask()
        }
    }

    /// The first `n` transmitted symbols for payload symbols `syms`, the
    /// first mapped after `prev0`, each later one after its predecessor.
    pub open spec fn spec_mapped(&self, syms: Seq<u8>, prev0: u8, n: nat) -> Seq<u8>
        decreases n,
    {
        if n == 0 {
            seq![]
        } else {
            let p = self.spec_mapped(syms, prev0, (n - 1) as nat);
            let prev = if n == 1 {
                prev0
            } else {
                p.last()
            };
            p.push(self.spec_map_symbol(syms[n - 1], prev))
        }
    }

    /// The symbols of a frame body: the preamble, then the payload symbols of
    /// `bytes`, mapped after the last preamble symbol (0 when there is none).
    pub open spec fn spec_body_symbols(&self, bytes: Seq<u8>) -> Seq<u8> {
        let pre = self.spec_preamble();
        let syms = symbols_of(bits_of(bytes), self.spec_bits_per_symbol(), self.spec_mask());
        let prev0: u8 = if pre.len() == 0 {
            0
        } else {
            pre.last()
        };
        pre + self.spec_mapped(syms, prev0, syms.len())
    }

    /// The payload symbols of received `tx`, whose first `start` symbols are
    /// the preamble `pre`: each unmapped after its predecessor (the last
    /// preamble symbol for the first).
    pub open spec fn spec_unmapped(&self, tx: Seq<u8>, pre: Seq<u8>, start: nat) -> Seq<u8> {
        Seq::new(
            (tx.len() - start) as nat,
            |i: int|
                self.spec_unmap_symbol(
                    tx[start + i],
                    if i == 0 {
                        pre.last()
                    } else {
                        tx[start + i - 1]
                    },
                ),
        )
    }

    /// What `decode_symbols` makes of a received symbol stream: `None` when it
    /// is shorter than the preamble, matches under three quarters of it, or
    /// carries no payload symbol; else the payload symbols, the bytes they
    /// pack to (FEC-decoded when parity is configured), whether decoding
    /// succeeded, and the preamble match count.
    pub open spec fn spec_decode_symbols(&self, tx: Seq<u8>) -> Option<(Seq<u8>, Seq<u8>, bool, nat)> {
        let pre = self.spec_preamble();
        let n = pre.len();
        if tx.len() < n {
            None
        } else {
            let matches = count_matches(tx, pre, n);
            if matches * 4 < n * 3 {
                None
            } else {
                let data = self.spec_unmapped(tx, pre, n);
                if data.len() == 0 {
                    None
                } else {
                    let raw = full_bytes(symbol_bits(data, self.spec_bits_per_symbol()));
                    let dec = if self.rs_nsym > 0 {
                        decode_wire_spec(self.spec_fec_block(), self.rs_nsym as nat, raw)
                    } else {
                        (raw, true)
                    };
                    Some((data, dec.0, dec.1, matches))
                }
            }
        }
    }

    /// A received stream that `decode_symbols` turns away is no frame body
    /// of any payload.
    pub proof fn lemma_no_body_rejected(&self, tx: Seq<u8>)
        requires
            self.spec_decode_symbols(tx).is_none(),
            self.preamble_symbols >= 1,
        ensures
            forall|p: Seq<u8>|
                #![trigger self.spec_wire_bytes(p)]
                is_tone_count(self.m as nat) ==> tx != self.spec_body_symbols(
                    self.spec_wire_bytes(p),
                ),
    {
        assert forall|p: Seq<u8>|
            #![trigger self.spec_wire_bytes(p)]
            is_tone_count(self.m as nat) implies tx != self.spec_body_symbols(
                self.spec_wire_bytes(p),
            ) by {
            if tx == self.spec_body_symbols(self.spec_wire_bytes(p)) {
                self.lemma_body_decodes(p);
            }
        }
    }

    /// The payload symbols of `bytes`.
    pub open spec fn spec_payload_symbols(&self, bytes: Seq<u8>) -> Seq<u8> {
        symbols_of(bits_of(bytes), self.spec_bits_per_symbol(), self.spec_mask())
    }

    /// A frame body built from a payload's wire bytes is recognised: it
    /// starts with the whole preamble, its payload symbols unmap to the
    /// symbols of the wire bytes (at least one), and those pack back to the
    /// wire bytes.
    pub proof fn lemma_body_decodes(&self, p: Seq<u8>)
        requires
            is_tone_count(self.m as nat),
            self.preamble_symbols >= 1,
        ensures
            self.spec_body_symbols(self.spec_wire_bytes(p)).len() >= self.spec_preamble().len(),
            self.spec_preamble().len() == self.preamble_symbols,
            count_matches(
                self.spec_body_symbols(self.spec_wire_bytes(p)),
                self.spec_preamble(),
                self.spec_preamble().len(),
            ) == self.spec_preamble().len(),
            self.spec_unmapped(
                self.spec_body_symbols(self.spec_wire_bytes(p)),
                self.spec_preamble(),
                self.spec_preamble().len(),
            ) == self.spec_payload_symbols(self.spec_wire_bytes(p)),
            self.spec_payload_symbols(self.spec_wire_bytes(p)).len() >= 1,
            full_bytes(
                symbol_bits(
                    self.spec_payload_symbols(self.spec_wire_bytes(p)),
                    self.spec_bits_per_symbol(),
                ),
            ) == self.spec_wire_bytes(p),
    {
        let wb = self.spec_wire_bytes(p);
        let pre = self.spec_preamble();
        let n = pre.len();
        let m8 = self.m as u8;
        lemma_low_byte(self.m);
        lemma_log2_of_tone_count(self.m as nat);
        self.lemma_preamble_shape();
        let bps = self.spec_bits_per_symbol();
        let syms = self.spec_payload_symbols(wb);
        let prev0 = pre.last();
        let len = syms.len();
        let mapped = self.spec_mapped(syms, prev0, len);
        let tx = self.spec_body_symbols(wb);
        assert(tx == pre + mapped);
        self.lemma_mapped(syms, prev0, len);
        // the wire bytes are never empty
        let w = wrapped(self.spec_sent_payload(p));
        assert(w.len() >= 6);
        if self.rs_nsym > 0 {
            let db = self.spec_fec_block();
            let nb = fec_blocks(w.len(), db);
            lemma_fec_encode_len(db, self.rs_nsym as nat, w, nb);
            assert(nb * (db + self.rs_nsym) >= 1) by (nonlinear_arith)
                requires
                    nb >= 1,
                    db >= 1,
            ;
        }
        assert(wb.len() >= 1);
        lemma_blocks_for(bits_of(wb).len(), bps);
        vstd::arithmetic::div_mod::lemma_fundamental_div_mod(bits_of(wb).len() as int, bps as int);
        assert(len >= 1) by (nonlinear_arith)
            requires
                len == (bits_of(wb).len() as int) / (bps as int) + (if (bits_of(wb).len() as int) % (
                bps as int) == 0 {
                    0int
                } else {
                    1int
                }),
                bits_of(wb).len() as int == bps * ((bits_of(wb).len() as int) / (bps as int)) + (
                bits_of(wb).len() as int) % (bps as int),
                0 <= (bits_of(wb).len() as int) % (bps as int) < bps,
                bits_of(wb).len() >= 8,
        ;
        // the preamble slots match
        assert forall|i: int| 0 <= i < n implies tx[i] == pre[i] by {}
        lemma_count_matches_all(tx, pre, n);
        // every payload symbol is a tone, and so is every sent symbol
        assert forall|i: int| 0 <= i < len implies #[trigger] syms[i] < self.m by {
            lemma_mask_below(pack_prefix(bits_of(wb), i * bps, bps), m8);
        }
        assert forall|i: int| 0 <= i < len implies #[trigger] mapped[i] < self.m by {
            let prev = if i == 0 {
                prev0
            } else {
                mapped[i - 1]
            };
            lemma_mask_below(
                if self.differential {
                    (syms[i] + prev) as u8
                } else {
                    syms[i]
                },
                m8,
            );
        }
        // unmapping undoes the mapping
        let un = self.spec_unmapped(tx, pre, n);
        assert forall|i: int| 0 <= i < len implies #[trigger] un[i] == syms[i] by {
            let prev = if i == 0 {
                prev0
            } else {
                mapped[i - 1]
            };
            assert(tx[n + i] == mapped[i]);
            if i > 0 {
                assert(tx[n + i - 1] == mapped[i - 1]);
            }
            self.lemma_unmap_map(syms[i], prev);
        }
        assert(un =~= syms);
        lemma_symbols_roundtrip(wb, self.m as nat);
    }

    /// Differential (and plain) mapping round-trips: unmapping a mapped
    /// symbol after the same predecessor gives it back, and the mapped
    /// symbol is a tone.
    pub proof fn lemma_unmap_map(&self, data: u8, prev: u8)
        requires
            is_tone_count(self.m as nat),
            data < self.m,
            prev < self.m,
        ensures
            self.spec_map_symbol(data, prev) < self.m,
            self.spec_unmap_symbol(self.spec_map_symbol(data, prev), prev) == data,
    {
        let m8 = self.m as u8;
        lemma_low_byte(self.m);
        assert(self.spec_mask() == (m8 - 1) as u8);
        let t = self.spec_map_symbol(data, prev);
        lemma_mask_below(if self.differential { (data + prev) as u8 } else { data }, m8);
        if self.differential {
            assert((((((data + prev) as u8) & ((m8 - 1) as u8)) + m8 - prev) as u8) & ((m8
                - 1) as u8) == data) by (bit_vector)
                requires
                    data < m8,
                    prev < m8,
                    m8 == 2 || m8 == 4 || m8 == 8 || m8 == 16 || m8 == 32 || m8 == 64 || m8 == 128,
            ;
        } else {
            lemma_mask_keeps(data, m8);
            lemma_mask_keeps(data, m8);
        }
    }

    /// Each transmitted symbol is the mapping of its payload symbol after its
    /// predecessor.
    pub proof fn lemma_mapped(&self, syms: Seq<u8>, prev0: u8, n: nat)
        requires
            n <= syms.len(),
        ensures
            self.spec_mapped(syms, prev0, n).len() == n,
            forall|i: int|
                0 <= i < n ==> #[trigger] self.spec_mapped(syms, prev0, n)[i]
                    == self.spec_map_symbol(
                    syms[i],
                    if i == 0 {
                        prev0
                    } else {
                        self.spec_mapped(syms, prev0, n)[i - 1]
                    },
                ),
        decreases n,
    {
        if n > 0 {
            self.lemma_mapped(syms, prev0, (n - 1) as nat);
        }
    }

    /// The preamble has `preamble_symbols` entries, each a tone.
    pub proof fn lemma_preamble_shape(&self)
        requires
            self.m % 256 != 0,
        ensures
            self.spec_preamble().len() == self.preamble_symbols,
            forall|t: int|
                0 <= t < self.spec_preamble().len() ==> #[trigger] self.spec_preamble()[t] < self.m
                    % 256,
    {
        lemma_preamble_shape((self.m % 256) as nat, self.preamble_seed, self.preamble_symbols as nat);
    }

    /// `floor(log2(m))`.
    pub fn bits_per_symbol(&self) -> (b: usize)
        ensures
            b == self.spec_bits_per_symbol(),
    {
        let mut v = self.m;
        let mut b: usize = 0;
        proof {
            lemma_log2_floor_le(self.m as nat);
        }
        while v >= 2
            invariant
                b + log2_floor(v as nat) == log2_floor(self.m as nat),
                log2_floor(self.m as nat) <= self.m,
            decreases v,
        {
            v = v / 2;
            b = b + 1;
        }
        b
    }
}

impl Default for FskConfig {
    /// The stage-one baseline: 2-FSK at 48 kHz, 960-sample (20 ms) symbols,
    /// a 24-symbol preamble, no FEC, 128-byte payloads.
    fn default() -> (c: Self)
        ensures
            c.sample_rate == 48_000 && c.m == 2 && c.symbol_samples == 960,
            c.preamble_symbols == 24 && c.preamble_seed == 0x5A17 && !c.differential,
            c.leading_silence == 2_400 && c.guard_samples == 4_800,
            c.rs_nsym == 0 && c.fec_data_block == 32 && c.payload_size == 128,
    {
        FskConfig {
            sample_rate: 48_000,
            m: 2,
            symbol_samples: 960,
            preamble_symbols: 24,
            preamble_seed: 0x5A17,
            differential: false,
            leading_silence: 2_400,
            guard_samples: 4_800,
            rs_nsym: 0,
            fec_data_block: 32,
            payload_size: 128,
        }
    }
}

} // verus!
