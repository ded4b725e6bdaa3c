//! Reed-Solomon RS(255, 255 - nsym) forward error correction over whole
//! 255-byte blocks, using the `reed-solomon` crate for each block.
use vstd::prelude::*;

verus! {

/// The `nsym` parity bytes that `reed_solomon::Encoder::new(nsym)` appends to
/// `msg`.
pub uninterp spec fn rs_parity(nsym: nat, msg: Seq<u8>) -> Seq<u8>;

/// The message part that `reed_solomon::Decoder::new(nsym).correct(block, None)`
/// returns for `block`, or `None` when it reports the block unrecoverable.
pub uninterp spec fn rs_corrected(nsym: nat, block: Seq<u8>) -> Option<Seq<u8>>;

/// `msg` followed by its `nsym` parity bytes: one systematic codeword.
pub open spec fn rs_codeword(nsym: nat, msg: Seq<u8>) -> Seq<u8> {
    msg + padded_chunk(rs_parity(nsym, msg), 0, nsym)
}

/// Calls `reed_solomon::Encoder::new(nsym).encode(msg)` and copies out the
/// whole buffer. Claimed, as the crate's source shows (the message is copied
/// into the front of the buffer, the buffer has `msg.len() + nsym` bytes):
/// the result is `msg` followed by `nsym` parity bytes, which are named
/// `rs_parity(nsym, msg)`. The crate's polynomials hold at most 256
/// coefficients: the generator has `nsym + 1` of them and the buffer
/// `msg.len() + nsym`, hence the bounds (a larger one panics).
#[verifier::external_body]
pub(crate) fn rs_encode_block(nsym: usize, msg: &[u8]) -> (out: Vec<u8>)
    requires
        nsym < 256,
        msg@.len() + nsym <= 256,
    ensures
        out@ == msg@ + rs_parity(nsym as nat, msg@),
        out@.len() == msg@.len() + nsym,
{
    let buf = reed_solomon::Encoder::new(nsym).encode(msg);
    buf[..].to_vec()
}

/// Calls `reed_solomon::Decoder::new(nsym).correct(block, None)`; `Ok(buffer)`
/// becomes `Some(buffer.data())`, an error becomes `None`. Claimed: the
/// result is `rs_corrected(nsym, block)`; a returned message has
/// `block.len() - nsym` bytes (the crate builds it with that data length);
/// and a block that is exactly a codeword of its own message part comes back
/// as that message (its syndromes are all zero, the case in which the crate
/// returns the block unchanged; the crate's own documentation shows an
/// encoded block reported as not corrupted). The crate asserts `block.len() < 256` and
/// subtracts `nsym` from it. When a block has errors, the crate multiplies
/// the `nsym + 1` syndromes by an error locator of up to `nsym / 2 + 1`
/// coefficients, and its polynomials hold at most 256: above 170 parity
/// bytes that product can overflow and panic, hence `nsym <= 170`.
#[verifier::external_body]
pub(crate) fn rs_correct_block(nsym: usize, block: &[u8]) -> (out: Option<Vec<u8>>)
    requires
        nsym <= 170,
        nsym <= block@.len() < 256,
    ensures
        out.is_some() ==> rs_corrected(nsym as nat, block@) == Some(out.unwrap()@),
        out.is_some() ==> out.unwrap()@.len() == block@.len() - nsym,
        out.is_none() ==> rs_corrected(nsym as nat, block@).is_none(),
        block@ == rs_codeword(nsym as nat, block@.take(block@.len() - nsym)) ==> out.is_some()
            && out.unwrap()@ == block@.take(block@.len() - nsym),
{
    match reed_solomon::Decoder::new(nsym).correct(block, None) {
        Ok(buf) => Some(buf.data().to_vec()),
        Err(_) => None,
    }
}

/// Number of `k`-byte blocks needed for `len` bytes.
pub open spec fn blocks_for(len: nat, k: nat) -> nat {
    if k == 0 {
        0
    } else {
        ((len + k - 1) / (k as int)) as nat
    }
}

/// The `len` bytes of `data` from `start`, zero-filled past its end.
pub open spec fn padded_chunk(data: Seq<u8>, start: int, len: nat) -> Seq<u8> {
    Seq::new(len, |j: int| if start + j < data.len() { data[start + j] } else { 0 })
}

/// The first `nb` RS(255) codewords of `data`, split into `255 - nsym`-byte
/// messages (the last zero-padded).
pub open spec fn rs_encode_spec(nsym: nat, data: Seq<u8>, nb: nat) -> Seq<u8>
    decreases nb,
{
    if nb == 0 {
        seq![]
    } else {
        let k = (255 - nsym) as nat;
        rs_encode_spec(nsym, data, (nb - 1) as nat) + rs_codeword(
            nsym,
            padded_chunk(data, (nb - 1) * k, k),
        )
    }
}

/// How block `b` of a received stream decodes: the corrected message, or
/// the received message part when correction fails.
pub open spec fn rs_decode_block(nsym: nat, encoded: Seq<u8>, b: nat) -> (Seq<u8>, bool) {
    let blk = padded_chunk(encoded, (b * 255) as int, 255);
    match rs_corrected(nsym, blk) {
        Some(d) => (d, true),
        None => (blk.take(255 - nsym), false),
    }
}

/// The decoded messages of the first `nb` blocks, and whether all corrected.
pub open spec fn rs_decode_spec(nsym: nat, encoded: Seq<u8>, nb: nat) -> (Seq<u8>, bool)
    decreases nb,
{
    if nb == 0 {
        (seq![], true)
    } else {
        let prev = rs_decode_spec(nsym, encoded, (nb - 1) as nat);
        let cur = rs_decode_block(nsym, encoded, (nb - 1) as nat);
        (prev.0 + cur.0, prev.1 && cur.1)
    }
}

/// The decoded message stream for `nb` blocks of `data`: `data` padded with
/// zeros to `nb` whole messages.
pub open spec fn rs_message_stream(nsym: nat, data: Seq<u8>, nb: nat) -> Seq<u8> {
    padded_chunk(data, 0, nb * (255 - nsym) as nat)
}

/// Block `b` of the encoded stream is the codeword of message `b`.
pub proof fn lemma_rs_encode_block(nsym: nat, data: Seq<u8>, nb: nat, b: nat)
    requires
        nsym < 255,
        b < nb,
    ensures
        rs_encode_spec(nsym, data, nb).len() == 255 * nb,
        rs_encode_spec(nsym, data, nb).subrange(255 * (b as int), 255 * (b as int) + 255) == rs_codeword(
            nsym,
            padded_chunk(data, b * (255 - nsym), (255 - nsym) as nat),
        ),
    decreases nb,
{
    lemma_rs_encode_len(nsym, data, nb);
    let k = (255 - nsym) as nat;
    let prev = rs_encode_spec(nsym, data, (nb - 1) as nat);
    lemma_rs_encode_len(nsym, data, (nb - 1) as nat);
    if b < nb - 1 {
        lemma_rs_encode_block(nsym, data, (nb - 1) as nat, b);
        assert(255 * b + 255 <= 255 * (nb - 1)) by (nonlinear_arith)
            requires
                b < nb - 1,
        ;
        assert(rs_encode_spec(nsym, data, nb).subrange(255 * (b as int), 255 * (b as int) + 255) =~= prev.subrange(
            255 * (b as int),
            255 * (b as int) + 255,
        ));
    } else {
        assert(255 * b == 255 * (nb - 1));
        assert(rs_encode_spec(nsym, data, nb).subrange(255 * (b as int), 255 * (b as int) + 255) =~= rs_codeword(
            nsym,
            padded_chunk(data, (nb - 1) * k, k),
        ));
    }
}

/// `nb` encoded blocks take 255 bytes each.
pub proof fn lemma_rs_encode_len(nsym: nat, data: Seq<u8>, nb: nat)
    requires
        nsym < 255,
    ensures
        rs_encode_spec(nsym, data, nb).len() == 255 * nb,
    decreases nb,
{
    if nb > 0 {
        lemma_rs_encode_len(nsym, data, (nb - 1) as nat);
    }
}

/// The message stream of `b + 1` blocks extends that of `b` blocks by
/// message `b`.
pub proof fn lemma_message_stream_step(nsym: nat, data: Seq<u8>, b: nat)
    requires
        nsym < 255,
    ensures
        rs_message_stream(nsym, data, b + 1) == rs_message_stream(nsym, data, b) + padded_chunk(
            data,
            b * (255 - nsym),
            (255 - nsym) as nat,
        ),
{
    let k = (255 - nsym) as nat;
    assert((b + 1) * k == b * k + k) by (nonlinear_arith);
    assert(rs_message_stream(nsym, data, b + 1) =~= rs_message_stream(nsym, data, b)
        + padded_chunk(data, (b * k) as int, k));
}

/// `len / k`, rounded up, as the code computes it.
pub proof fn lemma_blocks_for(len: nat, k: nat)
    requires
        k > 0,
    ensures
        len / k + (if len % k == 0 { 0int } else { 1int }) == blocks_for(len, k),
{
    let q = len / k;
    let r = len % k;
    vstd::arithmetic::div_mod::lemma_fundamental_div_mod(len as int, k as int);
    if r == 0 {
        assert((len + k - 1) as int == q * k + (k - 1));
        vstd::arithmetic::div_mod::lemma_fundamental_div_mod_converse(
            (len + k - 1) as int,
            k as int,
            q as int,
            (k - 1) as int,
        );
    } else {
        assert((len + k - 1) as int == (q + 1) * k + (r - 1)) by (nonlinear_arith)
            requires
                len == q * k + r,
        ;
        vstd::arithmetic::div_mod::lemma_fundamental_div_mod_converse(
            (len + k - 1) as int,
            k as int,
            (q + 1) as int,
            (r - 1) as int,
        );
    }
}

/// Block-wise RS(255, 255 - nsym) coder.
pub struct ReedSolomonFec {
    nsym: usize,
}

impl ReedSolomonFec {
    /// Parity bytes per block.
    pub closed spec fn spec_nsym(&self) -> nat {
        self.nsym as nat
    }

    pub fn new(nsym: usize) -> (fec: Self)
        requires
            nsym <= 255,
        ensures
            fec.spec_nsym() == nsym,
    {
        Self { nsym }
    }

    pub fn nsym(&self) -> (n: usize)
        ensures
            n == self.spec_nsym(),
    {
        self.nsym
    }

    pub fn max_data_bytes(&self) -> (n: usize)
        requires
            self.spec_nsym() <= 255,
        ensures
            n == 255 - self.spec_nsym(),
    {
        255 - self.nsym
    }

    /// Split `data` into `255 - nsym`-byte messages (the last zero-padded)
    /// and emit one 255-byte codeword per message.
    pub fn encode(&self, data: &[u8]) -> (out: Vec<u8>)
        requires
            self.spec_nsym() < 255,
            255 * blocks_for(data@.len(), (255 - self.spec_nsym()) as nat) <= usize::MAX,
        ensures
            out@ == rs_encode_spec(
                self.spec_nsym(),
                data@,
                blocks_for(data@.len(), (255 - self.spec_nsym()) as nat),
            ),
            out@.len() == 255 * blocks_for(data@.len(), (255 - self.spec_nsym()) as nat),
    {
        let msg_len = self.max_data_bytes();
        let ghost k = msg_len as nat;
        proof {
            assert(data@.len() == data.len());
            lemma_blocks_for(data@.len(), k);
        }
        let q = data.len() / msg_len;
        let n_blocks = if data.len() % msg_len == 0 { q } else { q + 1 };
        let mut result: Vec<u8> = Vec::new();
        let mut block_idx: usize = 0;
        while block_idx < n_blocks
            invariant
                msg_len == 255 - self.spec_nsym(),
                k == msg_len,
                self.spec_nsym() < 255,
                block_idx <= n_blocks,
                n_blocks == blocks_for(data@.len(), k),
                255 * n_blocks <= usize::MAX,
                result@ == rs_encode_spec(self.spec_nsym(), data@, block_idx as nat),
                result@.len() == 255 * block_idx,
                data@.len() == data.len(),
            decreases n_blocks - block_idx,
        {
            assert(block_idx * msg_len <= 255 * n_blocks) by (nonlinear_arith)
                requires
                    block_idx < n_blocks,
                    msg_len <= 255,
            ;
            let start = block_idx * msg_len;
            let mut padded: Vec<u8> = Vec::new();
            let mut j: usize = 0;
            while j < msg_len
                invariant
                    j <= msg_len,
                    data@.len() == data.len(),
                    padded@.len() == j,
                    forall|t: int|
                        0 <= t < j ==> padded@[t] == (if start + t < data@.len() {
                            data@[start + t]
                        } else {
                            0
                        }),
                decreases msg_len - j,
            {
                let b = if j < data.len() && start < data.len() - j {
                    data[start + j]
                } else {
                    0
                };
                padded.push(b);
                j = j + 1;
            }
            assert(padded@ =~= padded_chunk(data@, block_idx * k, k));
            let encoded = rs_encode_block(self.nsym, padded.as_slice());
            proof {
                let par = rs_parity(self.spec_nsym(), padded@);
                assert(padded_chunk(par, 0, self.spec_nsym()) =~= par);
            }
            result.extend_from_slice(encoded.as_slice());
            block_idx = block_idx + 1;
        }
        result
    }

    /// Decode whole 255-byte blocks (a short last block is zero-filled). Each
    /// block yields its corrected message, or its received message part when
    /// correction fails; the flag says whether every block was corrected.
    pub fn decode(&self, encoded: &[u8]) -> (out: (Vec<u8>, bool))
        requires
            self.spec_nsym() <= 170,
        ensures
            (out.0@, out.1) == rs_decode_spec(
                self.spec_nsym(),
                encoded@,
                blocks_for(encoded@.len(), 255),
            ),
            out.0@.len() == (255 - self.spec_nsym()) * blocks_for(encoded@.len(), 255),
            forall|data: Seq<u8>|
                #![trigger rs_encode_spec(self.spec_nsym(), data, blocks_for(encoded@.len(), 255))]
                self.spec_nsym() < 255 && encoded@ == rs_encode_spec(
                    self.spec_nsym(),
                    data,
                    blocks_for(encoded@.len(), 255),
                ) ==> out.1 && out.0@ == rs_message_stream(
                    self.spec_nsym(),
                    data,
                    blocks_for(encoded@.len(), 255),
                ),
    {
        let block_len: usize = 255;
        proof {
            assert(encoded@.len() == encoded.len());
            lemma_blocks_for(encoded@.len(), 255);
            vstd::arithmetic::div_mod::lemma_fundamental_div_mod(encoded.len() as int, 255);
        }
        let q = encoded.len() / block_len;
        let r = encoded.len() % block_len;
        let n_blocks = if r == 0 { q } else { q + 1 };
        let msg_len = self.max_data_bytes();
        let mut decoded: Vec<u8> = Vec::new();
        let mut overall_success = true;
        let mut block_idx: usize = 0;
        while block_idx < n_blocks
            invariant
                self.spec_nsym() <= 170,
                msg_len == 255 - self.spec_nsym(),
                self.spec_nsym() <= 255,
                block_idx <= n_blocks,
                n_blocks == blocks_for(encoded@.len(), 255),
                (decoded@, overall_success) == rs_decode_spec(
                    self.spec_nsym(),
                    encoded@,
                    block_idx as nat,
                ),
                decoded@.len() == msg_len * block_idx,
                encoded@.len() == encoded.len(),
                block_len == 255,
                encoded.len() == 255 * q + r,
                r < 255,
                n_blocks == q + (if r == 0 { 0int } else { 1int }),
                forall|data: Seq<u8>|
                    #![trigger rs_encode_spec(self.spec_nsym(), data, n_blocks as nat)]
                    self.spec_nsym() < 255 && encoded@ == rs_encode_spec(
                        self.spec_nsym(),
                        data,
                        n_blocks as nat,
                    ) ==> overall_success && decoded@ == rs_message_stream(
                        self.spec_nsym(),
                        data,
                        block_idx as nat,
                    ),
            decreases n_blocks - block_idx,
        {
            assert(block_idx * 255 <= encoded.len()) by (nonlinear_arith)
                requires
                    block_idx < n_blocks,
                    encoded.len() == 255 * q + r,
                    r < 255,
                    n_blocks == q + (if r == 0 { 0int } else { 1int }),
            ;
            let start = block_idx * block_len;
            let mut block_data: Vec<u8> = Vec::new();
            let mut j: usize = 0;
            while j < block_len
                invariant
                    j <= block_len,
                    block_len == 255,
                    encoded@.len() == encoded.len(),
                    block_data@.len() == j,
                    forall|t: int|
                        0 <= t < j ==> block_data@[t] == (if start + t < encoded@.len() {
                            encoded@[start + t]
                        } else {
                            0
                        }),
                decreases block_len - j,
            {
                let b = if j < encoded.len() && start < encoded.len() - j {
                    encoded[start + j]
                } else {
                    0
                };
                block_data.push(b);
                j = j + 1;
            }
            assert(block_data@ =~= padded_chunk(encoded@, block_idx * 255, 255));
            let ghost old_decoded = decoded@;
            let ghost old_success = overall_success;
            let res = rs_correct_block(self.nsym, block_data.as_slice());
            proof {
                let nsym = self.spec_nsym();
                assert forall|data: Seq<u8>|
                    #![trigger rs_encode_spec(nsym, data, n_blocks as nat)]
                    nsym < 255 && encoded@ == rs_encode_spec(
                        nsym,
                        data,
                        n_blocks as nat,
                    ) implies res.is_some() && res.unwrap()@ == padded_chunk(
                    data,
                    block_idx * (255 - nsym),
                    (255 - nsym) as nat,
                ) by {
                    lemma_rs_encode_block(nsym, data, n_blocks as nat, block_idx as nat);
                    let cw = rs_codeword(
                        nsym,
                        padded_chunk(data, block_idx * (255 - nsym), (255 - nsym) as nat),
                    );
                    assert(block_data@ =~= cw);
                    assert(block_data@.take(255 - nsym) =~= padded_chunk(
                        data,
                        block_idx * (255 - nsym),
                        (255 - nsym) as nat,
                    ));
                }
            }
            match res {
                Some(corrected) => {
                    decoded.extend_from_slice(corrected.as_slice());
                },
                None => {
                    overall_success = false;
                    decoded.extend_from_slice(
                        vstd::slice::slice_subrange(block_data.as_slice(), 0, msg_len),
                    );
                },
            }
            assert(msg_len * (block_idx + 1) == msg_len * block_idx + msg_len) by (nonlinear_arith);
            proof {
                if self.spec_nsym() < 255 {
                    lemma_message_stream_step(self.spec_nsym(), encoded@, block_idx as nat);
                    assert forall|data: Seq<u8>|
                        #![trigger rs_encode_spec(self.spec_nsym(), data, n_blocks as nat)]
                        encoded@ == rs_encode_spec(
                            self.spec_nsym(),
                            data,
                            n_blocks as nat,
                        ) implies overall_success && decoded@ == rs_message_stream(
                        self.spec_nsym(),
                        data,
                        (block_idx + 1) as nat,
                    ) by {
                        lemma_message_stream_step(self.spec_nsym(), data, block_idx as nat);
                    }
                }
            }
            block_idx = block_idx + 1;
        }
        (decoded, overall_success)
    }
}

} // verus!
