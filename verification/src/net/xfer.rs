//! Stop-and-wait ARQ file transfer: the transport payload format and the
//! decisions of the sender and the receiver. The driver performs the sends,
//! receives and waits and hands the outcomes back as events.
use vstd::prelude::*;

verus! {

/// Payload bytes per DATA chunk.
pub const CHUNK: usize = 128;

pub const KIND_DATA: u8 = 0;

pub const KIND_ACK: u8 = 1;

pub const KIND_BYE: u8 = 2;

/// Transfer counters.
#[derive(Clone, Debug)]
pub struct XferStats {
    pub chunks: usize,
    pub retransmits: usize,
    pub timeouts: usize,
    pub bytes: usize,
}

impl Default for XferStats {
    fn default() -> (s: Self)
        ensures
            s.chunks == 0 && s.retransmits == 0 && s.timeouts == 0 && s.bytes == 0,
    {
        XferStats { chunks: 0, retransmits: 0, timeouts: 0, bytes: 0 }
    }
}

/// The transport payload `[kind, seq_hi, seq_lo, total_hi, total_lo, len,
/// data..]` (the length byte is the data length modulo 256).
pub open spec fn transport_bytes(kind: u8, seq: u16, total: u16, data: Seq<u8>) -> Seq<u8> {
    seq![
        kind,
        (seq / 256) as u8,
        (seq % 256) as u8,
        (total / 256) as u8,
        (total % 256) as u8,
        (data.len() % 256) as u8,
    ] + data
}

/// What `decode_transport` reads from `bytes`.
pub open spec fn transport_fields(bytes: Seq<u8>) -> Option<(u8, u16, u16, Seq<u8>)> {
    if bytes.len() < 6 {
        None
    } else {
        let len = bytes[5] as int;
        if 6 + len > bytes.len() {
            None
        } else {
            Some(
                (
                    bytes[0],
                    (bytes[1] as int * 256 + bytes[2] as int) as u16,
                    (bytes[3] as int * 256 + bytes[4] as int) as u16,
                    bytes.subrange(6, 6 + len),
                ),
            )
        }
    }
}

pub fn encode_transport(kind: u8, seq: u16, total: u16, data: &[u8]) -> (v: Vec<u8>)
    ensures
        v@ == transport_bytes(kind, seq, total, data@),
{
    let mut v: Vec<u8> = Vec::new();
    v.push(kind);
    #[verifier::truncate]
    let s_hi = (seq >> 8) as u8;
    #[verifier::truncate]
    let s_lo = seq as u8;
    #[verifier::truncate]
    let t_hi = (total >> 8) as u8;
    #[verifier::truncate]
    let t_lo = total as u8;
    #[verifier::truncate]
    let len = data.len() as u8;
    let dl = data.len();
    assert(s_hi == (seq / 256) as u8 && s_lo == (seq % 256) as u8 && t_hi == (total / 256) as u8
        && t_lo == (total % 256) as u8 && len == (dl % 256) as u8) by (bit_vector)
        requires
            s_hi == (seq >> 8u16) as u8,
            s_lo == seq as u8,
            t_hi == (total >> 8u16) as u8,
            t_lo == total as u8,
            len == dl as u8,
    ;
    v.push(s_hi);
    v.push(s_lo);
    v.push(t_hi);
    v.push(t_lo);
    v.push(len);
    v.extend_from_slice(data);
    assert(v@ =~= transport_bytes(kind, seq, total, data@));
    v
}

pub fn decode_transport(bytes: &[u8]) -> (out: Option<(u8, u16, u16, Vec<u8>)>)
    ensures
        out.is_some() == transport_fields(bytes@).is_some(),
        out.is_some() ==> {
            let f = transport_fields(bytes@).unwrap();
            &&& out.unwrap().0 == f.0
            &&& out.unwrap().1 == f.1
            &&& out.unwrap().2 == f.2
            &&& out.unwrap().3@ == f.3
        },
{
    if bytes.len() < 6 {
        return None;
    }
    let kind = bytes[0];
    let b1 = bytes[1];
    let b2 = bytes[2];
    let b3 = bytes[3];
    let b4 = bytes[4];
    let seq = ((b1 as u16) << 8) | b2 as u16;
    let total = ((b3 as u16) << 8) | b4 as u16;
    assert(seq == (b1 as int * 256 + b2 as int) as u16 && total == (b3 as int * 256 + b4 as int) as u16)
        by (bit_vector)
        requires
            seq == ((b1 as u16) << 8u16) | (b2 as u16),
            total == ((b3 as u16) << 8u16) | (b4 as u16),
    ;
    let len = bytes[5] as usize;
    if len > bytes.len() - 6 {
        return None;
    }
    Some(
        (
            kind,
            seq,
            total,
            vstd::slice::slice_to_vec(vstd::slice::slice_subrange(bytes, 6, 6 + len)),
        ),
    )
}

/// Reading a transport payload back gives its fields (for data of at most
/// 255 bytes, the reach of the length byte).
pub proof fn lemma_transport_roundtrip(kind: u8, seq: u16, total: u16, data: Seq<u8>)
    requires
        data.len() <= 255,
    ensures
        transport_fields(transport_bytes(kind, seq, total, data)) == Some((kind, seq, total, data)),
{
    let b = transport_bytes(kind, seq, total, data);
    assert(b.subrange(6, 6 + data.len() as int) =~= data);
    assert(((seq / 256) as u8) as int * 256 + ((seq % 256) as u8) as int == seq as int);
    assert(((total / 256) as u8) as int * 256 + ((total % 256) as u8) as int == total as int);
}

/// Chunks needed for `data_len` bytes in `chunk`-byte pieces (at least one,
/// a zero chunk size counting as one), as a 16-bit count.
pub open spec fn chunk_count_spec(data_len: nat, chunk: nat) -> u16 {
    let c = if chunk == 0 {
        1
    } else {
        chunk
    };
    let n = (data_len + c - 1) / (c as int);
    (if n == 0 {
        1
    } else {
        n
    }) as u16
}

pub fn chunk_count(data_len: usize, chunk: usize) -> (n: u16)
    ensures
        n == chunk_count_spec(data_len as nat, chunk as nat),
        ({
            let c: nat = if chunk == 0 {
                1
            } else {
                chunk as nat
            };
            data_len <= 65535 * c ==> n >= 1 && n * c >= data_len && (data_len > 0 ==> (n - 1) * c
                < data_len)
        }),
{
    proof {
        if data_len <= 65535 * (if chunk == 0 {
            1
        } else {
            chunk as nat
        }) {
            lemma_chunk_count_least(data_len as nat, chunk as nat);
        }
    }
    let c = if chunk == 0 {
        1
    } else {
        chunk
    };
    let q = data_len / c;
    let r = data_len % c;
    proof {
        vstd::arithmetic::div_mod::lemma_fundamental_div_mod(data_len as int, c as int);
        assert(r != 0 ==> q < usize::MAX) by (nonlinear_arith)
            requires
                data_len == c * q + r,
                r < c,
                c >= 1,
        ;
        if r == 0 {
            assert((data_len + c - 1) as int == q * c + (c - 1)) by (nonlinear_arith)
                requires
                    data_len == c * q + r,
                    r == 0,
            ;
            vstd::arithmetic::div_mod::lemma_fundamental_div_mod_converse(
                (data_len + c - 1) as int,
                c as int,
                q as int,
                (c - 1) as int,
            );
        } else {
            assert((data_len + c - 1) as int == (q + 1) * c + (r - 1)) by (nonlinear_arith)
                requires
                    data_len == c * q + r,
                    r > 0,
            ;
            vstd::arithmetic::div_mod::lemma_fundamental_div_mod_converse(
                (data_len + c - 1) as int,
                c as int,
                (q + 1) as int,
                (r - 1) as int,
            );
        }
    }
    let n = if r == 0 {
        q
    } else {
        q + 1
    };
    let m = if n == 0 {
        1
    } else {
        n
    };
    #[verifier::truncate]
    let out = m as u16;
    out
}

/// The chunk count is the least number of chunks (at least one) whose
/// `chunk` bytes each (a zero chunk size counts as one byte) cover the data,
/// for data that at most 65535 chunks cover (the count is a `u16`).
pub proof fn lemma_chunk_count_least(data_len: nat, chunk: nat)
    requires
        data_len <= 65535 * (if chunk == 0 {
            1
        } else {
            chunk
        }),
    ensures
        ({
            let c: nat = if chunk == 0 {
                1
            } else {
                chunk
            };
            let k = chunk_count_spec(data_len, chunk) as nat;
            &&& k >= 1
            &&& k * c >= data_len
            &&& data_len > 0 ==> (k - 1) * c < data_len
        }),
{
    let c: nat = if chunk == 0 {
        1
    } else {
        chunk
    };
    let n = (data_len + c - 1) / (c as int);
    vstd::arithmetic::div_mod::lemma_fundamental_div_mod((data_len + c - 1) as int, c as int);
    let r = (data_len + c - 1) % (c as int);
    assert(0 <= n <= 65535 && n * c >= data_len && n * c <= data_len + c - 1) by (nonlinear_arith)
        requires
            data_len <= 65535 * c,
            c >= 1,
            (data_len + c - 1) as int == c * n + r,
            0 <= r < c,
    ;
    let k = chunk_count_spec(data_len, chunk) as nat;
    if n == 0 {
        assert(data_len == 0) by (nonlinear_arith)
            requires
                n * c >= data_len,
                n == 0,
        ;
    } else {
        assert(k == n);
        assert((k - 1) * c < data_len) by (nonlinear_arith)
            requires
                k * c <= data_len + c - 1,
                c >= 1,
        ;
    }
}

/// Chunk `seq` of `data` in `chunk`-byte pieces.
pub open spec fn chunk_data(data: Seq<u8>, chunk: nat, seq: nat) -> Seq<u8> {
    let start: int = (seq * chunk) as int;
    let end: int = if start + chunk < data.len() {
        start + chunk
    } else {
        data.len() as int
    };
    if start <= data.len() {
        data.subrange(start, end)
    } else {
        seq![]
    }
}

/// Chunks `0..k`, concatenated.
pub open spec fn chunks_joined(data: Seq<u8>, chunk: nat, k: nat) -> Seq<u8>
    decreases k,
{
    if k == 0 {
        seq![]
    } else {
        chunks_joined(data, chunk, (k - 1) as nat) + chunk_data(data, chunk, (k - 1) as nat)
    }
}

#[verifier::spinoff_prover]
proof fn lemma_chunks_joined_prefix(data: Seq<u8>, chunk: nat, k: nat)
    requires
        chunk >= 1,
    ensures
        chunks_joined(data, chunk, k) == data.take(
            if k * chunk < data.len() {
                (k * chunk) as int
            } else {
                data.len() as int
            },
        ),
    decreases k,
{
    if k == 0 {
        assert(data.take(0) =~= seq![]);
    } else {
        let km = (k - 1) as nat;
        lemma_chunks_joined_prefix(data, chunk, km);
        assert(km * chunk + chunk == k * chunk) by (nonlinear_arith)
            requires
                km == k - 1,
        ;
        assert(chunks_joined(data, chunk, k) =~= data.take(
            if k * chunk < data.len() {
                (k * chunk) as int
            } else {
                data.len() as int
            },
        ));
    }
}

/// The chunks of some data, in order, make up the data: a receiver that
/// collects every chunk once, in sequence, reassembles exactly what was
/// sent.
pub proof fn lemma_chunks_reassemble(data: Seq<u8>, chunk: nat)
    requires
        chunk >= 1,
        data.len() <= 65535 * chunk,
    ensures
        chunks_joined(data, chunk, chunk_count_spec(data.len(), chunk) as nat) == data,
{
    let n = (data.len() + chunk - 1) / (chunk as int);
    assert(0 <= n <= 65535) by (nonlinear_arith)
        requires
            data.len() <= 65535 * chunk,
            chunk >= 1,
            n == (data.len() + chunk - 1) / (chunk as int),
    ;
    let k = chunk_count_spec(data.len(), chunk) as nat;
    assert(k * chunk >= data.len()) by (nonlinear_arith)
        requires
            k == (if n == 0 { 1 } else { n }),
            n == (data.len() + chunk - 1) / (chunk as int),
            chunk >= 1,
    ;
    lemma_chunks_joined_prefix(data, chunk, k);
    assert(data.take(data.len() as int) =~= data);
}

/// Whether `reply` is the ACK of chunk `seq`.
pub open spec fn is_ack_for(reply: Seq<u8>, seq: u16) -> bool {
    match transport_fields(reply) {
        Some(f) => f.0 == KIND_ACK && f.1 == seq,
        None => false,
    }
}

/// What the sender's driver does next.
pub enum SenderAction {
    /// Send this DATA frame (a first attempt or a retransmission) and listen
    /// for its ACK until the attempt's deadline.
    SendData { frame: Vec<u8> },
    /// Keep listening for the ACK of the current chunk.
    Listen,
    /// The current chunk was acknowledged: wait out the turnaround, then ask
    /// `next_action`.
    Acked,
    /// Send this BYE frame and listen for any reply.
    SendBye { frame: Vec<u8> },
    /// The transfer is over.
    Done,
}

/// The stop-and-wait sender: chunk `seq` of `total` is sent, and sent again
/// on each timeout up to `max_retries` more times before it is given up;
/// after the last chunk a BYE is sent, at most twice, until anything comes
/// back.
pub struct SenderState {
    chunk: usize,
    total: u16,
    max_retries: usize,
    seq: u16,
    attempt: usize,
    byes_sent: usize,
    stats: XferStats,
}

impl SenderState {
    pub closed spec fn spec_stats(&self) -> XferStats {
        self.stats
    }

    /// The transfer counters.
    pub fn stats(&self) -> (st: &XferStats)
        ensures
            *st == self.spec_stats(),
    {
        &self.stats
    }

    pub closed spec fn spec_seq(&self) -> u16 {
        self.seq
    }

    pub closed spec fn spec_total(&self) -> u16 {
        self.total
    }

    pub closed spec fn spec_chunk(&self) -> nat {
        self.chunk as nat
    }

    pub closed spec fn spec_attempt(&self) -> nat {
        self.attempt as nat
    }

    pub closed spec fn spec_max_retries(&self) -> nat {
        self.max_retries as nat
    }

    pub closed spec fn spec_byes_sent(&self) -> nat {
        self.byes_sent as nat
    }

    pub closed spec fn wf(&self) -> bool {
        &&& 1 <= self.chunk
        &&& self.seq <= self.total
        &&& self.byes_sent <= 2
        &&& self.attempt <= self.max_retries
    }

    /// The DATA frame of chunk `seq`.
    pub open spec fn spec_data_frame(&self, data: Seq<u8>, seq: u16) -> Seq<u8> {
        transport_bytes(KIND_DATA, seq, self.spec_total(), chunk_data(data, self.spec_chunk(), seq as nat))
    }

    /// The BYE frame.
    pub open spec fn spec_bye_frame(&self) -> Seq<u8> {
        transport_bytes(KIND_BYE, self.spec_total(), self.spec_total(), seq![])
    }

    /// A sender for `data_len` bytes in `chunk`-byte pieces (a zero chunk
    /// size counting as one), starting at chunk 0. A chunk longer than 255
    /// bytes is sent whole, with its length byte taken modulo 256.
    pub fn new(data_len: usize, chunk: usize, max_retries: usize) -> (s: Self)
        ensures
            s.wf(),
            s.spec_chunk() == (if chunk == 0 {
                1
            } else {
                chunk as nat
            }),
            s.spec_total() == chunk_count_spec(data_len as nat, s.spec_chunk()),
            s.spec_max_retries() == max_retries,
            s.spec_seq() == 0,
            s.spec_attempt() == 0,
            s.spec_byes_sent() == 0,
            s.spec_stats().bytes == data_len && s.spec_stats().chunks == 0 && s.spec_stats().retransmits == 0
                && s.spec_stats().timeouts == 0,
    {
        let c = if chunk == 0 {
            1
        } else {
            chunk
        };
        let total = chunk_count(data_len, c);
        SenderState {
            chunk: c,
            total,
            max_retries,
            seq: 0,
            attempt: 0,
            byes_sent: 0,
            stats: XferStats { chunks: 0, retransmits: 0, timeouts: 0, bytes: data_len },
        }
    }

    /// The DATA frame of the current chunk.
    pub fn data_frame(&self, data: &[u8]) -> (f: Vec<u8>)
        requires
            self.wf(),
        ensures
            f@ == self.spec_data_frame(data@, self.spec_seq()),
    {
        let prod = (self.seq as usize).checked_mul(self.chunk);
        let past_end = match prod {
            Some(s) => s > data.len(),
            None => true,
        };
        if past_end {
            let empty: [u8; 0] = [];
            let f = encode_transport(KIND_DATA, self.seq, self.total, &empty);
            assert((self.seq as nat) * (self.chunk as nat) > data@.len()) by {
                assert(data@.len() == data.len());
                match prod {
                    Some(s) => {
                        assert(s == (self.seq as usize) * self.chunk);
                    },
                    None => {
                        assert((self.seq as usize) * self.chunk > usize::MAX);
                    },
                }
            }
            assert(empty@ =~= chunk_data(data@, self.spec_chunk(), self.seq as nat));
            return f;
        }
        let start = prod.unwrap();
        let end = if self.chunk < data.len() - start {
            start + self.chunk
        } else {
            data.len()
        };
        encode_transport(
            KIND_DATA,
            self.seq,
            self.total,
            vstd::slice::slice_subrange(data, start, end),
        )
    }

    /// The BYE frame.
    pub fn bye_frame(&self) -> (f: Vec<u8>)
        ensures
            f@ == self.spec_bye_frame(),
    {
        let empty: [u8; 0] = [];
        let f = encode_transport(KIND_BYE, self.total, self.total, &empty);
        assert(empty@ =~= seq![]);
        f
    }

    /// What to do when no exchange is under way: send the current chunk, or
    /// once every chunk is through, a BYE (at most twice), then finish.
    pub fn next_action(&mut self, data: &[u8]) -> (a: SenderAction)
        requires
            old(self).wf(),
        ensures
            final(self).wf(),
            final(self).spec_seq() == old(self).spec_seq(),
            final(self).spec_attempt() == old(self).spec_attempt(),
            final(self).spec_total() == old(self).spec_total(),
            final(self).spec_chunk() == old(self).spec_chunk(),
            final(self).spec_max_retries() == old(self).spec_max_retries(),
            final(self).spec_stats() == old(self).spec_stats(),
            old(self).spec_seq() < old(self).spec_total() ==> a is SendData && a->SendData_frame@
                == old(self).spec_data_frame(data@, old(self).spec_seq()) && final(self).spec_byes_sent() == old(self).spec_byes_sent(),
            old(self).spec_seq() >= old(self).spec_total() && old(self).spec_byes_sent() < 2
                ==> a is SendBye && a->SendBye_frame@ == old(self).spec_bye_frame() && final(self).spec_byes_sent() == old(self).spec_byes_sent() + 1,
            old(self).spec_seq() >= old(self).spec_total() && old(self).spec_byes_sent() >= 2
                ==> a is Done,
    {
        if self.seq < self.total {
            SenderAction::SendData { frame: self.data_frame(data) }
        } else if self.byes_sent < 2 {
            self.byes_sent = self.byes_sent + 1;
            SenderAction::SendBye { frame: self.bye_frame() }
        } else {
            SenderAction::Done
        }
    }

    /// What a reply (`Some`) or the end of a wait (`None`) means. While a
    /// chunk is out: the ACK of that chunk advances to the next chunk; any
    /// other frame is ignored; a timeout counts, and resends the chunk unless
    /// its retries are spent, in which case the chunk is given up. During
    /// the BYE exchange any reply ends the transfer, and a timeout sends the
    /// BYE again (twice at most).
    pub fn on_event(&mut self, data: &[u8], reply: Option<&[u8]>) -> (a: SenderAction)
        requires
            old(self).wf(),
            old(self).spec_stats().timeouts < usize::MAX,
            old(self).spec_stats().retransmits < usize::MAX,
            old(self).spec_stats().chunks < usize::MAX,
        ensures
            final(self).wf(),
            final(self).spec_total() == old(self).spec_total(),
            final(self).spec_chunk() == old(self).spec_chunk(),
            final(self).spec_max_retries() == old(self).spec_max_retries(),
            final(self).spec_stats().bytes == old(self).spec_stats().bytes,
            old(self).spec_seq() < old(self).spec_total() && reply.is_some() && is_ack_for(
                reply.unwrap()@,
                old(self).spec_seq(),
            ) ==> a is Acked && final(self).spec_seq() == old(self).spec_seq() + 1 && final(self).spec_attempt() == 0 && final(self).spec_stats().chunks == old(self).spec_stats().chunks + 1,
            old(self).spec_seq() < old(self).spec_total() && reply.is_some() && !is_ack_for(
                reply.unwrap()@,
                old(self).spec_seq(),
            ) ==> a is Listen
                && final(self).spec_seq() == old(self).spec_seq() && final(self).spec_stats() == old(self).spec_stats(),
            old(self).spec_seq() < old(self).spec_total() && reply.is_none() ==> final(self).spec_stats().timeouts == old(self).spec_stats().timeouts + 1,
            old(self).spec_seq() < old(self).spec_total() && reply.is_none() && old(self).spec_attempt() < old(self).spec_max_retries() ==> a is SendData && a->SendData_frame@ == old(self).spec_data_frame(data@, old(self).spec_seq()),
            old(self).spec_seq() < old(self).spec_total() && reply.is_none() && old(self).spec_attempt() < old(self).spec_max_retries() ==> final(self).spec_seq() == old(self).spec_seq() && final(self).spec_attempt() == old(self).spec_attempt() + 1 && final(self).spec_stats().retransmits == old(self).spec_stats().retransmits + 1,
            old(self).spec_seq() < old(self).spec_total() && reply.is_none() && old(self).spec_attempt() >= old(self).spec_max_retries() ==> final(self).spec_seq() == old(self).spec_seq() + 1 && final(self).spec_attempt()
                    == 0 && final(self).spec_stats().retransmits == old(self).spec_stats().retransmits,
            old(self).spec_seq() < old(self).spec_total() && reply.is_none() && old(self).spec_attempt()
                >= old(self).spec_max_retries() ==> {
                &&& final(self).spec_stats().chunks == old(self).spec_stats().chunks
                &&& if old(self).spec_seq() + 1 < old(self).spec_total() {
                    &&& a is SendData
                    &&& a->SendData_frame@ == old(self).spec_data_frame(
                        data@,
                        (old(self).spec_seq() + 1) as u16,
                    )
                    &&& final(self).spec_byes_sent() == old(self).spec_byes_sent()
                } else if old(self).spec_byes_sent() < 2 {
                    &&& a is SendBye
                    &&& a->SendBye_frame@ == old(self).spec_bye_frame()
                    &&& final(self).spec_byes_sent() == old(self).spec_byes_sent() + 1
                } else {
                    a is Done
                }
            },
            old(self).spec_seq() >= old(self).spec_total() && reply.is_some() ==> a is Done,
            old(self).spec_seq() >= old(self).spec_total() && reply.is_none() ==> (if old(self).spec_byes_sent() < 2 {
                a is SendBye && a->SendBye_frame@ == old(self).spec_bye_frame() && final(self).spec_byes_sent() == old(self).spec_byes_sent() + 1
            } else {
                a is Done
            }),
            old(self).spec_seq() >= old(self).spec_total() ==> final(self).spec_stats() == old(self).spec_stats()
                && final(self).spec_seq() == old(self).spec_seq(),
            old(self).spec_seq() < old(self).spec_total() && reply.is_some() ==> final(self).spec_byes_sent()
                == old(self).spec_byes_sent() && final(self).spec_stats().retransmits == old(self).spec_stats().retransmits
                && final(self).spec_stats().timeouts == old(self).spec_stats().timeouts,
            old(self).spec_seq() < old(self).spec_total() && reply.is_some() && !is_ack_for(
                reply.unwrap()@,
                old(self).spec_seq(),
            ) ==> final(self).spec_attempt() == old(self).spec_attempt(),
            old(self).spec_seq() < old(self).spec_total() && reply.is_none() && old(self).spec_attempt()
                < old(self).spec_max_retries() ==> final(self).spec_byes_sent() == old(self).spec_byes_sent()
                && final(self).spec_stats().chunks == old(self).spec_stats().chunks,
    {
        if self.seq < self.total {
            match reply {
                Some(resp) => {
                    match decode_transport(resp) {
                        Some((kind, rseq, _, _)) => {
                            if kind == KIND_ACK && rseq == self.seq {
                                self.stats.chunks = self.stats.chunks + 1;
                                self.seq = self.seq + 1;
                                self.attempt = 0;
                                return SenderAction::Acked;
                            }
                            SenderAction::Listen
                        },
                        None => SenderAction::Listen,
                    }
                },
                None => {
                    self.stats.timeouts = self.stats.timeouts + 1;
                    if self.attempt < self.max_retries {
                        self.attempt = self.attempt + 1;
                        self.stats.retransmits = self.stats.retransmits + 1;
                        SenderAction::SendData { frame: self.data_frame(data) }
                    } else {
                        self.seq = self.seq + 1;
                        self.attempt = 0;
                        self.next_action(data)
                    }
                },
            }
        } else {
            match reply {
                Some(_) => SenderAction::Done,
                None => self.next_action(data),
            }
        }
    }
}

/// The data of `frame` when it is the DATA chunk with sequence number
/// `expected`.
pub open spec fn accepted_chunk(frame: Option<&[u8]>, expected: u16) -> Option<Seq<u8>> {
    match frame {
        Some(b) => match transport_fields(b@) {
            Some(f) => if f.0 == KIND_DATA && f.1 == expected {
                Some(f.3)
            } else {
                None
            },
            None => None,
        },
        None => None,
    }
}

/// What the receiver's driver does next.
pub enum ReceiverAction {
    /// Keep listening.
    Listen,
    /// Wait out the turn gap, send this ACK, keep listening.
    SendAck { frame: Vec<u8> },
    /// Send this ACK and stop.
    AckAndFinish { frame: Vec<u8> },
    /// Stop.
    Finish,
}

/// The stop-and-wait receiver: DATA chunks are taken only in sequence; every
/// DATA frame is acknowledged with the measured link quality; a BYE is
/// acknowledged and ends the transfer, and so do more than `max_rounds`
/// silent waits in a row.
pub struct ReceiverState {
    expected: u16,
    received: Vec<u8>,
    idle: usize,
    max_rounds: usize,
    stats: XferStats,
}

impl ReceiverState {
    pub closed spec fn spec_stats(&self) -> XferStats {
        self.stats
    }

    /// The transfer counters.
    pub fn stats(&self) -> (st: &XferStats)
        ensures
            *st == self.spec_stats(),
    {
        &self.stats
    }

    pub closed spec fn spec_expected(&self) -> u16 {
        self.expected
    }

    pub closed spec fn spec_received(&self) -> Seq<u8> {
        self.received@
    }

    pub closed spec fn spec_idle(&self) -> nat {
        self.idle as nat
    }

    pub closed spec fn spec_max_rounds(&self) -> nat {
        self.max_rounds as nat
    }

    pub fn new(max_rounds: usize) -> (r: Self)
        ensures
            r.spec_expected() == 0,
            r.spec_received() == Seq::<u8>::empty(),
            r.spec_idle() == 0,
            r.spec_max_rounds() == max_rounds,
            r.spec_stats().chunks == 0 && r.spec_stats().bytes == 0 && r.spec_stats().retransmits == 0
                && r.spec_stats().timeouts == 0,
    {
        ReceiverState {
            expected: 0,
            received: Vec::new(),
            idle: 0,
            max_rounds,
            stats: XferStats { chunks: 0, retransmits: 0, timeouts: 0, bytes: 0 },
        }
    }

    /// The bytes collected so far.
    pub fn received(&self) -> (r: &Vec<u8>)
        ensures
            r@ == self.spec_received(),
    {
        &self.received
    }

    /// What a received frame (`Some`) or a silent wait (`None`) means: the
    /// counters grow by one chunk and its bytes exactly when the frame is the
    /// DATA chunk next in sequence, and stay as they are otherwise. `snr`
    /// and `fec_ok` report the quality of the frame, echoed in its ACK.
    pub fn on_frame(&mut self, frame: Option<&[u8]>, snr: u8, fec_ok: bool) -> (a: ReceiverAction)
        requires
            old(self).spec_idle() < usize::MAX,
            old(self).spec_stats().chunks < usize::MAX,
            old(self).spec_stats().bytes + 255 <= usize::MAX,
            old(self).spec_received().len() + 255 <= usize::MAX,
        ensures
            final(self).spec_max_rounds() == old(self).spec_max_rounds(),
            final(self).spec_stats().retransmits == old(self).spec_stats().retransmits,
            final(self).spec_stats().timeouts == old(self).spec_stats().timeouts,
            accepted_chunk(frame, old(self).spec_expected()) is Some ==> {
                &&& final(self).spec_stats().chunks == old(self).spec_stats().chunks + 1
                &&& final(self).spec_stats().bytes == old(self).spec_stats().bytes + accepted_chunk(
                    frame,
                    old(self).spec_expected(),
                )->Some_0.len()
            },
            accepted_chunk(frame, old(self).spec_expected()) is None ==> final(self).spec_stats()
                == old(self).spec_stats(),
            frame.is_none() ==> final(self).spec_idle() == old(self).spec_idle() + 1 && final(self).spec_received() == old(self).spec_received() && final(self).spec_expected()
                == old(self).spec_expected() && (if final(self).spec_idle() > old(self).spec_max_rounds() {
                a is Finish
            } else {
                a is Listen
            }),
            frame.is_some() ==> final(self).spec_idle() == 0,
            frame.is_some() && transport_fields(frame.unwrap()@) is None ==> a is Listen && final(self).spec_received() == old(self).spec_received() && final(self).spec_expected()
                == old(self).spec_expected(),
            frame.is_some() && transport_fields(frame.unwrap()@) is Some ==> {
                let f = transport_fields(frame.unwrap()@).unwrap();
                &&& f.0 == KIND_DATA ==> {
                    &&& a is SendAck
                    &&& a->SendAck_frame@ == transport_bytes(
                        KIND_ACK,
                        f.1,
                        0,
                        seq![snr, if fec_ok { 1u8 } else { 0u8 }],
                    )
                    &&& f.1 == old(self).spec_expected() ==> final(self).spec_received() == old(self).spec_received() + f.3 && final(self).spec_expected() == (old(self).spec_expected() + 1) % 65536
                    &&& f.1 != old(self).spec_expected() ==> final(self).spec_received() == old(self).spec_received() && final(self).spec_expected() == old(self).spec_expected()
                }
                &&& f.0 == KIND_BYE ==> a is AckAndFinish && a->AckAndFinish_frame@
                    == transport_bytes(KIND_ACK, f.1, 0, seq![]) && final(self).spec_received()
                    == old(self).spec_received()
                &&& f.0 != KIND_DATA && f.0 != KIND_BYE ==> a is Listen && final(self).spec_received() == old(self).spec_received()
            },
    {
        let bytes = match frame {
            Some(f) => f,
            None => {
                self.idle = self.idle + 1;
                if self.idle > self.max_rounds {
                    return ReceiverAction::Finish;
                }
                return ReceiverAction::Listen;
            },
        };
        self.idle = 0;
        let (kind, seq, _total, data) = match decode_transport(bytes) {
            Some(x) => x,
            None => {
                return ReceiverAction::Listen;
            },
        };
        if kind == KIND_DATA {
            if seq == self.expected {
                self.received.extend_from_slice(data.as_slice());
                self.stats.chunks = self.stats.chunks + 1;
                self.stats.bytes = self.stats.bytes + data.len();
                self.expected = self.expected.wrapping_add(1);
            }
            let quality = [snr, if fec_ok {
                1u8
            } else {
                0u8
            }];
            let ack = encode_transport(KIND_ACK, seq, 0, &quality);
            assert(quality@ =~= seq![snr, if fec_ok { 1u8 } else { 0u8 }]);
            ReceiverAction::SendAck { frame: ack }
        } else if kind == KIND_BYE {
            let empty: [u8; 0] = [];
            let ack = encode_transport(KIND_ACK, seq, 0, &empty);
            assert(empty@ =~= seq![]);
            ReceiverAction::AckAndFinish { frame: ack }
        } else {
            ReceiverAction::Listen
        }
    }
}

} // verus!
