//! Link-training handshake messages over the DTMF control channel.
//!
//! A message is seven nibbles `[SYNC, kind, node_hi, node_lo, param_hi,
//! param_lo, checksum]`, sent `REPEAT` times; the receiver scans the symbol
//! stream at every offset for a checksum-valid frame, so inserted, dropped or
//! corrupted symbols do not desynchronize it as long as one copy survives.
use vstd::prelude::*;

verus! {

pub const SYNC: u8 = 0xE;

/// How many times each frame is repeated on the air.
pub const REPEAT: usize = 3;

pub const MSG_HELLO: u8 = 0x0;

pub const MSG_HELLO_ACK: u8 = 0x1;

pub const MSG_TRAIN: u8 = 0x2;

pub const MSG_TRAIN_ACK: u8 = 0x3;

pub const MSG_BYE: u8 = 0x4;

/// A handshake message. `text` is not transmitted (the handshake needs only
/// the three numeric fields); decoded messages carry an empty one.
#[derive(Clone, Debug, PartialEq, Eq)]
pub struct Message {
    pub kind: u8,
    pub node_id: u8,
    pub param: u8,
    pub text: String,
}

impl Message {
    pub fn hello(node_id: u8, param: u8, text: &str) -> (m: Self)
        ensures
            m.kind == MSG_HELLO && m.node_id == node_id && m.param == param && m.text@ == text@,
    {
        Self { kind: MSG_HELLO, node_id, param, text: text.to_string() }
    }

    pub fn hello_ack(node_id: u8, param: u8, text: &str) -> (m: Self)
        ensures
            m.kind == MSG_HELLO_ACK && m.node_id == node_id && m.param == param && m.text@
                == text@,
    {
        Self { kind: MSG_HELLO_ACK, node_id, param, text: text.to_string() }
    }

    pub fn train(node_id: u8, count: u8) -> (m: Self)
        ensures
            m.kind == MSG_TRAIN && m.node_id == node_id && m.param == count && m.text@
                == Seq::<char>::empty(),
    {
        Self { kind: MSG_TRAIN, node_id, param: count, text: String::new() }
    }

    pub fn train_ack(node_id: u8, count: u8) -> (m: Self)
        ensures
            m.kind == MSG_TRAIN_ACK && m.node_id == node_id && m.param == count && m.text@
                == Seq::<char>::empty(),
    {
        Self { kind: MSG_TRAIN_ACK, node_id, param: count, text: String::new() }
    }
}

/// One checksum step: add the nibble, multiply by 3 (both modulo 256), keep
/// the low nibble.
pub open spec fn checksum_step(acc: u8, n: u8) -> u8 {
    ((((acc + n) % 256) * 3) % 256) as u8 & 0x0Fu8
}

/// The running checksum over `nibbles`.
pub open spec fn checksum_acc(nibbles: Seq<u8>) -> u8
    decreases nibbles.len(),
{
    if nibbles.len() == 0 {
        0
    } else {
        checksum_step(checksum_acc(nibbles.drop_last()), nibbles.last())
    }
}

/// The nibble-level checksum of a frame head.
pub open spec fn checksum_of(nibbles: Seq<u8>) -> u8 {
    checksum_acc(nibbles) ^ 0x5u8
}

/// The six head nibbles of a message.
pub open spec fn head_nibbles(kind: u8, node_id: u8, param: u8) -> Seq<u8> {
    seq![
        SYNC,
        kind & 0x0Fu8,
        (node_id >> 4u8) & 0x0Fu8,
        node_id & 0x0Fu8,
        (param >> 4u8) & 0x0Fu8,
        param & 0x0Fu8,
    ]
}

/// The seven nibbles of a message frame.
pub open spec fn frame_nibbles(kind: u8, node_id: u8, param: u8) -> Seq<u8> {
    head_nibbles(kind, node_id, param).push(checksum_of(head_nibbles(kind, node_id, param)))
}

/// Whether a checksum-valid frame starts at `start`.
pub open spec fn frame_at(s: Seq<u8>, start: int) -> bool {
    &&& 0 <= start
    &&& start + 7 <= s.len()
    &&& s[start] == SYNC
    &&& checksum_of(s.subrange(start, start + 6)) == s[start + 6]
}

/// The first start from `k` on of a checksum-valid frame.
pub open spec fn first_frame_from(s: Seq<u8>, k: nat) -> Option<nat>
    decreases s.len() - k,
{
    if k + 7 > s.len() {
        None
    } else if frame_at(s, k as int) {
        Some(k)
    } else {
        first_frame_from(s, k + 1)
    }
}

/// A frame found from `k` on starts at or after `k` and fits.
pub proof fn lemma_first_frame_bound(s: Seq<u8>, k: nat)
    ensures
        first_frame_from(s, k) matches Some(st) ==> k <= st && st + 7 <= s.len() && frame_at(
            s,
            st as int,
        ),
    decreases s.len() - k,
{
    if k + 7 <= s.len() && !frame_at(s, k as int) {
        lemma_first_frame_bound(s, k + 1);
    }
}

/// The fields `(kind, node_id, param)` of the frame at `start`.
pub open spec fn frame_fields(s: Seq<u8>, start: int) -> (u8, u8, u8) {
    (
        s[start + 1],
        (((s[start + 2] << 4u8) as u8) | s[start + 3]) as u8,
        (((s[start + 4] << 4u8) as u8) | s[start + 5]) as u8,
    )
}

/// The messages `decode_all` collects from `s`, scanning from `i` with
/// `acc` already collected: each scan takes the first valid frame of the
/// rest, records it unless an equal message was recorded, and resumes after
/// it.
pub open spec fn decode_all_from(s: Seq<u8>, i: nat, acc: Seq<((u8, u8, u8), nat)>) -> Seq<
    ((u8, u8, u8), nat),
>
    decreases s.len() - i,
{
    if i + 7 > s.len() {
        acc
    } else {
        let rest = s.subrange(i as int, s.len() as int);
        match first_frame_from(rest, 0) {
            Some(st) => {
                proof {
                    lemma_first_frame_bound(rest, 0);
                }
                let f = frame_fields(rest, st as int);
                let seen = exists|j: int| 0 <= j < acc.len() && (#[trigger] acc[j]).0 == f;
                decode_all_from(
                    s,
                    i + st + 7,
                    if seen {
                        acc
                    } else {
                        acc.push((f, i + st + 7))
                    },
                )
            },
            None => decode_all_from(s, i + 1, acc),
        }
    }
}

/// No two entries of `msgs` carry the same message.
pub open spec fn messages_distinct(msgs: Seq<((u8, u8, u8), nat)>) -> bool {
    forall|a: int, b: int| 0 <= a < b < msgs.len() ==> (#[trigger] msgs[a]).0 != (#[trigger] msgs[b]).0
}

/// Each entry of `msgs` is a checksum-valid frame of `s` that ends just
/// before the index recorded with it, and carries that frame's fields.
pub open spec fn frames_of(s: Seq<u8>, msgs: Seq<((u8, u8, u8), nat)>) -> bool {
    forall|a: int|
        0 <= a < msgs.len() ==> {
            let e = #[trigger] msgs[a];
            &&& e.1 >= 7
            &&& frame_at(s, e.1 - 7)
            &&& frame_fields(s, e.1 - 7) == e.0
        }
}

/// A message repeated in the stream is reported once, and every message
/// reported is a checksum-valid frame found in the stream: when the
/// messages already collected are distinct frames of `s`, so are all those
/// the scan collects, and the ones already collected stay first.
pub proof fn lemma_decode_all_distinct(s: Seq<u8>, i: nat, acc: Seq<((u8, u8, u8), nat)>)
    requires
        messages_distinct(acc),
        frames_of(s, acc),
    ensures
        messages_distinct(decode_all_from(s, i, acc)),
        frames_of(s, decode_all_from(s, i, acc)),
        decode_all_from(s, i, acc).len() >= acc.len(),
        decode_all_from(s, i, acc).take(acc.len() as int) == acc,
    decreases s.len() - i,
{
    if i + 7 <= s.len() {
        let rest = s.subrange(i as int, s.len() as int);
        match first_frame_from(rest, 0) {
            Some(st) => {
                lemma_first_frame_bound(rest, 0);
                let f = frame_fields(rest, st as int);
                let seen = exists|j: int| 0 <= j < acc.len() && (#[trigger] acc[j]).0 == f;
                let acc2 = if seen {
                    acc
                } else {
                    acc.push((f, i + st + 7))
                };
                let p = i + st;
                assert(rest.subrange(st as int, st + 6int) =~= s.subrange(p as int, p + 6int));
                assert(rest[st as int] == s[p as int]);
                assert(frame_at(s, p as int));
                assert(frame_fields(s, p as int) == f);
                if !seen {
                    assert(frames_of(s, acc2)) by {
                        assert forall|a: int| 0 <= a < acc2.len() implies {
                            let e = #[trigger] acc2[a];
                            &&& e.1 >= 7
                            &&& frame_at(s, e.1 - 7)
                            &&& frame_fields(s, e.1 - 7) == e.0
                        } by {
                            if a < acc.len() {
                                assert(acc2[a] == acc[a]);
                            }
                        }
                    }
                    assert forall|a: int, b: int| 0 <= a < b < acc2.len() implies (
                    #[trigger] acc2[a]).0 != (#[trigger] acc2[b]).0 by {
                        if b == acc.len() {
                            assert(acc2[a] == acc[a]);
                            assert(acc[a].0 != f);
                        } else {
                            assert(acc2[a] == acc[a] && acc2[b] == acc[b]);
                        }
                    }
                }
                lemma_decode_all_distinct(s, i + st + 7, acc2);
                let r = decode_all_from(s, i + st + 7, acc2);
                assert(r.take(acc.len() as int) =~= acc) by {
                    assert(r.take(acc2.len() as int) == acc2);
                    assert forall|j: int| 0 <= j < acc.len() implies r[j] == acc[j] by {
                        assert(r.take(acc2.len() as int)[j] == acc2[j]);
                    }
                }
            },
            None => {
                lemma_decode_all_distinct(s, i + 1, acc);
            },
        }
    } else {
        assert(acc.take(acc.len() as int) =~= acc);
    }
}

/// Nibble-level checksum: detects a mis-recovered symbol.
fn checksum(nibbles: &[u8]) -> (c: u8)
    ensures
        c == checksum_of(nibbles@),
{
    let mut acc: u8 = 0;
    let mut i: usize = 0;
    while i < nibbles.len()
        invariant
            i <= nibbles@.len(),
            acc == checksum_acc(nibbles@.take(i as int)),
        decreases nibbles@.len() - i,
    {
        assert(nibbles@.take(i + 1).drop_last() =~= nibbles@.take(i as int));
        acc = acc.wrapping_add(nibbles[i]).wrapping_mul(3) & 0x0F;
        i = i + 1;
    }
    assert(nibbles@.take(nibbles@.len() as int) =~= nibbles@);
    acc ^ 0x5
}

/// The seven nibbles of a message frame.
fn logical_nibbles(msg: &Message) -> (out: [u8; 7])
    ensures
        out@ == frame_nibbles(msg.kind, msg.node_id, msg.param),
{
    let head = [
        SYNC,
        msg.kind & 0x0F,
        (msg.node_id >> 4) & 0x0F,
        msg.node_id & 0x0F,
        (msg.param >> 4) & 0x0F,
        msg.param & 0x0F,
    ];
    assert(head@ =~= head_nibbles(msg.kind, msg.node_id, msg.param));
    let crc = checksum(&head);
    let out = [head[0], head[1], head[2], head[3], head[4], head[5], crc];
    assert(out@ =~= frame_nibbles(msg.kind, msg.node_id, msg.param));
    out
}

/// The symbols sent for a message: its frame, `REPEAT` times.
pub fn encode_symbols(msg: &Message) -> (out: Vec<u8>)
    ensures
        out@ == frame_nibbles(msg.kind, msg.node_id, msg.param) + frame_nibbles(
            msg.kind,
            msg.node_id,
            msg.param,
        ) + frame_nibbles(msg.kind, msg.node_id, msg.param),
{
    let logical = logical_nibbles(msg);
    let mut out: Vec<u8> = Vec::new();
    let mut r: usize = 0;
    let ghost f = frame_nibbles(msg.kind, msg.node_id, msg.param);
    while r < REPEAT
        invariant
            r <= REPEAT,
            logical@ == f,
            out@ == (if r == 0 {
                seq![]
            } else if r == 1 {
                f
            } else if r == 2 {
                f + f
            } else {
                f + f + f
            }),
        decreases REPEAT - r,
    {
        out.extend_from_slice(&logical);
        r = r + 1;
    }
    out
}

/// The first checksum-valid frame of a symbol stream, as a message with the
/// index just past it.
fn scan_frame(symbols: &[u8]) -> (out: Option<(Message, usize)>)
    ensures
        out.is_some() == first_frame_from(symbols@, 0).is_some(),
        out.is_some() ==> {
            let st = first_frame_from(symbols@, 0).unwrap();
            &&& (out.unwrap().0.kind, out.unwrap().0.node_id, out.unwrap().0.param) == frame_fields(
                symbols@,
                st as int,
            )
            &&& out.unwrap().0.text@ == Seq::<char>::empty()
            &&& out.unwrap().1 == st + 7
        },
{
    if symbols.len() < 7 {
        return None;
    }
    let mut start: usize = 0;
    while start <= symbols.len() - 7
        invariant
            symbols@.len() >= 7,
            start <= symbols@.len() - 6,
            first_frame_from(symbols@, 0) == first_frame_from(symbols@, start as nat),
        decreases symbols@.len() - start,
    {
        if symbols[start] == SYNC {
            let head = vstd::slice::slice_subrange(symbols, start, start + 6);
            if checksum(head) == symbols[start + 6] {
                let msg = Message {
                    kind: symbols[start + 1],
                    node_id: (symbols[start + 2] << 4) | symbols[start + 3],
                    param: (symbols[start + 4] << 4) | symbols[start + 5],
                    text: String::new(),
                };
                return Some((msg, start + 7));
            }
        }
        start = start + 1;
    }
    None
}

/// Decode the first valid message in a received symbol stream.
pub fn decode_message(symbols: &[u8]) -> (out: Option<(Message, usize)>)
    ensures
        out.is_some() == first_frame_from(symbols@, 0).is_some(),
        out.is_some() ==> {
            let st = first_frame_from(symbols@, 0).unwrap();
            &&& (out.unwrap().0.kind, out.unwrap().0.node_id, out.unwrap().0.param) == frame_fields(
                symbols@,
                st as int,
            )
            &&& out.unwrap().0.text@ == Seq::<char>::empty()
            &&& out.unwrap().1 == st + 7
        },
{
    scan_frame(symbols)
}

/// Decode every valid message in a symbol stream, skipping past each match
/// and keeping the first of equal messages.
pub fn decode_all(symbols: &[u8]) -> (out: Vec<(Message, usize)>)
    ensures
        out@.len() == decode_all_from(symbols@, 0, seq![]).len(),
        forall|j: int|
            0 <= j < out@.len() ==> ((#[trigger] out@[j]).0.kind, out@[j].0.node_id, out@[j].0.param)
                == decode_all_from(symbols@, 0, seq![])[j].0 && out@[j].1 == decode_all_from(
                symbols@,
                0,
                seq![],
            )[j].1 && out@[j].0.text@ == Seq::<char>::empty(),
        forall|a: int, b: int|
            0 <= a < b < out@.len() ==> ((#[trigger] out@[a]).0.kind, out@[a].0.node_id,
            out@[a].0.param) != ((#[trigger] out@[b]).0.kind, out@[b].0.node_id, out@[b].0.param),
        forall|j: int|
            0 <= j < out@.len() ==> (#[trigger] out@[j]).1 >= 7 && frame_at(
                symbols@,
                out@[j].1 - 7,
            ) && frame_fields(symbols@, out@[j].1 - 7) == (out@[j].0.kind, out@[j].0.node_id,
            out@[j].0.param),
{
    proof {
        lemma_decode_all_distinct(symbols@, 0, seq![]);
    }
    let mut out: Vec<(Message, usize)> = Vec::new();
    let ghost mut acc: Seq<((u8, u8, u8), nat)> = seq![];
    let mut i: usize = 0;
    while i < symbols.len() && symbols.len() - i >= 7
        invariant
            i <= symbols@.len(),
            decode_all_from(symbols@, 0, seq![]) == decode_all_from(symbols@, i as nat, acc),
            out@.len() == acc.len(),
            forall|j: int|
                0 <= j < out@.len() ==> ((#[trigger] out@[j]).0.kind, out@[j].0.node_id,
                out@[j].0.param) == acc[j].0 && out@[j].1 == acc[j].1 && out@[j].0.text@
                    == Seq::<char>::empty(),
        decreases symbols@.len() - i,
    {
        let rest = vstd::slice::slice_subrange(symbols, i, symbols.len());
        let ghost acc0 = acc;
        proof {
            lemma_first_frame_bound(rest@, 0);
            assert(rest@ == symbols@.subrange(i as int, symbols@.len() as int));
        }
        match scan_frame(rest) {
            Some((msg, next)) => {
                let mut seen = false;
                let mut j: usize = 0;
                let ghost f = (msg.kind, msg.node_id, msg.param);
                while j < out.len()
                    invariant
                        j <= out@.len(),
                        out@.len() == acc.len(),
                        forall|t: int|
                            0 <= t < out@.len() ==> ((#[trigger] out@[t]).0.kind, out@[t].0.node_id,
                            out@[t].0.param) == acc[t].0 && out@[t].0.text@ == Seq::<char>::empty(),
                        msg.text@ == Seq::<char>::empty(),
                        f == (msg.kind, msg.node_id, msg.param),
                        seen == exists|t: int| 0 <= t < j && (#[trigger] acc[t]).0 == f,
                    decreases out@.len() - j,
                {
                    let m = &out[j].0;
                    if m.kind == msg.kind && m.node_id == msg.node_id && m.param == msg.param
                        && m.text == msg.text {
                        seen = true;
                    }
                    proof {
                        assert(acc[j as int].0 == f <==> (m.kind == msg.kind && m.node_id
                            == msg.node_id && m.param == msg.param));
                    }
                    j = j + 1;
                }
                let at = i + next;
                proof {
                    if !seen {
                        acc = acc.push((f, at as nat));
                    }
                }
                if !seen {
                    out.push((msg, at));
                }
                proof {
                    assert(decode_all_from(symbols@, i as nat, acc0) == decode_all_from(
                        symbols@,
                        at as nat,
                        acc,
                    ));
                }
                i = at;
            },
            None => {
                i = i + 1;
            },
        }
    }
    proof {
        if i < symbols@.len() {
            assert(i + 7 > symbols@.len());
        }
        let d = decode_all_from(symbols@, 0, seq![]);
        assert forall|a: int, b: int| 0 <= a < b < out@.len() implies ((#[trigger] out@[a]).0.kind,
        out@[a].0.node_id, out@[a].0.param) != ((#[trigger] out@[b]).0.kind, out@[b].0.node_id,
        out@[b].0.param) by {
            assert(d[a].0 != d[b].0);
        }
        assert forall|j: int| 0 <= j < out@.len() implies (#[trigger] out@[j]).1 >= 7 && frame_at(
            symbols@,
            out@[j].1 - 7,
        ) && frame_fields(symbols@, out@[j].1 - 7) == (out@[j].0.kind, out@[j].0.node_id,
        out@[j].0.param) by {
            assert(d[j].1 == out@[j].1);
        }
    }
    out
}

/// The index of the first decoded message, from `j` on, of kind `kind`
/// sent by a node other than `own_id`; `msgs.len()` when there is none.
pub open spec fn first_from_peer(msgs: Seq<((u8, u8, u8), nat)>, kind: u8, own_id: u8, j: nat) -> nat
    decreases msgs.len() - j,
{
    if j >= msgs.len() {
        msgs.len()
    } else if msgs[j as int].0.0 == kind && msgs[j as int].0.1 != own_id {
        j
    } else {
        first_from_peer(msgs, kind, own_id, j + 1)
    }
}

/// The first message of kind `kind` from another node than `own_id` among
/// those `decode_all` finds in the symbols.
pub fn find_message(symbols: &[u8], kind: u8, own_id: u8) -> (out: Option<Message>)
    ensures
        ({
            let msgs = decode_all_from(symbols@, 0, seq![]);
            let k = first_from_peer(msgs, kind, own_id, 0);
            &&& out.is_some() == (k < msgs.len())
            &&& out.is_some() ==> (out.unwrap().kind, out.unwrap().node_id, out.unwrap().param)
                == msgs[k as int].0 && out.unwrap().text@ == Seq::<char>::empty()
        }),
{
    let msgs = decode_all(symbols);
    let ghost d = decode_all_from(symbols@, 0, seq![]);
    let mut j: usize = 0;
    while j < msgs.len()
        invariant
            j <= msgs@.len(),
            d == decode_all_from(symbols@, 0, seq![]),
            msgs@.len() == d.len(),
            forall|t: int|
                0 <= t < msgs@.len() ==> ((#[trigger] msgs@[t]).0.kind, msgs@[t].0.node_id,
                msgs@[t].0.param) == d[t].0 && msgs@[t].0.text@ == Seq::<char>::empty(),
            first_from_peer(d, kind, own_id, 0) == first_from_peer(d, kind, own_id, j as nat),
        decreases msgs@.len() - j,
    {
        let m = &msgs[j].0;
        proof {
            let t = j as int;
            assert((msgs@[t].0.kind, msgs@[t].0.node_id, msgs@[t].0.param) == d[t].0);
        }
        if m.kind == kind && m.node_id != own_id {
            let found = Message { kind: m.kind, node_id: m.node_id, param: m.param, text: String::new() };
            proof {
                let t = j as int;
                assert(d[t].0.0 == kind && d[t].0.1 != own_id);
                assert(first_from_peer(d, kind, own_id, j as nat) == j);
                assert(found.text@ == Seq::<char>::empty());
                assert((found.kind, found.node_id, found.param) == d[t].0);
            }
            return Some(found);
        }
        j = j + 1;
    }
    None
}

/// The frame of a message is recognised at the start of its symbols, with
/// the kind's low nibble and the node id and parameter unchanged.
pub proof fn lemma_message_roundtrip(kind: u8, node_id: u8, param: u8)
    ensures
        first_frame_from(frame_nibbles(kind, node_id, param), 0) == Some(0nat),
        frame_fields(frame_nibbles(kind, node_id, param), 0) == (kind & 0x0Fu8, node_id, param),
{
    let f = frame_nibbles(kind, node_id, param);
    assert(f.subrange(0, 6) =~= head_nibbles(kind, node_id, param));
    assert(((((node_id >> 4u8) & 0x0Fu8) << 4u8) as u8 | (node_id & 0x0Fu8)) as u8 == node_id)
        by (bit_vector);
    assert(((((param >> 4u8) & 0x0Fu8) << 4u8) as u8 | (param & 0x0Fu8)) as u8 == param)
        by (bit_vector);
}

} // verus!
