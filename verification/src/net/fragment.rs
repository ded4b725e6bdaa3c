//! Fragmentation of Ethernet frames into MAC frames that fit one modem
//! payload, and their reassembly.
//!
//! A MAC frame is a four-byte header `[dst, src, flags, frame_id]` (flags:
//! first-fragment bit, last-fragment bit, six-bit fragment index) followed by
//! at most `MAX_FRAG_PAYLOAD` bytes of the Ethernet frame.
use std::collections::HashMap;
use vstd::std_specs::hash::spec_keys_iter;
use vstd::std_specs::iter::IteratorSpec;
use vstd::prelude::*;

verus! {

broadcast use vstd::std_specs::hash::group_hash_axioms;

pub const MAC_HEADER_LEN: usize = 4;

/// A modem payload (442 bytes) less the MAC header.
pub const MAX_FRAG_PAYLOAD: usize = 438;

pub const MAX_NODE_ID: u8 = 255;

const FRAG_FLAG_FIRST: u8 = 0x80;

const FRAG_FLAG_LAST: u8 = 0x40;

const FRAG_INDEX_MASK: u8 = 0x3F;

/// The flags byte: the fragment index in the low six bits, 0x80 for a first
/// fragment, 0x40 for a last one.
pub open spec fn flags_byte(first: bool, last: bool, index: u8) -> u8 {
    ((index & 0x3Fu8) | (if first {
        0x80u8
    } else {
        0u8
    }) | (if last {
        0x40u8
    } else {
        0u8
    })) as u8
}

proof fn lemma_flags(first: bool, last: bool, idx: u8)
    ensures
        flags_byte(first, last, idx) == (if last {
            ((if first {
                ((idx & 0x3Fu8) | 0x80u8) as u8
            } else {
                (idx & 0x3Fu8) as u8
            }) | 0x40u8) as u8
        } else {
            if first {
                ((idx & 0x3Fu8) | 0x80u8) as u8
            } else {
                (idx & 0x3Fu8) as u8
            }
        }),
        (flags_byte(first, last, idx) & 0x80u8 != 0) == first,
        (flags_byte(first, last, idx) & 0x40u8 != 0) == last,
        idx < 64 ==> flags_byte(first, last, idx) & 0x3Fu8 == idx,
{
    let f = flags_byte(first, last, idx);
    assert(f == (if last {
        ((if first {
            ((idx & 0x3Fu8) | 0x80u8) as u8
        } else {
            (idx & 0x3Fu8) as u8
        }) | 0x40u8) as u8
    } else {
        if first {
            ((idx & 0x3Fu8) | 0x80u8) as u8
        } else {
            (idx & 0x3Fu8) as u8
        }
    }) && ((f & 0x80u8 != 0) == first) && ((f & 0x40u8 != 0) == last) && (idx < 64 ==> f & 0x3Fu8
        == idx)) by (bit_vector)
        requires
            f == ((idx & 0x3Fu8) | (if first {
                0x80u8
            } else {
                0u8
            }) | (if last {
                0x40u8
            } else {
                0u8
            })) as u8,
    ;
}

#[derive(Clone, Copy, Debug, PartialEq, Eq, Structural)]
pub struct FragmentHeader {
    pub dst_id: u8,
    pub src_id: u8,
    pub first_frag: bool,
    pub last_frag: bool,
    pub frag_index: u8,
    pub frame_id: u8,
}

/// The header that the first four bytes of `data` describe.
pub open spec fn decoded_header(data: Seq<u8>) -> Option<FragmentHeader> {
    if data.len() < 4 {
        None
    } else {
        Some(
            FragmentHeader {
                dst_id: data[0],
                src_id: data[1],
                first_frag: data[2] & 0x80u8 != 0,
                last_frag: data[2] & 0x40u8 != 0,
                frag_index: (data[2] & 0x3Fu8) as u8,
                frame_id: data[3],
            },
        )
    }
}

impl FragmentHeader {
    /// The four header bytes.
    pub open spec fn spec_bytes(&self) -> Seq<u8> {
        seq![
            self.dst_id,
            self.src_id,
            flags_byte(self.first_frag, self.last_frag, self.frag_index),
            self.frame_id,
        ]
    }

    pub fn encode(&self) -> (out: [u8; 4])
        ensures
            out@ == self.spec_bytes(),
    {
        let mut flags = self.frag_index & FRAG_INDEX_MASK;
        if self.first_frag {
            flags |= FRAG_FLAG_FIRST;
        }
        if self.last_frag {
            flags |= FRAG_FLAG_LAST;
        }
        proof {
            lemma_flags(self.first_frag, self.last_frag, self.frag_index);
        }
        let out = [self.dst_id, self.src_id, flags, self.frame_id];
        assert(out@ =~= self.spec_bytes());
        out
    }

    pub fn decode(data: &[u8]) -> (out: Option<Self>)
        ensures
            out == decoded_header(data@),
    {
        if data.len() < MAC_HEADER_LEN {
            return None;
        }
        let flags = data[2];
        Some(
            Self {
                dst_id: data[0],
                src_id: data[1],
                first_frag: (flags & FRAG_FLAG_FIRST) != 0,
                last_frag: (flags & FRAG_FLAG_LAST) != 0,
                frag_index: flags & FRAG_INDEX_MASK,
                frame_id: data[3],
            },
        )
    }

    /// Encoding then decoding gives the header back, for every header whose
    /// index fits its six bits.
    pub proof fn lemma_header_roundtrip(&self)
        requires
            self.frag_index < 64,
        ensures
            decoded_header(self.spec_bytes()) == Some(*self),
    {
        lemma_flags(self.first_frag, self.last_frag, self.frag_index);
    }
}

/// Fragments needed for an Ethernet frame of `len` bytes.
pub open spec fn n_fragments(len: nat) -> nat {
    ((len + 437) / 438) as nat
}

/// The header of fragment `i` of `n`.
pub open spec fn fragment_header(dst: u8, src: u8, frame_id: u8, i: nat, n: nat) -> FragmentHeader {
    FragmentHeader {
        dst_id: dst,
        src_id: src,
        first_frag: i == 0,
        last_frag: i == n - 1,
        frag_index: i as u8,
        frame_id,
    }
}

/// The bytes of Ethernet frame `eth` that fragment `i` carries.
pub open spec fn fragment_data(eth: Seq<u8>, i: nat) -> Seq<u8> {
    let start: int = (i * 438) as int;
    let end: int = if start + 438 < eth.len() {
        start + 438
    } else {
        eth.len() as int
    };
    eth.subrange(start, end)
}

/// MAC frame `i` of the fragmentation of `eth`.
pub open spec fn fragment_frame(eth: Seq<u8>, dst: u8, src: u8, frame_id: u8, i: nat) -> Seq<u8> {
    fragment_header(dst, src, frame_id, i, n_fragments(eth.len())).spec_bytes() + fragment_data(
        eth,
        i,
    )
}

/// Split an Ethernet frame into MAC frames of at most `MAX_FRAG_PAYLOAD`
/// bytes of payload each, numbered from 0, the first and last flagged.
pub fn fragment_eth_frame(eth_frame: &[u8], dst_id: u8, src_id: u8, frame_id: u8) -> (frags: Vec<
    Vec<u8>,
>)
    requires
        eth_frame@.len() + MAX_FRAG_PAYLOAD <= usize::MAX,
    ensures
        frags@.len() == n_fragments(eth_frame@.len()),
        forall|i: int|
            0 <= i < frags@.len() ==> #[trigger] frags@[i]@ == fragment_frame(
                eth_frame@,
                dst_id,
                src_id,
                frame_id,
                i as nat,
            ),
{
    let n_frags = (eth_frame.len() + MAX_FRAG_PAYLOAD - 1) / MAX_FRAG_PAYLOAD;
    let mut frags: Vec<Vec<u8>> = Vec::new();
    let mut i: usize = 0;
    while i < n_frags
        invariant
            n_frags == n_fragments(eth_frame@.len()),
            eth_frame@.len() + MAX_FRAG_PAYLOAD <= usize::MAX,
            i <= n_frags,
            frags@.len() == i,
            forall|k: int|
                0 <= k < i ==> #[trigger] frags@[k]@ == fragment_frame(
                    eth_frame@,
                    dst_id,
                    src_id,
                    frame_id,
                    k as nat,
                ),
        decreases n_frags - i,
    {
        assert(i * 438 <= eth_frame@.len()) by (nonlinear_arith)
            requires
                i < n_frags,
                n_frags == (eth_frame@.len() + 437) / 438,
        ;
        let start = i * MAX_FRAG_PAYLOAD;
        let end = if start + MAX_FRAG_PAYLOAD < eth_frame.len() {
            start + MAX_FRAG_PAYLOAD
        } else {
            eth_frame.len()
        };
        let frag_data = vstd::slice::slice_subrange(eth_frame, start, end);
        #[verifier::truncate]
        let idx = i as u8;
        let header = FragmentHeader {
            dst_id,
            src_id,
            first_frag: i == 0,
            last_frag: i == n_frags - 1,
            frag_index: idx,
            frame_id,
        };
        let mut mac_frame: Vec<u8> = Vec::new();
        let hb = header.encode();
        mac_frame.extend_from_slice(&hb);
        mac_frame.extend_from_slice(frag_data);
        proof {
            assert(header == fragment_header(dst_id, src_id, frame_id, i as nat, n_frags as nat));
            assert(mac_frame@ =~= fragment_frame(eth_frame@, dst_id, src_id, frame_id, i as nat));
        }
        frags.push(mac_frame);
        i = i + 1;
    }
    frags
}

/// What is known of one Ethernet frame under reassembly: the fragments
/// received so far (by index), the indices flagged first and last, and how
/// many fragments arrived.
pub struct GroupState {
    pub src_id: u8,
    pub frame_id: u8,
    pub frags: Seq<Option<Seq<u8>>>,
    pub first: Option<u8>,
    pub last: Option<u8>,
    pub count: nat,
}

/// How many slots of `frags` are filled.
pub open spec fn filled(frags: Seq<Option<Seq<u8>>>) -> nat
    decreases frags.len(),
{
    if frags.len() == 0 {
        0
    } else {
        filled(frags.drop_last()) + (if frags.last().is_some() {
            1nat
        } else {
            0nat
        })
    }
}

/// A group for the frame `(src, frame_id)` with nothing received.
pub open spec fn empty_group(src: u8, frame_id: u8) -> GroupState {
    GroupState { src_id: src, frame_id, frags: seq![], first: None, last: None, count: 0 }
}

/// A group after fragment `h` carrying `data` arrives: its slot is filled
/// unless already filled (the first copy is kept), and the first/last marks
/// are taken from the header.
pub open spec fn group_insert(g: GroupState, h: FragmentHeader, data: Seq<u8>) -> GroupState {
    let idx = h.frag_index as int;
    let grown = if g.frags.len() < idx + 1 {
        g.frags + Seq::new((idx + 1 - g.frags.len()) as nat, |k: int| None::<Seq<u8>>)
    } else {
        g.frags
    };
    let fresh = grown[idx].is_none();
    GroupState {
        src_id: g.src_id,
        frame_id: g.frame_id,
        frags: if fresh {
            grown.update(idx, Some(data))
        } else {
            grown
        },
        first: if h.first_frag {
            Some(h.frag_index)
        } else {
            g.first
        },
        last: if h.last_frag {
            Some(h.frag_index)
        } else {
            g.last
        },
        count: if fresh {
            g.count + 1
        } else {
            g.count
        },
    }
}

/// Whether a group holds every fragment from its first to its last.
pub open spec fn group_complete(g: GroupState) -> bool {
    match (g.first, g.last) {
        (Some(first), Some(last)) => {
            &&& first <= last
            &&& g.count >= last - first + 1
            &&& g.frags.len() >= last + 1
            &&& forall|i: int| first <= i <= last ==> (#[trigger] g.frags[i]).is_some()
        },
        _ => false,
    }
}

/// The fragments `from..to` of a group, concatenated.
pub open spec fn joined(frags: Seq<Option<Seq<u8>>>, from: int, to: int) -> Seq<u8>
    decreases to - from,
{
    if to <= from {
        seq![]
    } else {
        joined(frags, from, to - 1) + frags[to - 1].unwrap()
    }
}

/// The Ethernet frame of a complete group.
pub open spec fn group_frame(g: GroupState) -> Seq<u8> {
    joined(g.frags, g.first.unwrap() as int, g.last.unwrap() + 1)
}

/// Whether a group is kept by `cleanup`: a group that knows its last index
/// is kept while fewer than four times its fragment count arrived; one that
/// does not, while fewer than 256 did.
pub open spec fn group_kept(g: GroupState) -> bool {
    match (g.first, g.last) {
        (Some(_), Some(last)) => g.count < (last + 1) * 4,
        _ => g.count < 256,
    }
}

/// The key of the group for `(src, frame_id)`: the source in the high
/// byte, the frame id in the low byte.
pub open spec fn group_key(src: u8, frame_id: u8) -> u16 {
    (src as int * 256 + frame_id as int) as u16
}

/// What `add_fragment` does to the pending groups, and what it returns: a
/// frame too short for a header changes nothing; otherwise the fragment goes
/// into its group (a new one if none is pending); a group that becomes
/// complete leaves and its frame is returned.
pub open spec fn add_spec(groups: Map<u16, GroupState>, frame: Seq<u8>) -> (
    Map<u16, GroupState>,
    Option<Seq<u8>>,
) {
    match decoded_header(frame) {
        None => (groups, None),
        Some(h) => {
            let data = frame.subrange(4, frame.len() as int);
            let key = group_key(h.src_id, h.frame_id);
            let g = if groups.contains_key(key) {
                groups[key]
            } else {
                empty_group(h.src_id, h.frame_id)
            };
            let g2 = group_insert(g, h, data);
            if group_complete(g2) {
                (groups.remove(key), Some(group_frame(g2)))
            } else {
                (groups.insert(key, g2), None)
            }
        },
    }
}

/// Each group is filed under the key of its own `(src, frame_id)`.
pub open spec fn keys_match(groups: Map<u16, GroupState>) -> bool {
    forall|k: u16| #[trigger] groups.contains_key(k) ==> group_key(groups[k].src_id, groups[k].frame_id) == k
}

/// The groups that `cleanup` keeps.
pub open spec fn kept_groups(groups: Map<u16, GroupState>) -> Map<u16, GroupState> {
    Map::new(|k: u16| groups.contains_key(k) && group_kept(groups[k]), |k: u16| groups[k])
}

/// The key of the group for `(src, frame_id)`.
fn key_of(src: u8, frame_id: u8) -> (k: u16)
    ensures
        k == group_key(src, frame_id),
{
    src as u16 * 256 + frame_id as u16
}

/// The byte views of received fragments.
pub open spec fn frags_view(v: Seq<Option<Vec<u8>>>) -> Seq<Option<Seq<u8>>> {
    Seq::new(
        v.len(),
        |i: int|
            match v[i] {
                Some(x) => Some(x@),
                None => None,
            },
    )
}

proof fn lemma_filled_push_none(frags: Seq<Option<Seq<u8>>>)
    ensures
        filled(frags.push(None)) == filled(frags),
{
    assert(frags.push(None).drop_last() =~= frags);
}

proof fn lemma_filled_bound(frags: Seq<Option<Seq<u8>>>)
    ensures
        filled(frags) <= frags.len(),
    decreases frags.len(),
{
    if frags.len() > 0 {
        lemma_filled_bound(frags.drop_last());
    }
}

proof fn lemma_filled_fill(frags: Seq<Option<Seq<u8>>>, idx: int, d: Seq<u8>)
    requires
        0 <= idx < frags.len(),
        frags[idx].is_none(),
    ensures
        filled(frags.update(idx, Some(d))) == filled(frags) + 1,
    decreases frags.len(),
{
    let u = frags.update(idx, Some(d));
    if idx == frags.len() - 1 {
        assert(u.drop_last() =~= frags.drop_last());
    } else {
        lemma_filled_fill(frags.drop_last(), idx, d);
        assert(u.drop_last() =~= frags.drop_last().update(idx, Some(d)));
    }
}

/// One Ethernet frame under reassembly.
struct FragmentGroup {
    src_id: u8,
    frame_id: u8,
    fragments: Vec<Option<Vec<u8>>>,
    first_index: Option<u8>,
    last_index: Option<u8>,
    count: usize,
}

impl FragmentGroup {
    spec fn state(&self) -> GroupState {
        GroupState {
            src_id: self.src_id,
            frame_id: self.frame_id,
            frags: frags_view(self.fragments@),
            first: self.first_index,
            last: self.last_index,
            count: self.count as nat,
        }
    }

    spec fn wf(&self) -> bool {
        &&& self.fragments@.len() <= 64
        &&& self.count == filled(frags_view(self.fragments@))
        &&& (self.first_index matches Some(f) ==> f < 64)
        &&& (self.last_index matches Some(l) ==> l < 64)
    }

    fn new(src_id: u8, frame_id: u8) -> (g: Self)
        ensures
            g.wf(),
            g.state() == empty_group(src_id, frame_id),
    {
        let g = FragmentGroup {
            src_id,
            frame_id,
            fragments: Vec::new(),
            first_index: None,
            last_index: None,
            count: 0,
        };
        assert(frags_view(g.fragments@) =~= seq![]);
        assert(filled(frags_view(g.fragments@)) == 0);
        assert(g.state() =~= empty_group(src_id, frame_id));
        g
    }

    fn insert(&mut self, header: &FragmentHeader, data: &[u8])
        requires
            old(self).wf(),
            header.frag_index < 64,
        ensures
            final(self).wf(),
            final(self).state() == group_insert(old(self).state(), *header, data@),
    {
        let idx = header.frag_index as usize;
        if self.fragments.len() < idx + 1 {
            while self.fragments.len() < idx + 1
                invariant
                    idx < 64,
                    self.fragments@.len() <= idx + 1,
                    self.fragments@.len() >= old(self).fragments@.len(),
                    self.count == filled(frags_view(self.fragments@)),
                    frags_view(self.fragments@) == frags_view(old(self).fragments@) + Seq::new(
                        (self.fragments@.len() - old(self).fragments@.len()) as nat,
                        |k: int| None::<Seq<u8>>,
                    ),
                    self.src_id == old(self).src_id && self.frame_id == old(self).frame_id,
                    self.count == old(self).count,
                    self.first_index == old(self).first_index && self.last_index == old(
                        self,
                    ).last_index,
                    old(self).wf(),
                decreases idx + 1 - self.fragments@.len(),
            {
                let ghost before = frags_view(self.fragments@);
                self.fragments.push(None);
                proof {
                    assert(frags_view(self.fragments@) =~= before.push(None));
                    lemma_filled_push_none(before);
                    assert(frags_view(self.fragments@) =~= frags_view(old(self).fragments@)
                        + Seq::new(
                        (self.fragments@.len() - old(self).fragments@.len()) as nat,
                        |k: int| None::<Seq<u8>>,
                    ));
                }
            }
        }
        let ghost grown = frags_view(self.fragments@);
        let ghost g_old = old(self).state();
        proof {
            if old(self).fragments@.len() >= idx + 1 {
                assert(grown =~= frags_view(old(self).fragments@));
            } else {
                assert(grown =~= g_old.frags + Seq::new(
                    (idx + 1 - g_old.frags.len()) as nat,
                    |k: int| None::<Seq<u8>>,
                ));
            }
            assert(grown[idx as int].is_none() == self.fragments@[idx as int].is_none());
        }
        let ghost fresh = self.fragments@[idx as int].is_none();
        if self.fragments[idx].is_none() {
            proof {
                lemma_filled_fill(grown, idx as int, data@);
                lemma_filled_bound(grown);
            }
            self.fragments.set(idx, Some(vstd::slice::slice_to_vec(data)));
            self.count = self.count + 1;
            proof {
                assert(frags_view(self.fragments@) =~= grown.update(idx as int, Some(data@)));
            }
        }
        if header.first_frag {
            self.first_index = Some(header.frag_index);
        }
        if header.last_frag {
            self.last_index = Some(header.frag_index);
        }
        proof {
            let target = group_insert(g_old, *header, data@);
            if fresh {
                assert(frags_view(self.fragments@) =~= target.frags);
            } else {
                assert(frags_view(self.fragments@) =~= target.frags);
            }
            assert(self.state().frags =~= target.frags);
            assert(self.state().src_id == target.src_id);
            assert(self.state().frame_id == target.frame_id);
            assert(self.state().first == target.first);
            assert(self.state().last == target.last);
            assert(self.state().count == target.count);
            assert(self.state() == target);
        }
    }

    fn is_complete(&self) -> (done: bool)
        requires
            self.wf(),
        ensures
            done == group_complete(self.state()),
    {
        match (self.first_index, self.last_index) {
            (Some(first), Some(last)) => {
                if first > last {
                    return false;
                }
                let expected = (last - first + 1) as usize;
                if self.count < expected {
                    return false;
                }
                if self.fragments.len() < last as usize + 1 {
                    return false;
                }
                let mut i = first as usize;
                while i <= last as usize
                    invariant
                        first as usize <= i <= last as usize + 1,
                        self.fragments@.len() >= last + 1,
                        self.first_index == Some(first),
                        self.last_index == Some(last),
                        self.count >= last - first + 1,
                        first <= last,
                        forall|k: int|
                            first <= k < i ==> (#[trigger] frags_view(self.fragments@)[k]).is_some(),
                    decreases last as usize + 1 - i,
                {
                    if self.fragments[i].is_none() {
                        let ghost st = self.state();
                        assert(st.frags[i as int].is_none());
                        assert(st.first == Some(first) && st.last == Some(last));
                        assert(!group_complete(st));
                        return false;
                    }
                    i = i + 1;
                }
                true
            },
            _ => false,
        }
    }

    fn is_kept(&self) -> (b: bool)
        requires
            self.wf(),
        ensures
            b == group_kept(self.state()),
    {
        match (self.first_index, self.last_index) {
            (Some(_), Some(last)) => self.count < (last as usize + 1) * 4,
            _ => self.count < 256,
        }
    }

    fn reassemble(self) -> (out: Vec<u8>)
        requires
            group_complete(self.state()),
        ensures
            out@ == group_frame(self.state()),
    {
        let first = self.first_index.unwrap();
        let last = self.last_index.unwrap();
        let ghost fv = frags_view(self.fragments@);
        let mut out: Vec<u8> = Vec::new();
        let mut i = first as usize;
        while i <= last as usize
            invariant
                first as usize <= i <= last as usize + 1,
                fv == frags_view(self.fragments@),
                self.fragments@.len() >= last + 1,
                forall|k: int| first <= k <= last ==> (#[trigger] fv[k]).is_some(),
                out@ == joined(fv, first as int, i as int),
            decreases last as usize + 1 - i,
        {
            match &self.fragments[i] {
                Some(frag) => {
                    out.extend_from_slice(frag.as_slice());
                },
                None => {},
            }
            i = i + 1;
        }
        out
    }
}

/// Fragments awaiting the rest of their Ethernet frame, one group per
/// (source, frame id), filed under `group_key`.
pub struct ReassemblyBuffer {
    groups: HashMap<u16, FragmentGroup>,
}

impl ReassemblyBuffer {
    /// The pending groups, by key.
    pub closed spec fn spec_groups(&self) -> Map<u16, GroupState> {
        Map::new(|k: u16| self.groups@.contains_key(k), |k: u16| self.groups@[k].state())
    }

    /// Each group is well formed and filed under its own key.
    pub closed spec fn wf(&self) -> bool {
        &&& forall|k: u16| #[trigger] self.groups@.contains_key(k) ==> self.groups@[k].wf()
        &&& keys_match(self.spec_groups())
    }

    /// Take in one MAC frame; return the Ethernet frame it completes, if any.
    pub fn add_fragment(&mut self, mac_frame: &[u8]) -> (out: Option<Vec<u8>>)
        requires
            old(self).wf(),
        ensures
            final(self).wf(),
            final(self).spec_groups() == add_spec(old(self).spec_groups(), mac_frame@).0,
            out.is_some() == add_spec(old(self).spec_groups(), mac_frame@).1.is_some(),
            out.is_some() ==> out.unwrap()@ == add_spec(
                old(self).spec_groups(),
                mac_frame@,
            ).1.unwrap(),
    {
        let header = match FragmentHeader::decode(mac_frame) {
            Some(h) => h,
            None => {
                return None;
            },
        };
        let frag_data = vstd::slice::slice_subrange(mac_frame, MAC_HEADER_LEN, mac_frame.len());
        let ghost gs = self.spec_groups();
        let ghost before = self.groups@;
        proof {
            let fi = header.frag_index;
            let fl = mac_frame@[2];
            assert(fi < 64) by (bit_vector)
                requires
                    fi == fl & 0x3Fu8,
            ;
        }
        let key = key_of(header.src_id, header.frame_id);
        let mut group = match self.groups.remove(&key) {
            Some(g) => g,
            None => FragmentGroup::new(header.src_id, header.frame_id),
        };
        proof {
            assert(self.groups@ == before.remove(key));
            assert(gs.contains_key(key) == before.contains_key(key));
            if gs.contains_key(key) {
                assert(group == before[key]);
            }
        }
        let ghost g_before = group.state();
        group.insert(&header, frag_data);
        if group.is_complete() {
            let frame = group.reassemble();
            assert(self.spec_groups() =~= gs.remove(key));
            Some(frame)
        } else {
            self.groups.insert(key, group);
            assert(self.spec_groups() =~= gs.insert(key, group_insert(g_before, header, frag_data@)));
            None
        }
    }

    /// Drop stale groups: those that received four times their fragment
    /// count, or 256 fragments while their extent is unknown.
    pub fn cleanup(&mut self)
        requires
            old(self).wf(),
        ensures
            final(self).wf(),
            final(self).spec_groups() == kept_groups(old(self).spec_groups()),
    {
        let ghost orig = self.groups@;
        let ghost all = spec_keys_iter(&self.groups).remaining().unref();
        let mut keys: Vec<u16> = Vec::new();
        for k in it: self.groups.keys()
            invariant
                keys@.len() == it.index(),
                it.seq().unref() == all,
                forall|i: int| 0 <= i < keys@.len() ==> keys@[i] == all[i],
        {
            keys.push(*k);
        }
        proof {
            assert(keys@ =~= all);
        }
        let mut j: usize = 0;
        while j < keys.len()
            invariant
                j <= keys@.len(),
                keys@.no_duplicates(),
                keys@.to_set() == orig.dom(),
                forall|q: u16| #[trigger] self.groups@.contains_key(q) <==> (orig.contains_key(q) && (
                    !keys@.take(j as int).contains(q) || group_kept(orig[q].state()))),
                forall|q: u16| #[trigger] self.groups@.contains_key(q) ==> self.groups@[q] == orig[q],
                forall|q: u16| #[trigger] orig.contains_key(q) ==> orig[q].wf(),
            decreases keys@.len() - j,
        {
            let k = keys[j];
            proof {
                assert(keys@.to_set().contains(keys@[j as int]));
                assert(!keys@.take(j as int).contains(k)) by {
                    if keys@.take(j as int).contains(k) {
                        let i = choose|i: int| 0 <= i < j && keys@.take(j as int)[i] == k;
                        assert(keys@[i] == keys@[j as int]);
                    }
                }
            }
            let ghost pre = self.groups@;
            let keep = match self.groups.get(&k) {
                Some(g) => g.is_kept(),
                None => true,
            };
            assert(keep == group_kept(orig[k].state()));
            if !keep {
                self.groups.remove(&k);
            }
            proof {
                assert(keys@.take(j + 1) =~= keys@.take(j as int).push(k));
                if keep {
                    assert(self.groups@ == pre);
                } else {
                    assert(self.groups@ == pre.remove(k));
                }
                let t0 = keys@.take(j as int);
                let t1 = keys@.take(j + 1);
                assert forall|q: u16| #[trigger] t1.contains(q) <==> (t0.contains(q) || q == k) by {
                    if t1.contains(q) && q != k {
                        let i = choose|i: int| 0 <= i < t1.len() && t1[i] == q;
                        assert(t0[i] == q);
                    }
                    if t0.contains(q) {
                        let i = choose|i: int| 0 <= i < t0.len() && t0[i] == q;
                        assert(t1[i] == q);
                    }
                    if q == k {
                        assert(t1[j as int] == q);
                    }
                }
            }
            j = j + 1;
        }
        proof {
            assert(keys@.take(keys@.len() as int) =~= keys@);
            assert forall|q: u16| #[trigger] keys@.contains(q) <==> orig.contains_key(q) by {
                assert(keys@.to_set().contains(q) <==> keys@.contains(q));
            }
            assert(self.spec_groups() =~= kept_groups(old(self).spec_groups()));
        }
    }

    /// Number of frames under reassembly.
    pub fn pending_count(&self) -> (n: usize)
        ensures
            n == self.spec_groups().len(),
    {
        assert(self.spec_groups().dom() =~= self.groups@.dom());
        self.groups.len()
    }
}

impl Default for ReassemblyBuffer {
    fn default() -> (b: Self)
        ensures
            b.wf(),
            b.spec_groups() == Map::<u16, GroupState>::empty(),
    {
        let b = ReassemblyBuffer { groups: HashMap::new() };
        assert(b.spec_groups() =~= Map::<u16, GroupState>::empty());
        b
    }
}

/// The pending groups after feeding `frames` to `add_fragment` in turn, and
/// what the last call returned.
pub open spec fn feed(groups: Map<u16, GroupState>, frames: Seq<Seq<u8>>) -> (
    Map<u16, GroupState>,
    Option<Seq<u8>>,
)
    decreases frames.len(),
{
    if frames.len() == 0 {
        (groups, None)
    } else {
        add_spec(feed(groups, frames.drop_last()).0, frames.last())
    }
}

/// Whether no pending group is for `(src, frame_id)`.
pub open spec fn no_group_for(groups: Map<u16, GroupState>, src: u8, frame_id: u8) -> bool {
    !groups.contains_key(group_key(src, frame_id))
}

proof fn lemma_joined_fragments(eth: Seq<u8>, k: nat)
    requires
        k * 438 <= eth.len() + 437,
    ensures
        joined(Seq::new(k, |i: int| Some(fragment_data(eth, i as nat))), 0, k as int) == eth.take(
            if k * 438 < eth.len() {
                (k * 438) as int
            } else {
                eth.len() as int
            },
        ),
    decreases k,
{
    let fr = Seq::new(k, |i: int| Some(fragment_data(eth, i as nat)));
    if k > 0 {
        let km = (k - 1) as nat;
        let fr0 = Seq::new(km, |i: int| Some(fragment_data(eth, i as nat)));
        lemma_joined_fragments(eth, km);
        assert forall|a: int, b: int| 0 <= a <= b <= km implies joined(fr, a, b) == joined(
            fr0,
            a,
            b,
        ) by {
            lemma_joined_prefix(fr, fr0, a, b);
        }
        assert(km * 438 < eth.len());
        let d = fragment_data(eth, km);
        assert(joined(fr, 0, k as int) == joined(fr, 0, km as int) + d);
        assert(joined(fr, 0, k as int) =~= eth.take(
            if k * 438 < eth.len() {
                (k * 438) as int
            } else {
                eth.len() as int
            },
        ));
    } else {
        assert(joined(fr, 0, 0) =~= eth.take(0));
    }
}

proof fn lemma_joined_prefix(a: Seq<Option<Seq<u8>>>, b: Seq<Option<Seq<u8>>>, from: int, to: int)
    requires
        0 <= from <= to <= b.len() <= a.len(),
        forall|i: int| 0 <= i < b.len() ==> a[i] == b[i],
    ensures
        joined(a, from, to) == joined(b, from, to),
    decreases to - from,
{
    if from < to {
        lemma_joined_prefix(a, b, from, to - 1);
    }
}

/// Whether `order` lists each of `0..n` exactly once.
pub open spec fn is_order_of(order: Seq<int>, n: nat) -> bool {
    &&& order.len() == n
    &&& order.no_duplicates()
    &&& forall|j: int| 0 <= j < order.len() ==> 0 <= #[trigger] order[j] < n
}

/// The MAC frames of the fragmentation of `eth`, in the order `order`.
pub open spec fn fragment_frames_in(
    eth: Seq<u8>,
    dst: u8,
    src: u8,
    frame_id: u8,
    order: Seq<int>,
) -> Seq<Seq<u8>> {
    Seq::new(order.len(), |j: int| fragment_frame(eth, dst, src, frame_id, order[j] as nat))
}

/// A group holding the fragments of `eth` whose indices are the first `k`
/// entries of `order`.
pub open spec fn holds_fragments(
    g: GroupState,
    eth: Seq<u8>,
    src: u8,
    frame_id: u8,
    order: Seq<int>,
    k: nat,
) -> bool {
    let n = n_fragments(eth.len());
    let got = order.take(k as int);
    &&& g.src_id == src
    &&& g.frame_id == frame_id
    &&& g.count == k
    &&& g.frags.len() <= n
    &&& forall|j: int| 0 <= j < k ==> #[trigger] order[j] < g.frags.len()
    &&& forall|i: int|
        0 <= i < g.frags.len() ==> #[trigger] g.frags[i] == (if got.contains(i) {
            Some(fragment_data(eth, i as nat))
        } else {
            None::<Seq<u8>>
        })
    &&& g.first == (if got.contains(0) {
        Some(0u8)
    } else {
        None::<u8>
    })
    &&& g.last == (if got.contains(n - 1) {
        Some((n - 1) as u8)
    } else {
        None::<u8>
    })
}

/// A list of each of `0..n` once contains every one of them.
proof fn lemma_order_covers(order: Seq<int>, n: nat)
    requires
        is_order_of(order, n),
    ensures
        forall|i: int| 0 <= i < n ==> order.contains(i),
{
    order.unique_seq_to_set();
    vstd::set_lib::lemma_int_range(0, n as int);
    vstd::seq_lib::seq_to_set_is_finite(order);
    let s = order.to_set();
    let r = vstd::set_lib::set_int_range(0, n as int);
    assert(s.subset_of(r)) by {
        assert forall|a: int| s.contains(a) implies r.contains(a) by {
            let j = choose|j: int| 0 <= j < order.len() && order[j] == a;
            assert(0 <= order[j] < n);
        }
    }
    vstd::set_lib::lemma_subset_equality(s, r);
    assert forall|i: int| 0 <= i < n implies order.contains(i) by {
        assert(r.contains(i));
        assert(s.contains(i));
    }
}

/// Inserting the next fragment of `order` into a group that holds the first
/// `k` gives a group that holds the first `k + 1`.
proof fn lemma_insert_next(
    g: GroupState,
    eth: Seq<u8>,
    dst: u8,
    src: u8,
    frame_id: u8,
    order: Seq<int>,
    k: nat,
)
    requires
        1 <= eth.len() <= 64 * 438,
        is_order_of(order, n_fragments(eth.len())),
        holds_fragments(g, eth, src, frame_id, order, k),
        k < order.len(),
    ensures
        holds_fragments(
            group_insert(
                g,
                fragment_header(dst, src, frame_id, order[k as int] as nat, n_fragments(eth.len())),
                fragment_data(eth, order[k as int] as nat),
            ),
            eth,
            src,
            frame_id,
            order,
            k + 1,
        ),
{
    let n = n_fragments(eth.len());
    let idx = order[k as int];
    assert(0 <= idx < n);
    let h = fragment_header(dst, src, frame_id, idx as nat, n);
    let data = fragment_data(eth, idx as nat);
    let got = order.take(k as int);
    let got2 = order.take(k + 1int);
    assert(got2 =~= got.push(idx));
    assert(!got.contains(idx)) by {
        if got.contains(idx) {
            let j = choose|j: int| 0 <= j < got.len() && got[j] == idx;
            assert(order[j] == order[k as int]);
        }
    }
    assert forall|i: int| got2.contains(i) <==> (got.contains(i) || i == idx) by {
        if got2.contains(i) && i != idx {
            let j = choose|j: int| 0 <= j < got2.len() && got2[j] == i;
            assert(got[j] == i);
        }
        if got.contains(i) {
            let j = choose|j: int| 0 <= j < got.len() && got[j] == i;
            assert(got2[j] == i);
        }
        if i == idx {
            assert(got2[k as int] == idx);
        }
    }
    assert forall|i: int| got.contains(i) implies 0 <= i < g.frags.len() by {
        let j = choose|j: int| 0 <= j < got.len() && got[j] == i;
        assert(order[j] < g.frags.len());
        assert(0 <= order[j]);
    }
    let g2 = group_insert(g, h, data);
    let grown = if g.frags.len() < idx + 1 {
        g.frags + Seq::new((idx + 1 - g.frags.len()) as nat, |q: int| None::<Seq<u8>>)
    } else {
        g.frags
    };
    assert(grown[idx].is_none());
    assert(g2.frags == grown.update(idx, Some(data)));
    assert forall|i: int| 0 <= i < g2.frags.len() implies #[trigger] g2.frags[i] == (if got2.contains(
        i,
    ) {
        Some(fragment_data(eth, i as nat))
    } else {
        None::<Seq<u8>>
    }) by {
        if i != idx && i >= g.frags.len() {
            assert(!got.contains(i));
        }
    }
    assert(h.frag_index == idx as u8);
    assert((idx as u8) as int == idx);
}

/// Feeding the first `k` fragments of `order` (not all of them) to a buffer
/// with nothing pending for the frame leaves one more group, holding them,
/// and returns nothing.
proof fn lemma_feed_any(
    groups: Map<u16, GroupState>,
    eth: Seq<u8>,
    dst: u8,
    src: u8,
    frame_id: u8,
    order: Seq<int>,
    k: nat,
) -> (g: GroupState)
    requires
        1 <= eth.len() <= 64 * 438,
        no_group_for(groups, src, frame_id),
        is_order_of(order, n_fragments(eth.len())),
        1 <= k < order.len(),
    ensures
        holds_fragments(g, eth, src, frame_id, order, k),
        feed(groups, fragment_frames_in(eth, dst, src, frame_id, order).take(k as int)) == (
            groups.insert(group_key(src, frame_id), g),
            None::<Seq<u8>>,
        ),
    decreases k,
{
    let n = n_fragments(eth.len());
    let frames = fragment_frames_in(eth, dst, src, frame_id, order);
    let km = (k - 1) as nat;
    assert(frames.take(k as int).drop_last() =~= frames.take(km as int));
    let g = if km == 0 {
        empty_group(src, frame_id)
    } else {
        lemma_feed_any(groups, eth, dst, src, frame_id, order, km)
    };
    let key = group_key(src, frame_id);
    let prev = if km == 0 {
        groups
    } else {
        groups.insert(key, g)
    };
    if km == 0 {
        assert(frames.take(0) =~= Seq::<Seq<u8>>::empty());
        assert(order.take(0) =~= Seq::<int>::empty());
    }
    assert(feed(groups, frames.take(km as int)).0 == prev);
    let idx = order[km as int];
    let f = frames[km as int];
    let h = fragment_header(dst, src, frame_id, idx as nat, n);
    assert(0 <= idx < n);
    h.lemma_header_roundtrip();
    assert(decoded_header(f) == decoded_header(h.spec_bytes()));
    assert(f.subrange(4, f.len() as int) =~= fragment_data(eth, idx as nat));
    lemma_insert_next(g, eth, dst, src, frame_id, order, km);
    let g2 = group_insert(g, h, fragment_data(eth, idx as nat));
    assert(!group_complete(g2)) by {
        if g2.first is Some && g2.last is Some {
            assert(g2.first == Some(0u8));
            assert(g2.last == Some((n - 1) as u8));
            assert(((n - 1) as u8) as int == n - 1);
        }
    }
    assert(prev.insert(key, g2) =~= groups.insert(key, g2));
    g2
}

/// Feeding the fragments of an Ethernet frame in any order, each once, to a
/// buffer with nothing pending for that frame returns the frame at the last
/// fragment and nothing before, and leaves the other pending groups as they
/// were (frames of at most 64 fragments, the reach of the six-bit index).
pub proof fn lemma_reassemble_any_order(
    groups: Map<u16, GroupState>,
    eth: Seq<u8>,
    dst: u8,
    src: u8,
    frame_id: u8,
    order: Seq<int>,
)
    requires
        1 <= eth.len() <= 64 * 438,
        no_group_for(groups, src, frame_id),
        is_order_of(order, n_fragments(eth.len())),
    ensures
        feed(groups, fragment_frames_in(eth, dst, src, frame_id, order)) == (groups, Some(eth)),
        forall|k: int|
            0 <= k < order.len() ==> #[trigger] feed(
                groups,
                fragment_frames_in(eth, dst, src, frame_id, order).take(k),
            ).1 is None,
{
    let n = n_fragments(eth.len());
    let frames = fragment_frames_in(eth, dst, src, frame_id, order);
    assert(1 <= n <= 64);
    let km = (n - 1) as nat;
    assert(frames.take(n as int) =~= frames);
    assert(frames.take(n as int).drop_last() =~= frames.take(km as int));
    let g = if km == 0 {
        empty_group(src, frame_id)
    } else {
        lemma_feed_any(groups, eth, dst, src, frame_id, order, km)
    };
    let key = group_key(src, frame_id);
    let prev = if km == 0 {
        groups
    } else {
        groups.insert(key, g)
    };
    if km == 0 {
        assert(frames.take(0) =~= Seq::<Seq<u8>>::empty());
        assert(order.take(0) =~= Seq::<int>::empty());
    }
    assert(feed(groups, frames.take(km as int)).0 == prev);
    let idx = order[km as int];
    let f = frames[km as int];
    let h = fragment_header(dst, src, frame_id, idx as nat, n);
    assert(0 <= idx < n);
    h.lemma_header_roundtrip();
    assert(decoded_header(f) == decoded_header(h.spec_bytes()));
    assert(f.subrange(4, f.len() as int) =~= fragment_data(eth, idx as nat));
    lemma_insert_next(g, eth, dst, src, frame_id, order, km);
    let g2 = group_insert(g, h, fragment_data(eth, idx as nat));
    lemma_order_covers(order, n);
    assert(order.take(n as int) =~= order);
    assert(order.contains(n - 1));
    let j = choose|j: int| 0 <= j < order.len() && order[j] == n - 1;
    assert(order[j] < g2.frags.len());
    assert(g2.frags.len() == n);
    let full = Seq::new(n, |i: int| Some(fragment_data(eth, i as nat)));
    assert(g2.frags =~= full) by {
        assert forall|i: int| 0 <= i < n implies g2.frags[i] == full[i] by {
            assert(order.contains(i));
        }
    }
    assert(((n - 1) as u8) as int == n - 1);
    assert(group_complete(g2));
    lemma_joined_fragments(eth, n);
    assert(group_frame(g2) =~= eth);
    assert(prev.remove(key) =~= groups);
    assert forall|k: int| 0 <= k < order.len() implies #[trigger] feed(groups, frames.take(k)).1
        is None by {
        if k == 0 {
            assert(frames.take(0) =~= Seq::<Seq<u8>>::empty());
        } else {
            lemma_feed_any(groups, eth, dst, src, frame_id, order, k as nat);
        }
    }
}

} // verus!
