//! CSMA/CA medium access with stop-and-wait fragment acknowledgements.
//!
//! The decisions of the MAC loop stand here as a state machine: the driver
//! (audio, TAP device, clock) feeds it received frames, acknowledgements and
//! timer readings, and carries out the actions it returns.
use vstd::prelude::*;
use rand::Rng;
use crate::net::fragment::{
    decoded_header, fragment_eth_frame, fragment_frame, n_fragments, FragmentHeader,
    ReassemblyBuffer, add_spec, kept_groups,
};

verus! {

/// Frame types on the modem link.
pub const FRAME_TYPE_DATA: u8 = 0;

pub const FRAME_TYPE_ACK: u8 = 1;

/// Largest Ethernet frame accepted for transmission.
pub const MAX_ETH_FRAME: usize = 1500;

/// The duration of `ms` milliseconds (`core::time::Duration::from_millis`).
pub uninterp spec fn duration_of_millis(ms: u64) -> core::time::Duration;

/// Calls `core::time::Duration::from_millis(ms)`. Claimed: the result is
/// determined by `ms` (it is the duration of that many milliseconds).
#[verifier::external_body]
fn duration_from_millis(ms: u64) -> (d: core::time::Duration)
    ensures
        d == duration_of_millis(ms),
{
    core::time::Duration::from_millis(ms)
}

/// Calls `rand::rng().random_range(0..=cw)`: a random number of backoff
/// slots from the thread's generator. Claimed, as `random_range` documents
/// for an inclusive range: the result lies in `0..=cw`. Which value comes
/// back is chance and is not stated.
#[verifier::external_body]
fn random_backoff_slots(cw: u8) -> (slots: u64)
    ensures
        slots <= cw,
{
    rand::rng().random_range(0..=cw as u64)
}

/// The sum of the bytes of `name`.
pub open spec fn byte_sum(name: Seq<u8>) -> nat
    decreases name.len(),
{
    if name.len() == 0 {
        0
    } else {
        byte_sum(name.drop_last()) + name.last() as nat
    }
}

/// The node id a host takes by default: the sum of the bytes of its name
/// modulo 256, or 1 where that is 0 (so that no host defaults to id 0).
pub fn node_id_from_hostname(name: &[u8]) -> (id: u8)
    ensures
        id == (if byte_sum(name@) % 256 == 0 {
            1
        } else {
            byte_sum(name@) % 256
        }),
{
    let mut acc: u8 = 0;
    let mut i: usize = 0;
    while i < name.len()
        invariant
            i <= name@.len(),
            acc == byte_sum(name@.take(i as int)) % 256,
        decreases name@.len() - i,
    {
        assert(name@.take(i as int + 1).drop_last() =~= name@.take(i as int));
        acc = acc.wrapping_add(name[i]);
        i = i + 1;
    }
    assert(name@.take(name@.len() as int) =~= name@);
    if acc == 0 {
        1
    } else {
        acc
    }
}

pub struct MacConfig {
    pub node_id: u8,
    pub difs_ms: u64,
    pub slot_ms: u64,
    pub cw_min: u8,
    pub cw_max: u8,
    pub max_retries: u8,
    pub ack_timeout_ms: u64,
}

impl Clone for MacConfig {
    fn clone(&self) -> (c: Self)
        ensures
            c == *self,
    {
        MacConfig {
            node_id: self.node_id,
            difs_ms: self.difs_ms,
            slot_ms: self.slot_ms,
            cw_min: self.cw_min,
            cw_max: self.cw_max,
            max_retries: self.max_retries,
            ack_timeout_ms: self.ack_timeout_ms,
        }
    }
}

impl Default for MacConfig {
    /// Node 1, 600 ms DIFS, 60 ms slots, contention window 4..64, five
    /// retries, 2000 ms acknowledgement timeout.
    fn default() -> (c: Self)
        ensures
            c.node_id == 1 && c.difs_ms == 600 && c.slot_ms == 60,
            c.cw_min == 4 && c.cw_max == 64 && c.max_retries == 5 && c.ack_timeout_ms == 2000,
    {
        MacConfig {
            node_id: 1,
            difs_ms: 600,
            slot_ms: 60,
            cw_min: 4,
            cw_max: 64,
            max_retries: 5,
            ack_timeout_ms: 2000,
        }
    }
}

impl MacConfig {
    pub fn difs(&self) -> (d: core::time::Duration)
        ensures
            d == duration_of_millis(self.difs_ms),
    {
        duration_from_millis(self.difs_ms)
    }

    pub fn slot(&self) -> (d: core::time::Duration)
        ensures
            d == duration_of_millis(self.slot_ms),
    {
        duration_from_millis(self.slot_ms)
    }

    pub fn ack_timeout(&self) -> (d: core::time::Duration)
        ensures
            d == duration_of_millis(self.ack_timeout_ms),
    {
        duration_from_millis(self.ack_timeout_ms)
    }
}

/// Where the transmitter stands.
#[derive(PartialEq, Eq, Structural, Clone, Copy, Debug)]
pub enum Phase {
    Idle,
    /// Waiting for the medium to stay idle for DIFS.
    Sensing,
    /// Waiting out the random backoff.
    Backoff,
    /// A fragment was sent; waiting for its acknowledgement.
    WaitingAck,
}

/// What the driver does after a received frame: acknowledge a data
/// fragment, deliver a reassembled Ethernet frame, queue an
/// acknowledgement of one of ours.
pub struct RxOutcome {
    /// ACK payload `[dst, our id, frame id, fragment index]` to send.
    pub ack: Option<[u8; 4]>,
    /// A complete Ethernet frame for the TAP device.
    pub deliver: Option<Vec<u8>>,
    /// `(frame id, fragment index)` of an ACK addressed to us.
    pub acked: Option<(u8, u8)>,
}

/// What the driver does after a transmit step: send a data fragment, and
/// restart the phase timer.
pub struct TxOutcome {
    pub transmit: Option<Vec<u8>>,
    pub restart_timer: bool,
}

/// The decision state of the MAC.
pub struct MacState {
    config: MacConfig,
    reassembly: ReassemblyBuffer,
    phase: Phase,
    eth_frame: Vec<u8>,
    fragments: Vec<Vec<u8>>,
    frag_idx: usize,
    retries: u8,
    cw: u8,
    frame_id_counter: u8,
    tx_frame_id: u8,
    backoff_ms: u64,
}

impl MacState {
    pub closed spec fn spec_config(&self) -> MacConfig {
        self.config
    }

    pub closed spec fn spec_phase(&self) -> Phase {
        self.phase
    }

    pub closed spec fn spec_fragments(&self) -> Seq<Seq<u8>> {
        Seq::new(self.fragments@.len(), |i: int| self.fragments@[i]@)
    }

    pub closed spec fn spec_frag_idx(&self) -> nat {
        self.frag_idx as nat
    }

    pub closed spec fn spec_retries(&self) -> nat {
        self.retries as nat
    }

    pub closed spec fn spec_cw(&self) -> u8 {
        self.cw
    }

    pub closed spec fn spec_frame_id_counter(&self) -> u8 {
        self.frame_id_counter
    }

    pub closed spec fn spec_tx_frame_id(&self) -> u8 {
        self.tx_frame_id
    }

    pub closed spec fn spec_backoff_ms(&self) -> u64 {
        self.backoff_ms
    }

    pub closed spec fn spec_reassembly(&self) -> ReassemblyBuffer {
        self.reassembly
    }

    /// The invariant every step keeps: a fragment is being sent exactly when
    /// the transmitter is busy, and the reassembly buffer is well formed.
    pub closed spec fn wf(&self) -> bool {
        &&& (self.fragments@.len() > 0 ==> self.frag_idx < self.fragments@.len())
        &&& (self.phase != Phase::Idle ==> self.fragments@.len() > 0)
        &&& self.reassembly.wf()
    }

    pub fn new(config: MacConfig) -> (m: Self)
        ensures
            m.wf(),
            m.spec_config() == config,
            m.spec_phase() == Phase::Idle,
            m.spec_fragments().len() == 0,
            m.spec_cw() == 4,
            m.spec_frame_id_counter() == 0,
            m.spec_reassembly().spec_groups().len() == 0,
    {
        let m = MacState {
            config,
            reassembly: ReassemblyBuffer::default(),
            phase: Phase::Idle,
            eth_frame: Vec::new(),
            fragments: Vec::new(),
            frag_idx: 0,
            retries: 0,
            cw: 4,
            frame_id_counter: 0,
            tx_frame_id: 0,
            backoff_ms: 0,
        };
        assert(m.spec_fragments() =~= Seq::<Seq<u8>>::empty());
        m
    }

    pub fn config(&self) -> (c: &MacConfig)
        ensures
            *c == self.spec_config(),
    {
        &self.config
    }

    pub fn phase(&self) -> (p: Phase)
        ensures
            p == self.spec_phase(),
    {
        self.phase
    }

    /// The contention window, in slots.
    pub fn cw(&self) -> (c: u8)
        ensures
            c == self.spec_cw(),
    {
        self.cw
    }

    /// A random backoff, in slots, drawn from `0..=cw` (the contention
    /// window).
    pub fn draw_backoff(&self) -> (slots: u64)
        ensures
            slots <= self.spec_cw(),
    {
        random_backoff_slots(self.cw)
    }

    /// Retries spent on the fragment in flight.
    pub fn retries(&self) -> (r: u8)
        ensures
            r == self.spec_retries(),
    {
        self.retries
    }

    /// Drop stale reassembly groups (see `ReassemblyBuffer::cleanup`);
    /// nothing else changes.
    pub fn cleanup(&mut self)
        requires
            old(self).wf(),
        ensures
            final(self).wf(),
            final(self).spec_reassembly().spec_groups() == kept_groups(
                old(self).spec_reassembly().spec_groups(),
            ),
            final(self).spec_config() == old(self).spec_config(),
            final(self).spec_phase() == old(self).spec_phase(),
            final(self).spec_fragments() == old(self).spec_fragments(),
            final(self).spec_frag_idx() == old(self).spec_frag_idx(),
            final(self).spec_retries() == old(self).spec_retries(),
            final(self).spec_cw() == old(self).spec_cw(),
            final(self).spec_frame_id_counter() == old(self).spec_frame_id_counter(),
            final(self).spec_tx_frame_id() == old(self).spec_tx_frame_id(),
            final(self).spec_backoff_ms() == old(self).spec_backoff_ms(),
    {
        self.reassembly.cleanup();
    }

    /// Whether an Ethernet frame is queued or in flight.
    pub fn has_pending_tx(&self) -> (b: bool)
        ensures
            b == (self.spec_fragments().len() > 0),
    {
        self.fragments.len() > 0
    }

    /// Queue an Ethernet frame from the TAP device: frames over 1500 bytes are
    /// dropped; otherwise the next frame id is taken and the frame is split
    /// into broadcast fragments, sent from the first.
    pub fn start_tx(&mut self, eth_frame: Vec<u8>)
        requires
            old(self).wf(),
            old(self).spec_phase() == Phase::Idle,
        ensures
            final(self).wf(),
            final(self).spec_phase() == Phase::Idle,
            eth_frame@.len() > MAX_ETH_FRAME ==> final(self).spec_fragments() == old(self).spec_fragments() && final(self).spec_frame_id_counter() == old(self).spec_frame_id_counter(),
            eth_frame@.len() <= MAX_ETH_FRAME ==> {
                &&& final(self).spec_frame_id_counter() == (old(self).spec_frame_id_counter() + 1)
                    % 256
                &&& final(self).spec_fragments().len() == n_fragments(eth_frame@.len())
                &&& forall|i: int|
                    0 <= i < final(self).spec_fragments().len() ==> (#[trigger] final(self).spec_fragments()[i]) == fragment_frame(
                        eth_frame@,
                        0xFF,
                        final(self).spec_config().node_id,
                        final(self).spec_frame_id_counter(),
                        i as nat,
                    )
                &&& final(self).spec_frag_idx() == 0
                &&& final(self).spec_retries() == 0
                &&& final(self).spec_cw() == final(self).spec_config().cw_min
            },
            final(self).spec_config() == old(self).spec_config(),
    {
        if eth_frame.len() > MAX_ETH_FRAME {
            return;
        }
        self.frame_id_counter = self.frame_id_counter.wrapping_add(1);
        self.fragments = fragment_eth_frame(
            eth_frame.as_slice(),
            0xFF,
            self.config.node_id,
            self.frame_id_counter,
        );
        self.eth_frame = eth_frame;
        self.frag_idx = 0;
        self.retries = 0;
        self.cw = self.config.cw_min;
    }

    /// Handle one received frame. A data fragment addressed to this node (or
    /// broadcast) is acknowledged; any data fragment goes to reassembly,
    /// which may complete an Ethernet frame. An ACK addressed to this node is
    /// handed back for `on_ack`.
    pub fn on_receive(&mut self, frame_type: u8, payload: &[u8]) -> (out: RxOutcome)
        requires
            old(self).wf(),
        ensures
            final(self).wf(),
            final(self).spec_config() == old(self).spec_config(),
            final(self).spec_phase() == old(self).spec_phase(),
            final(self).spec_fragments() == old(self).spec_fragments(),
            final(self).spec_frag_idx() == old(self).spec_frag_idx(),
            final(self).spec_retries() == old(self).spec_retries(),
            final(self).spec_cw() == old(self).spec_cw(),
            final(self).spec_frame_id_counter() == old(self).spec_frame_id_counter(),
            final(self).spec_tx_frame_id() == old(self).spec_tx_frame_id(),
            final(self).spec_backoff_ms() == old(self).spec_backoff_ms(),
            frame_type == FRAME_TYPE_DATA && decoded_header(payload@) is Some ==> {
                let h = decoded_header(payload@).unwrap();
                let r = add_spec(old(self).spec_reassembly().spec_groups(), payload@);
                &&& out.ack.is_some() == (h.dst_id == old(self).spec_config().node_id || h.dst_id == 0xFF)
                &&& out.ack.is_some() ==> out.ack.unwrap()@ == seq![
                    h.src_id,
                    old(self).spec_config().node_id,
                    h.frame_id,
                    h.frag_index,
                ]
                &&& final(self).spec_reassembly().spec_groups() == r.0
                &&& out.deliver.is_some() == r.1.is_some()
                &&& out.deliver.is_some() ==> out.deliver.unwrap()@ == r.1.unwrap()
                &&& out.acked.is_none()
            },
            !(frame_type == FRAME_TYPE_DATA && decoded_header(payload@) is Some) ==> {
                &&& out.ack.is_none()
                &&& out.deliver.is_none()
                &&& final(self).spec_reassembly() == old(self).spec_reassembly()
                &&& out.acked == (if frame_type == FRAME_TYPE_ACK && payload@.len() >= 4
                    && payload@[0] == old(self).spec_config().node_id {
                    Some((payload@[2], payload@[3]))
                } else {
                    None
                })
            },
    {
        let mut out = RxOutcome { ack: None, deliver: None, acked: None };
        if frame_type == FRAME_TYPE_DATA {
            if let Some(hdr) = FragmentHeader::decode(payload) {
                let is_for_us = hdr.dst_id == self.config.node_id || hdr.dst_id == 0xFF;
                if is_for_us {
                    out.ack = Some([hdr.src_id, self.config.node_id, hdr.frame_id, hdr.frag_index]);
                }
                out.deliver = self.reassembly.add_fragment(payload);
            }
        } else if frame_type == FRAME_TYPE_ACK {
            if payload.len() >= 4 {
                let ack_dst = payload[0];
                let ack_fid = payload[2];
                let ack_fidx = payload[3];
                if ack_dst == self.config.node_id {
                    out.acked = Some((ack_fid, ack_fidx));
                }
            }
        }
        out
    }

    /// Handle an acknowledgement of frame `frame_id`: while waiting for the
    /// acknowledgement of that frame, move to the next fragment (or finish
    /// the frame after the last) and reset retries and contention window.
    pub fn on_ack(&mut self, frame_id: u8)
        requires
            old(self).wf(),
        ensures
            final(self).wf(),
            final(self).spec_config() == old(self).spec_config(),
            final(self).spec_reassembly() == old(self).spec_reassembly(),
            final(self).spec_frame_id_counter() == old(self).spec_frame_id_counter(),
            final(self).spec_tx_frame_id() == old(self).spec_tx_frame_id(),
            final(self).spec_backoff_ms() == old(self).spec_backoff_ms(),
            old(self).spec_phase() == Phase::WaitingAck && frame_id == old(self).spec_tx_frame_id() ==> {
                &&& final(self).spec_phase() == Phase::Idle
                &&& final(self).spec_retries() == 0
                &&& final(self).spec_cw() == old(self).spec_config().cw_min
                &&& old(self).spec_frag_idx() + 1 >= old(self).spec_fragments().len() ==> final(self).spec_fragments().len() == 0 && final(self).spec_frag_idx() == old(self).spec_frag_idx() + 1
                &&& old(self).spec_frag_idx() + 1 < old(self).spec_fragments().len() ==> final(self).spec_fragments() == old(self).spec_fragments() && final(self).spec_frag_idx()
                    == old(self).spec_frag_idx() + 1
            },
            !(old(self).spec_phase() == Phase::WaitingAck && frame_id == old(self).spec_tx_frame_id()) ==> final(self).spec_phase() == old(self).spec_phase()
                && final(self).spec_fragments() == old(self).spec_fragments() && final(self).spec_frag_idx() == old(self).spec_frag_idx()
                && final(self).spec_retries() == old(self).spec_retries() && final(self).spec_cw() == old(self).spec_cw(),
    {
        if self.phase == Phase::WaitingAck && frame_id == self.tx_frame_id {
            assert(self.fragments@.len() == self.fragments.len());
            self.frag_idx = self.frag_idx + 1;
            self.retries = 0;
            self.cw = self.config.cw_min;
            if self.frag_idx >= self.fragments.len() {
                self.phase = Phase::Idle;
                self.eth_frame.clear();
                self.fragments.clear();
                assert(self.spec_fragments() =~= Seq::<Seq<u8>>::empty());
            } else {
                self.phase = Phase::Idle;
            }
        }
    }

    /// One step of the transmit state machine, given the milliseconds since
    /// the phase timer was last restarted, whether the medium is busy, and a
    /// random backoff in slots (drawn by the driver from `0..=cw`).
    ///
    /// Sensing: after DIFS on an idle medium, start a backoff of
    /// `backoff_slots` slots; on a busy medium, start sensing again. Backoff:
    /// when it has run out, send the current fragment and wait for its ACK.
    /// Waiting: when the ACK timeout passes, count a retry; past the retry
    /// limit drop the frame, else double the contention window (up to its
    /// maximum). Then an idle transmitter with fragments queued starts
    /// sensing.
    pub fn tx_step(&mut self, elapsed_ms: u64, channel_busy: bool, backoff_slots: u64) -> (out:
        TxOutcome)
        requires
            old(self).wf(),
            backoff_slots * old(self).spec_config().slot_ms <= u64::MAX,
            old(self).spec_phase() == Phase::WaitingAck && elapsed_ms >= old(self).spec_config().ack_timeout_ms ==> old(self).spec_retries() < 255,
            old(self).spec_phase() == Phase::WaitingAck && elapsed_ms >= old(self).spec_config().ack_timeout_ms && old(self).spec_retries() + 1 <= old(self).spec_config().max_retries ==> old(self).spec_cw() < 128,
        ensures
            final(self).wf(),
            final(self).spec_config() == old(self).spec_config(),
            final(self).spec_reassembly() == old(self).spec_reassembly(),
            out.transmit.is_some() == (old(self).spec_phase() == Phase::Backoff && elapsed_ms
                >= old(self).spec_backoff_ms()),
            out.transmit.is_some() ==> {
                &&& out.transmit.unwrap()@ == old(self).spec_fragments()[old(self).spec_frag_idx() as int]
                &&& final(self).spec_phase() == Phase::WaitingAck
                &&& final(self).spec_tx_frame_id() == (match decoded_header(
                    out.transmit.unwrap()@,
                ) {
                    Some(h) => h.frame_id,
                    None => 0,
                })
            },
            old(self).spec_phase() == Phase::Sensing && elapsed_ms >= old(self).spec_config().difs_ms
                && !channel_busy ==> final(self).spec_phase() == Phase::Backoff && final(self).spec_backoff_ms() == backoff_slots * old(self).spec_config().slot_ms && out.restart_timer,
            old(self).spec_phase() == Phase::WaitingAck && elapsed_ms >= old(self).spec_config().ack_timeout_ms ==> final(self).spec_retries() == old(self).spec_retries()
                + 1 && (final(self).spec_retries() > old(self).spec_config().max_retries ==> final(self).spec_fragments().len() == 0 && final(self).spec_phase() == Phase::Idle) && (final(self).spec_retries() <= old(self).spec_config().max_retries ==> final(self).spec_cw() == (if 2
                * old(self).spec_cw() < old(self).spec_config().cw_max {
                2 * old(self).spec_cw()
            } else {
                old(self).spec_config().cw_max as int
            }) && final(self).spec_phase() == Phase::Sensing && out.restart_timer),
            final(self).spec_phase() == Phase::Idle ==> final(self).spec_fragments().len() == 0,
            out.transmit.is_some() ==> out.restart_timer,
            out.transmit.is_none() ==> final(self).spec_tx_frame_id() == old(self).spec_tx_frame_id(),
            final(self).spec_frame_id_counter() == old(self).spec_frame_id_counter(),
            old(self).spec_phase() == Phase::Idle ==> {
                &&& final(self).spec_phase() == (if old(self).spec_fragments().len() > 0 {
                    Phase::Sensing
                } else {
                    Phase::Idle
                })
                &&& out.restart_timer == (old(self).spec_fragments().len() > 0)
            },
            old(self).spec_phase() == Phase::Sensing && (elapsed_ms < old(self).spec_config().difs_ms
                || channel_busy) ==> final(self).spec_phase() == Phase::Sensing && out.restart_timer == (
            elapsed_ms >= old(self).spec_config().difs_ms),
            old(self).spec_phase() == Phase::Backoff && elapsed_ms < old(self).spec_backoff_ms()
                ==> final(self).spec_phase() == Phase::Backoff && !out.restart_timer,
            old(self).spec_phase() == Phase::WaitingAck && elapsed_ms < old(self).spec_config().ack_timeout_ms
                ==> final(self).spec_phase() == Phase::WaitingAck && !out.restart_timer,
            !(old(self).spec_phase() == Phase::Sensing && elapsed_ms >= old(self).spec_config().difs_ms
                && !channel_busy) ==> final(self).spec_backoff_ms() == old(self).spec_backoff_ms(),
            !(old(self).spec_phase() == Phase::WaitingAck && elapsed_ms >= old(self).spec_config().ack_timeout_ms) ==> {
                &&& final(self).spec_retries() == old(self).spec_retries()
                &&& final(self).spec_cw() == old(self).spec_cw()
                &&& final(self).spec_fragments() == old(self).spec_fragments()
                &&& final(self).spec_frag_idx() == old(self).spec_frag_idx()
            },
            old(self).spec_phase() == Phase::WaitingAck && elapsed_ms >= old(self).spec_config().ack_timeout_ms
                && old(self).spec_retries() + 1 <= old(self).spec_config().max_retries ==> final(self).spec_fragments()
                == old(self).spec_fragments() && final(self).spec_frag_idx() == old(self).spec_frag_idx(),
    {
        let mut out = TxOutcome { transmit: None, restart_timer: false };
        match self.phase {
            Phase::Idle => {},
            Phase::Sensing => {
                if elapsed_ms >= self.config.difs_ms {
                    if !channel_busy {
                        self.backoff_ms = backoff_slots * self.config.slot_ms;
                        self.phase = Phase::Backoff;
                    }
                    out.restart_timer = true;
                }
            },
            Phase::Backoff => {
                if elapsed_ms >= self.backoff_ms {
                    let frag = self.fragments[self.frag_idx].clone();
                    self.tx_frame_id = match FragmentHeader::decode(frag.as_slice()) {
                        Some(h) => h.frame_id,
                        None => 0,
                    };
                    self.phase = Phase::WaitingAck;
                    out.transmit = Some(frag);
                    out.restart_timer = true;
                }
            },
            Phase::WaitingAck => {
                if elapsed_ms >= self.config.ack_timeout_ms {
                    self.retries = self.retries + 1;
                    if self.retries > self.config.max_retries {
                        self.phase = Phase::Idle;
                        self.eth_frame.clear();
                        self.fragments.clear();
                        assert(self.spec_fragments() =~= Seq::<Seq<u8>>::empty());
                    } else {
                        let doubled = self.cw * 2;
                        self.cw = if doubled < self.config.cw_max {
                            doubled
                        } else {
                            self.config.cw_max
                        };
                        self.phase = Phase::Idle;
                    }
                }
            },
        }
        if self.phase == Phase::Idle && self.fragments.len() > 0 {
            self.phase = Phase::Sensing;
            out.restart_timer = true;
        }
        out
    }
}

} // verus!
