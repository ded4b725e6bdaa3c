//! Link training: the initiator finds the peer on the control mode, then
//! offers the data modes fastest first, probes each one the peer accepts,
//! and keeps the first that the peer reports decoding with enough headroom;
//! the responder answers and follows the mode switches. Modes are numbered
//! `0..n_modes`, the last being the control mode. These are the decisions
//! only: the driver sends, listens and measures.
use vstd::prelude::*;

verus! {

pub const KIND_HELLO: u8 = 1;

pub const KIND_HELLO_ACK: u8 = 2;

pub const KIND_MODE: u8 = 3;

pub const KIND_MODE_ACK: u8 = 4;

pub const KIND_PROBE: u8 = 5;

pub const KIND_REPORT: u8 = 6;

pub const KIND_DONE: u8 = 7;

pub const KIND_DONE_ACK: u8 = 8;

/// Least tone SNR, in whole dB, at which a probed mode is kept.
pub const MIN_HEADROOM_DB: u8 = 6;

/// The known bytes a probe carries after its kind.
pub open spec fn probe_pattern() -> Seq<u8> {
    seq![0xA5u8, 0x5A, 0xC3, 0x3C, 0x0F, 0xF0, 0x11, 0x22]
}

/// Whether `reply` is a frame whose first byte is `kind`.
pub open spec fn starts_with_kind(reply: Option<Seq<u8>>, kind: u8) -> bool {
    match reply {
        Some(r) => r.len() >= 1 && r[0] == kind,
        None => false,
    }
}

/// Where the initiator stands.
#[derive(PartialEq, Eq, Structural, Clone, Copy, Debug)]
pub enum TrainPhase {
    /// Looking for the peer.
    Hello,
    /// Offering a data mode.
    Mode,
    /// Probing the data mode the peer switched to.
    Probe,
    /// Telling the peer that training is over.
    Done,
    /// Training is over.
    Over,
}

/// The initiator's state as plain values.
pub struct TrainView {
    pub phase: TrainPhase,
    /// The data mode offered or probed.
    pub id: nat,
    /// Failed attempts of the current exchange.
    pub tries: nat,
    /// The data mode kept, once one passed.
    pub chosen: Option<nat>,
    /// Whether the peer answered HELLO.
    pub found: bool,
}

/// After data mode `id` is dropped: offer the next one, or finish when it was
/// the last before the control mode.
pub open spec fn after_mode(s: TrainView, ctrl: nat) -> TrainView {
    if s.id + 1 < ctrl {
        TrainView { phase: TrainPhase::Mode, id: s.id + 1, tries: 0, ..s }
    } else {
        TrainView { phase: TrainPhase::Done, tries: 0, ..s }
    }
}

/// A failed attempt: try again while fewer than `retries` failed, else
/// `give_up`.
pub open spec fn after_failure(s: TrainView, retries: nat, give_up: TrainView) -> TrainView {
    if s.tries < retries {
        TrainView { tries: s.tries + 1, ..s }
    } else {
        give_up
    }
}

/// The initiator's next state after the reply to its exchange (`None`: no
/// reply in time). Hello: a HELLO_ACK finds the peer and starts offering
/// mode 0 (or finishes when there is no data mode); Mode: a MODE_ACK starts
/// the probe; Probe: a REPORT of at least four bytes whose FEC flag is 1
/// and whose SNR byte reaches the headroom keeps the mode and finishes, any
/// other REPORT drops the mode; Done: a DONE_ACK ends training. Without the
/// expected reply an exchange is repeated up to `retries` times, after
/// which HELLO gives up on the peer, a mode is dropped, and DONE ends
/// training anyway.
pub open spec fn trainer_step(
    n_modes: nat,
    retries: nat,
    s: TrainView,
    reply: Option<Seq<u8>>,
) -> TrainView {
    let ctrl = (n_modes - 1) as nat;
    match s.phase {
        TrainPhase::Hello => if starts_with_kind(reply, KIND_HELLO_ACK) {
            if ctrl == 0 {
                TrainView { phase: TrainPhase::Done, tries: 0, found: true, ..s }
            } else {
                TrainView { phase: TrainPhase::Mode, id: 0, tries: 0, found: true, ..s }
            }
        } else {
            after_failure(s, retries, TrainView { phase: TrainPhase::Over, ..s })
        },
        TrainPhase::Mode => if starts_with_kind(reply, KIND_MODE_ACK) {
            TrainView { phase: TrainPhase::Probe, tries: 0, ..s }
        } else {
            after_failure(s, retries, after_mode(s, ctrl))
        },
        TrainPhase::Probe => if starts_with_kind(reply, KIND_REPORT) && reply.unwrap().len() >= 4 {
            let r = reply.unwrap();
            if r[3] == 1 && r[2] >= MIN_HEADROOM_DB {
                TrainView { phase: TrainPhase::Done, tries: 0, chosen: Some(s.id), ..s }
            } else {
                after_mode(s, ctrl)
            }
        } else {
            after_failure(s, retries, after_mode(s, ctrl))
        },
        TrainPhase::Done => if starts_with_kind(reply, KIND_DONE_ACK) {
            TrainView { phase: TrainPhase::Over, ..s }
        } else {
            after_failure(s, retries, TrainView { phase: TrainPhase::Over, ..s })
        },
        TrainPhase::Over => s,
    }
}

/// A data mode is kept only on the peer's word that it works: a step changes
/// the kept mode only when probing, on a REPORT of at least four bytes whose
/// FEC byte is 1 and whose SNR byte reaches `MIN_HEADROOM_DB`, and then it
/// keeps the probed mode and goes on to DONE. Any other REPORT to a probe
/// drops the probed mode: the next one is offered, or DONE follows when it
/// was the last data mode, and nothing is kept.
pub proof fn lemma_mode_kept_only_on_good_report(
    n_modes: nat,
    retries: nat,
    s: TrainView,
    reply: Option<Seq<u8>>,
)
    requires
        1 <= n_modes,
    ensures
        ({
            let t = trainer_step(n_modes, retries, s, reply);
            let good = s.phase == TrainPhase::Probe && reply is Some && reply.unwrap().len() >= 4
                && reply.unwrap()[0] == KIND_REPORT && reply.unwrap()[3] == 1 && reply.unwrap()[2]
                >= MIN_HEADROOM_DB;
            let bad_report = s.phase == TrainPhase::Probe && reply is Some && reply.unwrap().len()
                >= 4 && reply.unwrap()[0] == KIND_REPORT && !(reply.unwrap()[3] == 1
                && reply.unwrap()[2] >= MIN_HEADROOM_DB);
            &&& t.chosen != s.chosen ==> good
            &&& good ==> t.chosen == Some(s.id) && t.phase == TrainPhase::Done
            &&& bad_report ==> t.chosen == s.chosen && t.tries == 0 && (if s.id + 1 < n_modes - 1 {
                t.phase == TrainPhase::Mode && t.id == s.id + 1
            } else {
                t.phase == TrainPhase::Done
            })
        }),
{
}

/// The exchanges the initiator can still make from `s`, with
/// `retries + 1` attempts per exchange: the rest of the current exchange,
/// then for each data mode not yet tried an offer and a probe, then DONE.
pub open spec fn trainer_budget(n_modes: nat, retries: nat, s: TrainView) -> int {
    let w = retries + 1;
    let ctrl = n_modes - 1;
    let left = w - s.tries;
    match s.phase {
        TrainPhase::Over => 0,
        TrainPhase::Done => left,
        TrainPhase::Probe => left + (ctrl - 1 - s.id) * (2 * w) + w,
        TrainPhase::Mode => left + w + (ctrl - 1 - s.id) * (2 * w) + w,
        TrainPhase::Hello => left + ctrl * (2 * w) + w,
    }
}

/// Training always ends: it starts with a budget of `2 (retries + 1)
/// n_modes` exchanges, the budget is never negative, and every reply (or
/// its absence) to a state that is not over lowers it.
pub proof fn lemma_training_ends(n_modes: nat, retries: nat, s: TrainView, reply: Option<Seq<u8>>)
    requires
        1 <= n_modes,
        s.tries <= retries,
        (s.phase == TrainPhase::Mode || s.phase == TrainPhase::Probe) ==> s.id + 1 < n_modes,
    ensures
        trainer_budget(
            n_modes,
            retries,
            TrainView { phase: TrainPhase::Hello, id: 0, tries: 0, chosen: None, found: false },
        ) == 2 * (retries + 1) * n_modes,
        trainer_budget(n_modes, retries, s) >= 0,
        s.phase != TrainPhase::Over ==> trainer_budget(
            n_modes,
            retries,
            trainer_step(n_modes, retries, s, reply),
        ) < trainer_budget(n_modes, retries, s),
{
    let w = retries + 1;
    let ctrl = n_modes - 1;
    assert(ctrl * (2 * w) + 2 * w == 2 * w * n_modes) by (nonlinear_arith)
        requires
            ctrl == n_modes - 1,
    ;
    assert(2 * w * n_modes == 2 * (retries + 1) * n_modes) by (nonlinear_arith)
        requires
            w == retries + 1,
    ;
    if s.phase == TrainPhase::Mode || s.phase == TrainPhase::Probe {
        assert((ctrl - 1 - s.id) * (2 * w) >= 0) by (nonlinear_arith)
            requires
                s.id + 1 < n_modes,
                ctrl == n_modes - 1,
                w >= 1,
        ;
        assert((ctrl - 1 - s.id) * (2 * w) == (ctrl - 1 - (s.id + 1)) * (2 * w) + 2 * w)
            by (nonlinear_arith);
    }
    assert(ctrl * (2 * w) >= 0) by (nonlinear_arith)
        requires
            ctrl >= 0,
            w >= 1,
    ;
    if ctrl > 0 {
        assert(ctrl * (2 * w) == (ctrl - 1 - 0) * (2 * w) + 2 * w) by (nonlinear_arith);
    }
}

/// What the initiator asks of its driver, as plain values.
pub enum TrainerActionView {
    Exchange { frame: Seq<u8>, mode: nat },
    Finished { mode: nat },
    NoPeer,
}

/// The action for a state: the exchange of its phase (HELLO, MODE with the
/// mode's number, and DONE in the control mode; the probe in the probed
/// mode); once over, the mode chosen (the control mode when none passed),
/// or that no peer answered.
pub open spec fn trainer_action(n_modes: nat, s: TrainView) -> TrainerActionView {
    let ctrl = (n_modes - 1) as nat;
    match s.phase {
        TrainPhase::Hello => TrainerActionView::Exchange { frame: seq![KIND_HELLO], mode: ctrl },
        TrainPhase::Mode => TrainerActionView::Exchange {
            frame: seq![KIND_MODE, s.id as u8],
            mode: ctrl,
        },
        TrainPhase::Probe => TrainerActionView::Exchange {
            frame: seq![KIND_PROBE] + probe_pattern(),
            mode: s.id,
        },
        TrainPhase::Done => TrainerActionView::Exchange { frame: seq![KIND_DONE], mode: ctrl },
        TrainPhase::Over => if s.found {
            TrainerActionView::Finished {
                mode: match s.chosen {
                    Some(c) => c,
                    None => ctrl,
                },
            }
        } else {
            TrainerActionView::NoPeer
        },
    }
}

/// What the initiator asks of its driver.
pub enum TrainerAction {
    /// Send `frame` in mode `mode` and listen there for the reply.
    Exchange { frame: Vec<u8>, mode: usize },
    /// Training is over: the data mode to use.
    Finished { mode: usize },
    /// The peer never answered HELLO.
    NoPeer,
}

impl View for TrainerAction {
    type V = TrainerActionView;

    open spec fn view(&self) -> TrainerActionView {
        match self {
            TrainerAction::Exchange { frame, mode } => TrainerActionView::Exchange {
                frame: frame@,
                mode: *mode as nat,
            },
            TrainerAction::Finished { mode } => TrainerActionView::Finished { mode: *mode as nat },
            TrainerAction::NoPeer => TrainerActionView::NoPeer,
        }
    }
}

/// The initiating side of link training.
pub struct TrainerState {
    n_modes: usize,
    retries: usize,
    phase: TrainPhase,
    id: usize,
    tries: usize,
    chosen: Option<usize>,
    found: bool,
}

impl TrainerState {
    pub closed spec fn spec_n_modes(&self) -> nat {
        self.n_modes as nat
    }

    pub closed spec fn spec_retries(&self) -> nat {
        self.retries as nat
    }

    pub closed spec fn view(&self) -> TrainView {
        TrainView {
            phase: self.phase,
            id: self.id as nat,
            tries: self.tries as nat,
            chosen: match self.chosen {
                Some(c) => Some(c as nat),
                None => None,
            },
            found: self.found,
        }
    }

    /// There is a mode, the offered or probed mode is a data mode, retries
    /// stay within bounds, and a kept mode is a data mode.
    pub closed spec fn wf(&self) -> bool {
        &&& 1 <= self.n_modes
        &&& (self.phase == TrainPhase::Mode || self.phase == TrainPhase::Probe) ==> self.id + 1
            < self.n_modes
        &&& self.tries <= self.retries
        &&& self.chosen matches Some(c) ==> c + 1 < self.n_modes
    }

    /// Training over `n_modes` modes (the last the control mode), each
    /// exchange tried `retries + 1` times, starting with HELLO.
    pub fn new(n_modes: usize, retries: usize) -> (t: Self)
        requires
            1 <= n_modes,
        ensures
            t.wf(),
            t.spec_n_modes() == n_modes,
            t.spec_retries() == retries,
            t@ == (TrainView {
                phase: TrainPhase::Hello,
                id: 0,
                tries: 0,
                chosen: None,
                found: false,
            }),
    {
        TrainerState {
            n_modes,
            retries,
            phase: TrainPhase::Hello,
            id: 0,
            tries: 0,
            chosen: None,
            found: false,
        }
    }

    /// The action for the current state.
    pub fn action(&self) -> (a: TrainerAction)
        requires
            self.wf(),
        ensures
            a@ == trainer_action(self.spec_n_modes(), self@),
    {
        let ctrl = self.n_modes - 1;
        match self.phase {
            TrainPhase::Hello => {
                let f = vec![KIND_HELLO];
                assert(f@ =~= seq![KIND_HELLO]);
                TrainerAction::Exchange { frame: f, mode: ctrl }
            },
            TrainPhase::Mode => {
                let f = vec![KIND_MODE, self.id as u8];
                assert(f@ =~= seq![KIND_MODE, self.id as u8]);
                TrainerAction::Exchange { frame: f, mode: ctrl }
            },
            TrainPhase::Probe => {
                let f = vec![KIND_PROBE, 0xA5u8, 0x5A, 0xC3, 0x3C, 0x0F, 0xF0, 0x11, 0x22];
                assert(f@ =~= seq![KIND_PROBE] + probe_pattern());
                TrainerAction::Exchange { frame: f, mode: self.id }
            },
            TrainPhase::Done => {
                let f = vec![KIND_DONE];
                assert(f@ =~= seq![KIND_DONE]);
                TrainerAction::Exchange { frame: f, mode: ctrl }
            },
            TrainPhase::Over => if self.found {
                TrainerAction::Finished {
                    mode: match self.chosen {
                        Some(c) => c,
                        None => ctrl,
                    },
                }
            } else {
                TrainerAction::NoPeer
            },
        }
    }

    /// Move to the next data mode, or to DONE after the last.
    fn drop_mode(&mut self)
        requires
            old(self).wf(),
            old(self).phase == TrainPhase::Mode || old(self).phase == TrainPhase::Probe,
        ensures
            final(self).wf(),
            final(self)@ == after_mode(old(self)@, (old(self).spec_n_modes() - 1) as nat),
            final(self).spec_n_modes() == old(self).spec_n_modes(),
            final(self).spec_retries() == old(self).spec_retries(),
    {
        if self.id + 1 < self.n_modes - 1 {
            self.id = self.id + 1;
            self.phase = TrainPhase::Mode;
        } else {
            self.phase = TrainPhase::Done;
        }
        self.tries = 0;
    }

    /// Take the reply to the current exchange (`None`: none came in time)
    /// and give the next action.
    pub fn on_reply(&mut self, reply: Option<&[u8]>) -> (a: TrainerAction)
        requires
            old(self).wf(),
        ensures
            final(self).wf(),
            final(self).spec_n_modes() == old(self).spec_n_modes(),
            final(self).spec_retries() == old(self).spec_retries(),
            final(self)@ == trainer_step(
                old(self).spec_n_modes(),
                old(self).spec_retries(),
                old(self)@,
                match reply {
                    Some(r) => Some(r@),
                    None => None,
                },
            ),
            a@ == trainer_action(final(self).spec_n_modes(), final(self)@),
    {
        let first: Option<u8> = match reply {
            Some(r) => if r.len() >= 1 {
                Some(r[0])
            } else {
                None
            },
            None => None,
        };
        match self.phase {
            TrainPhase::Hello => {
                if first == Some(KIND_HELLO_ACK) {
                    self.found = true;
                    self.tries = 0;
                    if self.n_modes - 1 == 0 {
                        self.phase = TrainPhase::Done;
                    } else {
                        self.phase = TrainPhase::Mode;
                        self.id = 0;
                    }
                } else if self.tries < self.retries {
                    self.tries = self.tries + 1;
                } else {
                    self.phase = TrainPhase::Over;
                }
            },
            TrainPhase::Mode => {
                if first == Some(KIND_MODE_ACK) {
                    self.phase = TrainPhase::Probe;
                    self.tries = 0;
                } else if self.tries < self.retries {
                    self.tries = self.tries + 1;
                } else {
                    self.drop_mode();
                }
            },
            TrainPhase::Probe => {
                let report: Option<(u8, u8)> = match reply {
                    Some(r) => if r.len() >= 4 && r[0] == KIND_REPORT {
                        Some((r[2], r[3]))
                    } else {
                        None
                    },
                    None => None,
                };
                match report {
                    Some((snr, ok)) => {
                        if ok == 1 && snr >= MIN_HEADROOM_DB {
                            self.chosen = Some(self.id);
                            self.phase = TrainPhase::Done;
                            self.tries = 0;
                        } else {
                            self.drop_mode();
                        }
                    },
                    None => {
                        if self.tries < self.retries {
                            self.tries = self.tries + 1;
                        } else {
                            self.drop_mode();
                        }
                    },
                }
            },
            TrainPhase::Done => {
                if first == Some(KIND_DONE_ACK) {
                    self.phase = TrainPhase::Over;
                } else if self.tries < self.retries {
                    self.tries = self.tries + 1;
                } else {
                    self.phase = TrainPhase::Over;
                }
            },
            TrainPhase::Over => {},
        }
        self.action()
    }
}

/// What the responder asks of its driver, as plain values.
pub enum ResponderActionView {
    Listen,
    Reply { frame: Seq<u8>, mode: nat },
    Finish { frame: Seq<u8>, mode: nat },
    TimedOut,
}

/// What the responder asks of its driver.
pub enum ResponderAction {
    /// Keep listening in the current mode.
    Listen,
    /// Send `frame` in mode `mode`, then listen in the current mode.
    Reply { frame: Vec<u8>, mode: usize },
    /// Send `frame` in mode `mode`; training is over.
    Finish { frame: Vec<u8>, mode: usize },
    /// The peer fell silent.
    TimedOut,
}

impl View for ResponderAction {
    type V = ResponderActionView;

    open spec fn view(&self) -> ResponderActionView {
        match self {
            ResponderAction::Listen => ResponderActionView::Listen,
            ResponderAction::Reply { frame, mode } => ResponderActionView::Reply {
                frame: frame@,
                mode: *mode as nat,
            },
            ResponderAction::Finish { frame, mode } => ResponderActionView::Finish {
                frame: frame@,
                mode: *mode as nat,
            },
            ResponderAction::TimedOut => ResponderActionView::TimedOut,
        }
    }
}

/// The responder's next listening mode and idle count, and its action,
/// after a frame (`None`: nothing in time) measured at `snr` dB with FEC
/// success `fec_ok`. HELLO is answered with HELLO_ACK; MODE (with a mode
/// byte) with MODE_ACK, switching to that mode when it exists; PROBE with a
/// REPORT of the mode, the SNR byte and the FEC flag, switching back to the
/// control mode; DONE with DONE_ACK, ending training; replies go out in the
/// mode listened in. Silence is counted, and more than `retries + 2`
/// silent waits in a row give up.
pub open spec fn responder_step(
    n_modes: nat,
    retries: nat,
    mode: nat,
    idle: nat,
    frame: Option<Seq<u8>>,
    snr: u8,
    fec_ok: bool,
) -> (nat, nat, ResponderActionView) {
    let ctrl = (n_modes - 1) as nat;
    match frame {
        None => (
            mode,
            idle + 1,
            if idle + 1 > retries + 2 {
                ResponderActionView::TimedOut
            } else {
                ResponderActionView::Listen
            },
        ),
        Some(f) => {
            let kind = if f.len() >= 1 {
                f[0]
            } else {
                0u8
            };
            if kind == KIND_HELLO {
                (mode, 0, ResponderActionView::Reply { frame: seq![KIND_HELLO_ACK], mode })
            } else if kind == KIND_MODE && f.len() >= 2 {
                (
                    if (f[1] as nat) < n_modes {
                        f[1] as nat
                    } else {
                        mode
                    },
                    0,
                    ResponderActionView::Reply { frame: seq![KIND_MODE_ACK], mode },
                )
            } else if kind == KIND_PROBE {
                (
                    ctrl,
                    0,
                    ResponderActionView::Reply {
                        frame: seq![
                            KIND_REPORT,
                            mode as u8,
                            snr,
                            if fec_ok {
                                1u8
                            } else {
                                0u8
                            },
                        ],
                        mode,
                    },
                )
            } else if kind == KIND_DONE {
                (mode, 0, ResponderActionView::Finish { frame: seq![KIND_DONE_ACK], mode })
            } else {
                (mode, 0, ResponderActionView::Listen)
            }
        },
    }
}

/// The responding side of link training.
pub struct ResponderState {
    n_modes: usize,
    retries: usize,
    mode: usize,
    idle: usize,
}

impl ResponderState {
    pub closed spec fn spec_n_modes(&self) -> nat {
        self.n_modes as nat
    }

    pub closed spec fn spec_retries(&self) -> nat {
        self.retries as nat
    }

    /// The mode listened in.
    pub closed spec fn spec_mode(&self) -> nat {
        self.mode as nat
    }

    /// Silent waits in a row.
    pub closed spec fn spec_idle(&self) -> nat {
        self.idle as nat
    }

    pub closed spec fn wf(&self) -> bool {
        &&& 1 <= self.n_modes
        &&& self.mode < self.n_modes
    }

    /// A responder listening in the control mode.
    pub fn new(n_modes: usize, retries: usize) -> (r: Self)
        requires
            1 <= n_modes,
        ensures
            r.wf(),
            r.spec_n_modes() == n_modes,
            r.spec_retries() == retries,
            r.spec_mode() == n_modes - 1,
            r.spec_idle() == 0,
    {
        ResponderState { n_modes, retries, mode: n_modes - 1, idle: 0 }
    }

    /// The mode to listen in.
    pub fn mode(&self) -> (m: usize)
        ensures
            m == self.spec_mode(),
    {
        self.mode
    }

    /// Take a received frame (`None`: nothing in time) with its measured
    /// quality, and give the action.
    pub fn on_frame(&mut self, frame: Option<&[u8]>, snr: u8, fec_ok: bool) -> (a: ResponderAction)
        requires
            old(self).wf(),
            old(self).spec_idle() < usize::MAX,
            old(self).spec_retries() + 2 <= usize::MAX,
        ensures
            final(self).wf(),
            final(self).spec_n_modes() == old(self).spec_n_modes(),
            final(self).spec_retries() == old(self).spec_retries(),
            ({
                let st = responder_step(
                    old(self).spec_n_modes(),
                    old(self).spec_retries(),
                    old(self).spec_mode(),
                    old(self).spec_idle(),
                    match frame {
                        Some(f) => Some(f@),
                        None => None,
                    },
                    snr,
                    fec_ok,
                );
                &&& final(self).spec_mode() == st.0
                &&& final(self).spec_idle() == st.1
                &&& a@ == st.2
            }),
    {
        let f = match frame {
            Some(f) => f,
            None => {
                self.idle = self.idle + 1;
                if self.idle > self.retries + 2 {
                    return ResponderAction::TimedOut;
                }
                return ResponderAction::Listen;
            },
        };
        self.idle = 0;
        let kind = if f.len() >= 1 {
            f[0]
        } else {
            0
        };
        let mode = self.mode;
        if kind == KIND_HELLO {
            let r = vec![KIND_HELLO_ACK];
            assert(r@ =~= seq![KIND_HELLO_ACK]);
            ResponderAction::Reply { frame: r, mode }
        } else if kind == KIND_MODE && f.len() >= 2 {
            let id = f[1] as usize;
            if id < self.n_modes {
                self.mode = id;
            }
            let r = vec![KIND_MODE_ACK];
            assert(r@ =~= seq![KIND_MODE_ACK]);
            ResponderAction::Reply { frame: r, mode }
        } else if kind == KIND_PROBE {
            let report = vec![KIND_REPORT, mode as u8, snr, if fec_ok {
                1u8
            } else {
                0u8
            }];
            assert(report@ =~= seq![KIND_REPORT, mode as u8, snr, if fec_ok {
                1u8
            } else {
                0u8
            }]);
            self.mode = self.n_modes - 1;
            ResponderAction::Reply { frame: report, mode }
        } else if kind == KIND_DONE {
            let r = vec![KIND_DONE_ACK];
            assert(r@ =~= seq![KIND_DONE_ACK]);
            ResponderAction::Finish { frame: r, mode }
        } else {
            ResponderAction::Listen
        }
    }
}

} // verus!
