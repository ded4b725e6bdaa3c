//! Scoring an over-the-air run: how many bytes of each sent payload frame
//! came back wrong, and how many of those frames Reed-Solomon could repair.
use vstd::prelude::*;

verus! {

/// Positions below `n` at which `a` and `b` differ.
pub open spec fn mismatches(a: Seq<u8>, b: Seq<u8>, n: nat) -> nat
    decreases n,
{
    if n == 0 {
        0
    } else {
        mismatches(a, b, (n - 1) as nat) + if a[n - 1] != b[n - 1] {
            1nat
        } else {
            0nat
        }
    }
}

/// Sent frame `i` against the received frame in the same place after `skip`
/// leading frames: `None` when the received bytes stop before that frame
/// ends, else the number of bytes that differ.
pub open spec fn frame_errors_spec(
    sent: Seq<u8>,
    received: Seq<u8>,
    payload_size: nat,
    skip: nat,
    i: nat,
) -> Option<nat> {
    let tx = i * payload_size;
    let rx = (skip + i) * payload_size;
    if rx + payload_size <= received.len() {
        Some(
            mismatches(
                sent.subrange(tx as int, (tx + payload_size) as int),
                received.subrange(rx as int, (rx + payload_size) as int),
                payload_size,
            ),
        )
    } else {
        None
    }
}

/// Frames scored: the requested count, or fewer when the sent bytes end.
pub open spec fn frames_scored(sent_len: nat, payload_size: nat, n_frames: nat) -> nat {
    if n_frames <= sent_len / payload_size {
        n_frames
    } else {
        sent_len / payload_size
    }
}

/// Frames among the first `k` that came back exactly.
pub open spec fn count_exact(errs: Seq<Option<nat>>, k: nat) -> nat
    decreases k,
{
    if k == 0 {
        0
    } else {
        count_exact(errs, (k - 1) as nat) + if errs[k - 1] == Some(0nat) {
            1nat
        } else {
            0nat
        }
    }
}

/// Frames among the first `k` that came back with at most `budget` wrong
/// bytes.
pub open spec fn count_within(errs: Seq<Option<nat>>, budget: nat, k: nat) -> nat
    decreases k,
{
    if k == 0 {
        0
    } else {
        count_within(errs, budget, (k - 1) as nat) + match errs[k - 1] {
            Some(d) => if d <= budget {
                1nat
            } else {
                0nat
            },
            None => 0nat,
        }
    }
}

/// Wrong bytes over the first `k` frames (a missing frame adds none).
pub open spec fn error_total(errs: Seq<Option<nat>>, k: nat) -> nat
    decreases k,
{
    if k == 0 {
        0
    } else {
        error_total(errs, (k - 1) as nat) + match errs[k - 1] {
            Some(d) => d,
            None => 0nat,
        }
    }
}

/// The score of a run.
pub struct OtaScore {
    /// Per frame: `None` when missing, else its wrong bytes.
    pub frame_errors: Vec<Option<usize>>,
    /// Frames received exactly.
    pub exact: usize,
    /// Frames with at most the Reed-Solomon budget of wrong bytes.
    pub correctable: usize,
    /// Wrong bytes over all frames.
    pub byte_errors: usize,
}

/// The wrong bytes that Reed-Solomon can repair in one frame: half the
/// parity bytes for every started 223-byte block.
pub fn rs_byte_budget(payload_size: usize, rs_nsym: usize) -> (b: usize)
    requires
        (payload_size / 223 + 1) * (rs_nsym / 2) <= usize::MAX,
    ensures
        b == (payload_size / 223 + 1) * (rs_nsym / 2),
{
    (payload_size / 223 + 1) * (rs_nsym / 2)
}

proof fn lemma_mismatches_le(a: Seq<u8>, b: Seq<u8>, n: nat)
    ensures
        mismatches(a, b, n) <= n,
    decreases n,
{
    if n > 0 {
        lemma_mismatches_le(a, b, (n - 1) as nat);
    }
}

// Wrong bytes between two equal-length runs of bytes.
fn count_mismatches(a: &[u8], b: &[u8]) -> (d: usize)
    requires
        a@.len() == b@.len(),
    ensures
        d == mismatches(a@, b@, a@.len()),
{
    let mut d: usize = 0;
    let mut j: usize = 0;
    while j < a.len()
        invariant
            j <= a@.len(),
            a@.len() == b@.len(),
            d == mismatches(a@, b@, j as nat),
        decreases a@.len() - j,
    {
        proof {
            lemma_mismatches_le(a@, b@, j as nat);
        }
        if a[j] != b[j] {
            d = d + 1;
        }
        j = j + 1;
    }
    d
}

/// Score `n_frames` frames of `payload_size` bytes (fewer when `sent` ends
/// first): each sent frame against the received frame `skip` frames later,
/// then the frames received exactly, those within `budget` wrong bytes, and
/// all wrong bytes.
pub fn score_frames(
    sent: &[u8],
    received: &[u8],
    payload_size: usize,
    skip: usize,
    n_frames: usize,
    budget: usize,
) -> (s: OtaScore)
    requires
        payload_size > 0,
        (skip + n_frames + 1) * payload_size <= usize::MAX,
    ensures
        ({
            let m = frames_scored(sent@.len(), payload_size as nat, n_frames as nat);
            let errs = Seq::new(
                m,
                |i: int| frame_errors_spec(sent@, received@, payload_size as nat, skip as nat, i as nat),
            );
            &&& s.frame_errors@.len() == m
            &&& forall|i: int|
                0 <= i < m ==> match #[trigger] s.frame_errors@[i] {
                    Some(d) => errs[i] == Some(d as nat),
                    None => errs[i] is None,
                }
            &&& s.exact == count_exact(errs, m)
            &&& s.correctable == count_within(errs, budget as nat, m)
            &&& s.byte_errors == error_total(errs, m)
        }),
{
    let per = sent.len() / payload_size;
    let m = if n_frames <= per {
        n_frames
    } else {
        per
    };
    proof {
        assert(m * payload_size <= per * payload_size) by (nonlinear_arith)
            requires
                m <= per,
        ;
        assert(per * payload_size <= sent@.len()) by (nonlinear_arith)
            requires
                per == sent@.len() / (payload_size as nat),
                payload_size > 0,
        ;
        assert(skip + n_frames + 1 <= (skip + n_frames + 1) * payload_size) by (nonlinear_arith)
            requires
                payload_size > 0,
        ;
    }
    let ghost errs = Seq::new(
        m as nat,
        |i: int| frame_errors_spec(sent@, received@, payload_size as nat, skip as nat, i as nat),
    );
    let mut frame_errors: Vec<Option<usize>> = Vec::new();
    let mut exact: usize = 0;
    let mut correctable: usize = 0;
    let mut byte_errors: usize = 0;
    let mut i: usize = 0;
    while i < m
        invariant
            m == frames_scored(sent@.len(), payload_size as nat, n_frames as nat),
            m <= n_frames,
            m * payload_size <= sent@.len(),
            payload_size > 0,
            (skip + n_frames + 1) * payload_size <= usize::MAX,
            skip + n_frames + 1 <= usize::MAX,
            i <= m,
            errs == Seq::new(
                m as nat,
                |k: int| frame_errors_spec(sent@, received@, payload_size as nat, skip as nat, k as nat),
            ),
            frame_errors@.len() == i,
            forall|k: int|
                0 <= k < i ==> match #[trigger] frame_errors@[k] {
                    Some(d) => errs[k] == Some(d as nat),
                    None => errs[k] is None,
                },
            exact == count_exact(errs, i as nat),
            correctable == count_within(errs, budget as nat, i as nat),
            byte_errors == error_total(errs, i as nat),
            byte_errors <= i * payload_size,
            exact <= i,
            correctable <= i,
            sent@.len() == sent.len(),
        decreases m - i,
    {
        proof {
            assert((i + 1) * payload_size <= m * payload_size) by (nonlinear_arith)
                requires
                    i < m,
            ;
            assert((skip + i + 1) * payload_size <= (skip + n_frames + 1) * payload_size)
                by (nonlinear_arith)
                requires
                    i < m,
                    m <= n_frames,
            ;
            assert((skip + i + 1) * payload_size == (skip + i) * payload_size + payload_size)
                by (nonlinear_arith);
            assert((i + 1) * payload_size == i * payload_size + payload_size) by (nonlinear_arith);
        }
        let tx = i * payload_size;
        let rx = (skip + i) * payload_size;
        let fe: Option<usize>;
        if rx + payload_size <= received.len() {
            let a = vstd::slice::slice_subrange(sent, tx, tx + payload_size);
            let b = vstd::slice::slice_subrange(received, rx, rx + payload_size);
            let d = count_mismatches(a, b);
            proof {
                lemma_mismatches_le(a@, b@, payload_size as nat);
            }
            fe = Some(d);
            byte_errors = byte_errors + d;
            if d == 0 {
                exact = exact + 1;
            }
            if d <= budget {
                correctable = correctable + 1;
            }
        } else {
            fe = None;
        }
        frame_errors.push(fe);
        i = i + 1;
    }
    OtaScore { frame_errors, exact, correctable, byte_errors }
}

} // verus!
