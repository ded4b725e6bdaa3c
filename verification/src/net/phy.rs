//! Buffer statistics reported by the audio physical layer.
use vstd::prelude::*;

verus! {

/// How many samples wait in each direction, and how many received samples
/// await demodulation.
pub struct PhyStats {
    pub rx_buffered: usize,
    pub tx_buffered: usize,
    pub rx_batch_pending: usize,
}

impl Default for PhyStats {
    fn default() -> (s: Self)
        ensures
            s.rx_buffered == 0 && s.tx_buffered == 0 && s.rx_batch_pending == 0,
    {
        PhyStats { rx_buffered: 0, tx_buffered: 0, rx_batch_pending: 0 }
    }
}

} // verus!
