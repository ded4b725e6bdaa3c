//! Speed-of-sound modem: the byte-level link layer (CRC-32, Reed-Solomon
//! framing, scrambling, GF(256) arithmetic), the integer side of the OFDM,
//! FSK, DPSK and DTMF physical layers, and the Ethernet-over-sound MAC,
//! fragmentation, DTMF handshake framing, link training and stop-and-wait
//! transfer logic.
pub mod bits;
pub mod config;
pub mod link;
pub mod physical;
pub mod net;

pub use bits::{bits_to_bytes, bytes_to_bits};
pub use config::Config;
