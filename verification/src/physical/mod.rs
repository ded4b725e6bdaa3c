pub mod fsk;
pub mod fsk_bank;
pub mod dtmf;
pub mod dpsk;
pub mod ofdm;
pub mod ota;
