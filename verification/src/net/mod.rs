pub mod fragment;
pub mod link;
pub mod mac;
pub mod xfer;
pub mod tap;
pub mod phy;
pub mod train;
