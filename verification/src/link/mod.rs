pub mod crc;
pub mod fec;
pub mod frame;

pub mod scrambler;
pub mod gf256;
