pub mod bits;
pub mod chunk;
pub mod common;
pub mod dqt;
pub mod encoder_base;
pub mod encoder_cbr;
pub mod encoder_vbr;
pub mod file;
pub mod layout;
pub mod lms;
pub mod short_chunk;
pub mod size;
pub mod vbr_budget;
