//! Decoder for the configuration bitstreams of a family of antifuse FPGAs.
//!
//! A stream names its device by a JTAG identifier, declares its data mode in
//! one byte, and then carries one fixed-width row after another, each closed by
//! an error-check byte. The library identifies the device, validates the
//! framing and every row's check byte, and lists the configuration bits that
//! are set.

pub mod bitstream;
pub mod device;
pub mod ecb;

pub use bitstream::{BitCoordinate, Bitstream, BitstreamError, ModeFlag};
pub use device::Device;
pub use ecb::ecb_calc;
