//! Hides a short text message in the least significant bits of the colour
//! channels of an RGBA pixel buffer, and recovers it again.

pub mod bits;
pub mod codec;
pub mod laws;
pub mod layout;

pub use bits::{get_bit, set_bit};
pub use layout::{capacity_bits, ChannelCursor, HEADER_BITS, MIN_HEADER_BYTES};
pub use codec::{embed, extract, StegoError};
