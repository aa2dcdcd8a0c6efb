//! Building blocks of the codec: the bit model, bit copies and varints.

pub mod bits;
pub mod bitcopy;
pub mod varint;
