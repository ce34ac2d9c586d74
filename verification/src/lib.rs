//! Least-significant-bit steganography over an abstract pixel surface.
//!
//! A payload is framed as `{{<decimal length>}}` followed by its raw bytes,
//! and each bit is stored in the least-significant bit of one channel byte,
//! at coordinates drawn in a deterministic, seed-derived, collision-free
//! order.  Decoding with the same seed replays the identical coordinate
//! sequence and recovers the records.

pub mod bits;
pub mod decoder;
pub mod encoder;
pub mod errors;
pub mod generator;
pub mod laws;
pub mod plane;
pub mod rng;
pub mod surface;

pub use decoder::ImageDecoder;
pub use encoder::ImageEncoder;
pub use errors::StegoError;
pub use generator::PixelGenerator;
pub use surface::Carrier;
