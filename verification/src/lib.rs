//! A framing codec for unreliable, non-blocking byte streams.
//!
//! Messages are wrapped in frames of the form
//! `MAGIC | LENGTH | LENGTH_CHECKSUM | PAYLOAD | PAYLOAD_CHECKSUM`,
//! where both checksums are truncated SHA-256 digests.  The decoder is a
//! resumable state machine that accepts bytes as they arrive, validates the
//! checksums, and resynchronizes on the magic byte after corruption.

pub mod dencoder;
pub mod frame;
pub mod laws;
pub mod machine;
pub mod transport;
pub mod utils;
