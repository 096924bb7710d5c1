//! Landmark-based audio fingerprinting: spectrogram framing, banded peak
//! picking, combinatorial pair hashing, an inverted fingerprint index, and
//! an offset-histogram matcher.
//!
//! Spectral magnitudes are carried as the bit patterns of non-negative
//! IEEE-754 single-precision numbers, stored in `u32`. For non-negative
//! values that encoding is monotone: the integer order of the bit patterns
//! is exactly the numeric order of the magnitudes, so every comparison the
//! pipeline makes is performed on plain integers.

pub mod fingerprint;
pub mod matcher;
pub mod media;
pub mod storage;
pub mod types;
