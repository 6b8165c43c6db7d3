//! Bubble Babble binary data encoding.
//!
//! Converts arbitrary bytes into a pronounceable, human-transcribable string,
//! as used for SSH public key fingerprints. Two variants are offered: the
//! standard checksummed form and a "stable" form whose syllables depend only
//! on their own input bytes and which run-length compresses repetitions.

pub mod encoder;
pub mod laws;
pub mod raw;
pub mod stable;
pub mod tables;

pub use encoder::{bubblebabble, stablebabble};
