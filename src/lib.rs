//! Approximate string matching: a Jaro-Winkler similarity matcher that reuses
//! its scratch buffers across calls, and a Soundex phonetic encoder.

pub mod jarowinkler;
pub mod soundex;

pub use jarowinkler::{JaroWinkler, Score};
pub use soundex::Soundex;
