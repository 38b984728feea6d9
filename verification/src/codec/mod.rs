//! The payload encodings.
//!
//! [`raw`] packs token ids at a fixed width with no table. [`freq`] remaps them to frequency
//! ranks and packs those with streamvbyte. [`ans`] entropy-codes them against a static unigram
//! model. All are lossless: the ids come back exactly.

pub mod ans;
pub mod freq;
pub mod raw;
pub mod streamvbyte;
