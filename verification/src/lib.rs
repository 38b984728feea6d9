//! Compress sequences of token ids, and store them in PostgreSQL.
//!
//! Text is stored as the token ids a model already works in, rather than UTF-8, which is both
//! smaller and means a reader never has to tokenize again.
//!
//! Values have no tokenizer: they take ids and give back ids, and turning text into ids is the
//! caller's job. No part of the compression path needs a vocabulary size; see
//! [`tables::RankTable`] for how that is avoided.
//!
//! The format: [`header`] is the self-describing value envelope, [`codec`] the payload encodings,
//! [`tables`] the two vocabulary artefacts, [`detok`] turns ids back into text, and [`value`] is
//! what most callers want. [`tokenizer`] gives access to a few well-known vocabularies.
//!
//! The type: [`vocabulary`] and [`typmod`] are what a column declares, [`tokens`] and [`casts`]
//! what is read and written under it, [`mapping`] and [`training`] how artefacts come about,
//! [`registry`] where they are kept, and [`blob`] values without a type.

pub mod blob;
pub mod bytes;
pub mod casts;
pub mod codec;
pub mod detok;
pub mod header;
pub mod mapping;
pub mod registry;
pub mod tables;
pub mod text;
pub mod tokenizer;
pub mod tokens;
pub mod training;
pub mod typmod;
pub mod utf8;
pub mod value;
pub mod vocabulary;

pub use detok::{to_text, DetokError};
pub use header::{Codec, Header, HeaderError, HEADER_LEN, MAGIC, VERSION};
pub use tables::{ByteMap, RankTable, TableError, KIND_MAP};
pub use value::{decode, describe, encode, recode, ValueError};
