//! Byte-level building blocks of a search index's key-value storage: a codec for
//! composite `(primary, secondary, discriminant)` keys and a sorted set of
//! document identifiers with its builder.
pub mod doc_ids;
pub mod key_codec;
