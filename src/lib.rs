//! A dictionary storage engine: the on-disk archive format (metadata, index and
//! content), the code that builds archives from plain text, and exact and
//! approximate lookup over a loaded archive. Two further dictionary sources,
//! Logseq pages and a Unicode character list, share the lookup interface.
pub mod bytes;
pub mod text;
pub mod order;
pub mod distance;
pub mod error;
pub mod metadata;
pub mod index;
pub mod content;
pub mod stardict;
pub mod pool;
pub mod builder;
pub mod source;
pub mod pipeline;
pub mod dict;
pub mod logseq;
pub mod unicode;
