//! Streaming xxHash checksums over byte sources.
//!
//! A [`reader::ChunkedReader`] turns a source that answers reads of any length
//! into chunks as large as its fixed buffer; a [`hasher::Hasher`] feeds those
//! chunks to one of the four xxHash variants and is reset between sources.

pub mod source;
pub mod reader;
pub mod hasher;
pub mod driver;
pub mod uuid;
