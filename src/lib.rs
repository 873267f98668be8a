//! An inverted index with positional postings, and boolean queries over it.
//!
//! Postings are compressed into fixed-size blocks (`compressor`, `vbyte`),
//! which listings (`listing`) ship onto pages of a RAM page cache
//! (`page_cache`). A posting decoder (`posting_decoder`) reads a committed
//! listing back, forward or by seeking a doc id, and the index (`index`)
//! answers AND, OR, positional and NOT queries (`query`, `doc_set`).

pub mod compressor;
pub mod doc_set;
pub mod index;
pub mod listing;
pub mod page;
pub mod page_cache;
pub mod persistence;
pub mod posting;
pub mod posting_decoder;
pub mod query;
pub mod ring_buffer;
pub mod vbyte;
pub mod vocabulary;
