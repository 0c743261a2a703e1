//! Sorted string tables: append-only, CBOR-encoded key/value data with a
//! sidecar index, together with lookup and k-way merge over such tables.
//!
//! Everything here works on bytes held in memory. Opening files, reading
//! them and writing the produced bytes back is left to the caller.

pub mod canonical;
pub mod cbor;
pub mod cbor_types;
pub mod error;
pub mod files;
pub mod get;
pub mod heap;
pub mod info;
pub mod listing;
pub mod merge;
pub mod natural;
pub mod order;
pub mod outputs;
pub mod read;
pub mod round_trip;
pub mod sstable_reader;
pub mod sstable_writer;
pub mod text;
pub mod traits;
pub mod util;
