//! Finds directories whose contents are duplicated elsewhere in a tree and
//! reports only the largest duplicated directories.
//!
//! A file is fingerprinted from its name and its size, a directory from the
//! fingerprints of its entries. Directories that share a fingerprint are
//! gathered in buckets, and the buckets are reduced to the maximal groups.

pub mod bytesize;
pub mod fingerprint;
pub mod record;
pub mod inode;
pub mod index;
pub mod reduce;
pub mod tree;

pub use bytesize::{parse_byte_size, validate_byte_size, ByteSizeError};
pub use fingerprint::{blake2b_digest, file_preimage, hash_file_metadata, FileHash};
pub use index::{assemble, check_totals, crawl_directory, Bucket, FileEntry, FingerprintIndex, Summary};
pub use inode::{check_inode, select_entries, EntryKind, Identity, InodeGuard, Selection};
pub use record::DirectoryData;
pub use reduce::{list_duplicates, wasted_space};
