//! On-disk structures of an extendable-hashing key/value database: the
//! hash bucket, its elements, the hash directory, and an in-memory cache of
//! decoded buckets with dirty tracking.

pub mod avail;
pub mod bucket;
pub mod dir;
pub mod ser;

use vstd::prelude::*;

use crate::ser::{Alignment, Endian};

verus! {

/// Number of key bytes stored inline in each bucket element.
pub const KEY_SMALL: usize = 4;

/// Number of avail (free space) elements embedded in every bucket.
pub const BUCKET_AVAIL: u32 = 6;

/// Width, in bits, of the hash values stored in bucket elements.
pub const GDBM_HASH_BITS: u32 = 31;

/// The format parameters of a database file that the structures here need.
#[derive(Debug, Clone, Copy)]
pub struct Header {
    /// Width of every offset field.
    pub alignment: Alignment,
    /// Byte order of every integer field.
    pub endian: Endian,
    /// Number of element slots in each bucket.
    pub bucket_elems: u32,
    /// Number of hash bits that index the directory.
    pub dir_bits: u32,
    /// Where the directory starts in the file.
    pub dir_ofs: u64,
    /// Length of the directory in bytes.
    pub dir_sz: u32,
}

impl Header {
    /// Wide-offset (8-byte) mode.
    pub open spec fn lfs(&self) -> bool {
        self.alignment == Alignment::Align64
    }

    /// Little-endian byte order.
    pub open spec fn le(&self) -> bool {
        self.endian == Endian::Little
    }

    /// Whether offsets are 8 bytes wide.
    pub fn is_lfs(&self) -> (r: bool)
        ensures
            r == self.lfs(),
    {
        self.alignment == Alignment::Align64
    }

    /// Whether integers are little-endian.
    pub fn is_le(&self) -> (r: bool)
        ensures
            r == self.le(),
    {
        self.endian == Endian::Little
    }
}

} // verus!
