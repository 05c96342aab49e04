//! What the filesystem tells of one entry, and the sizes read from it.

use vstd::prelude::*;
use crate::node::{clamped, FileId, FileTime};

verus! {

/// The number of bytes in one of the blocks that the filesystem counts.
pub const BLOCK_BYTES: u64 = 512;

/// The metadata of one entry.
#[derive(Clone, Copy, Debug, PartialEq, Eq, Structural)]
pub struct Metadata {
    /// The length of the content in bytes.
    pub len: u64,
    /// The number of blocks allocated to the entry.
    pub blocks: u64,
    /// The filesystem that holds the entry.
    pub device: u64,
    /// The number of the entry on its filesystem.
    pub inode: u64,
    /// When the content was last changed, in seconds since the epoch.
    pub modified: i64,
    /// When the entry was last read.
    pub accessed: i64,
    /// When the metadata was last changed.
    pub changed: i64,
}

/// The bytes of content of the entry.
pub open spec fn apparent_bytes(meta: Metadata) -> nat {
    meta.len as nat
}

/// The bytes allocated to the entry: whole blocks, held at the largest size.
pub open spec fn disk_bytes(meta: Metadata) -> nat {
    clamped((meta.blocks * BLOCK_BYTES) as nat)
}

/// The chosen time of the entry.
pub open spec fn time_of(meta: Metadata, which: FileTime) -> int {
    match which {
        FileTime::Modified => meta.modified as int,
        FileTime::Accessed => meta.accessed as int,
        FileTime::Changed => meta.changed as int,
    }
}

/// The chosen time of the entry as a size: the seconds since the epoch, 0
/// for a time before it.
pub open spec fn time_as_size(meta: Metadata, which: FileTime) -> nat {
    if time_of(meta, which) < 0 {
        0
    } else {
        time_of(meta, which) as nat
    }
}

/// The identity of the entry.
pub open spec fn identity(meta: Metadata) -> FileId {
    FileId { device: meta.device, inode: meta.inode }
}

/// The bytes of content of the entry.
pub fn get_apparent_size(meta: &Metadata) -> (size: u64)
    ensures
        size == apparent_bytes(*meta),
{
    meta.len
}

/// The bytes allocated to the entry.
pub fn get_disk_size(meta: &Metadata) -> (size: u64)
    ensures
        size == disk_bytes(*meta),
{
    match meta.blocks.checked_mul(BLOCK_BYTES) {
        Some(bytes) => bytes,
        None => u64::MAX,
    }
}

/// The filesystem that holds the entry.
pub fn get_filesystem_id(meta: &Metadata) -> (device: u64)
    ensures
        device == meta.device,
{
    meta.device
}

/// The chosen time of the entry.
pub fn get_time(meta: &Metadata, which: FileTime) -> (time: i64)
    ensures
        time == time_of(*meta, which),
{
    match which {
        FileTime::Modified => meta.modified,
        FileTime::Accessed => meta.accessed,
        FileTime::Changed => meta.changed,
    }
}

/// The chosen time of the entry as a size.
pub fn get_time_size(meta: &Metadata, which: FileTime) -> (size: u64)
    ensures
        size == time_as_size(*meta, which),
{
    let time: i64 = get_time(meta, which);
    if time < 0 {
        0
    } else {
        time as u64
    }
}

/// The identity of the entry.
pub fn get_identity(meta: &Metadata) -> (id: FileId)
    ensures
        id == identity(*meta),
{
    FileId { device: meta.device, inode: meta.inode }
}

} // verus!
