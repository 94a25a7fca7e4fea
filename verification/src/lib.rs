//! A blob store that persists byte streams across a bounded set of
//! fixed-size backing files ("tracks"). Each blob is stored as a
//! singly-linked chain of fixed-size chunks threaded through one or
//! more tracks; deleted chains are spliced onto a per-track free-list
//! that later allocations reuse before the file grows.
//!
//! The library works on the byte contents of the track files: a
//! [`track::Track`] holds the bytes of one file, and [`disk::Disk`]
//! owns the set of tracks. Opening, reading and rewriting the real
//! files is left to the caller, who hands the bytes in at
//! [`disk::Disk::init`] and persists them after [`track::Track::write_end`].
use vstd::prelude::*;

pub mod bytes_be;
pub mod chunk;
pub mod disk;
pub mod track;

verus! {

/// Length in bytes of the header at the start of every track file:
/// `free_head` (8 bytes, big-endian) then `free_tail` (8 bytes, big-endian).
pub const HEADER_LEN: u64 = 16;

/// Length in bytes of the fixed header inside every chunk record:
/// `next_offset` (8 bytes), `payload_size` (2 bytes), `next_track`
/// (2 bytes), and a 1-byte valid flag, all big-endian.
pub const CHUNK_HEADER_LEN: u64 = 13;

/// Configuration of a store: the size of one chunk record and the
/// logical size at which a track file is full.
#[derive(Clone, Copy, Debug)]
pub struct KernelOptions {
    /// Bytes per chunk record; must exceed [`CHUNK_HEADER_LEN`].
    pub chunk_size: u64,
    /// Maximum logical bytes per track file before the writer rolls
    /// over to the next track.
    pub track_size: u64,
}

impl KernelOptions {
    /// The configuration constraints every operation relies on:
    /// a chunk holds at least one payload byte, the payload length
    /// fits the 2-byte size field, and a track holds its header and
    /// at least one chunk.
    pub open spec fn wf(self) -> bool {
        &&& self.chunk_size > CHUNK_HEADER_LEN
        &&& self.chunk_size <= 0xffff + CHUNK_HEADER_LEN
        &&& self.track_size >= HEADER_LEN + self.chunk_size
    }

    /// Largest payload one chunk can carry.
    pub open spec fn spec_max_payload(self) -> u64
        recommends
            self.wf(),
    {
        (self.chunk_size - CHUNK_HEADER_LEN) as u64
    }

    /// A configuration, or `None` when the sizes cannot work.
    pub fn new(chunk_size: u64, track_size: u64) -> (r: Option<KernelOptions>)
        ensures
            match r {
                Some(o) => o.wf() && o.chunk_size == chunk_size && o.track_size == track_size,
                None => !(KernelOptions { chunk_size, track_size }).wf(),
            },
    {
        if chunk_size > CHUNK_HEADER_LEN && chunk_size <= 0xffff + CHUNK_HEADER_LEN
            && track_size >= HEADER_LEN + chunk_size {
            Some(KernelOptions { chunk_size, track_size })
        } else {
            None
        }
    }

    /// Largest payload one chunk can carry.
    pub fn max_payload(&self) -> (r: u64)
        requires
            self.wf(),
        ensures
            r == self.spec_max_payload(),
    {
        self.chunk_size - CHUNK_HEADER_LEN
    }
}

/// What can go wrong inside the store. I/O failures belong to the
/// caller, who owns the files; they never reach this library.
#[derive(Clone, Copy, Debug, PartialEq, Eq, Structural)]
pub enum Error {
    /// On-disk bytes failed to decode: a record is truncated or its
    /// payload size exceeds the maximum.
    Format,
    /// The free-list header refers outside the file, a link is not a
    /// chunk slot, or following links revisits a slot.
    Invariant,
    /// Every addressable track is full: track ids are 16-bit.
    Capacity,
    /// A write was asked to store an empty blob; no chunk ever holds
    /// an empty payload, so no handle could be returned for one.
    Empty,
}

} // verus!
