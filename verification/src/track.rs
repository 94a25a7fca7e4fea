//! One track: the header and chunk slots of one backing file.
//!
//! A track file is `HEADER_LEN` header bytes — `free_head` then
//! `free_tail`, each a big-endian `u64`, 0 meaning "no free chunk" —
//! followed by an array of `chunk_size`-byte chunk slots. Free slots
//! form a singly-linked list threaded through their `next_offset`
//! fields, rooted at `free_head` and ending at `free_tail`. Byte 12
//! of a slot is its chunk's valid flag (see the record layout in
//! [`crate::chunk`]); deletion clears it, so the specifications
//! below speak of the byte at `offset + 12`.
//!
//! The struct holds the file's bytes; the caller owns the real file
//! and persists the bytes after [`Track::write_end`].
use vstd::prelude::*;

use crate::bytes_be::{
    copy_range, read_u64_be, set_byte, splice, u16_of_be, u64_be, u64_of_be, write_bytes_at, write_u64_be_at,
    zeros, extend_zeros, lemma_u64_be_round_trip, read_u16_be,
};
use crate::chunk::{chunk_wf, decode_spec, encode_spec, Chunk, ChunkView, Codec};
use crate::{Error, KernelOptions, CHUNK_HEADER_LEN, HEADER_LEN};

verus! {

/// True when `off` is the byte offset of a chunk slot of a file of
/// `len` bytes: past the header, aligned to the slot grid, and wholly
/// inside the file.
pub open spec fn slot_in(off: u64, len: int, cs: u64) -> bool {
    &&& HEADER_LEN <= off
    &&& off + cs <= len
    &&& (off - HEADER_LEN) % (cs as int) == 0
}

/// True when `len` is a legal track file length: the header plus a
/// whole number of chunk slots.
pub open spec fn file_len_ok(len: int, cs: u64) -> bool {
    &&& len >= HEADER_LEN
    &&& (len - HEADER_LEN) % (cs as int) == 0
}

/// The `free_head` field stored in a track file's header.
pub open spec fn stored_free_head(f: Seq<u8>) -> u64 {
    u64_of_be(f.subrange(0, 8))
}

/// The `free_tail` field stored in a track file's header.
pub open spec fn stored_free_tail(f: Seq<u8>) -> u64 {
    u64_of_be(f.subrange(8, 16))
}

/// True when the stored header is consistent: both fields zero, or
/// both naming chunk slots of the file.
pub open spec fn header_ok(f: Seq<u8>, cs: u64) -> bool {
    let fh = stored_free_head(f);
    let ft = stored_free_tail(f);
    ||| (fh == 0 && ft == 0)
    ||| (fh != 0 && ft != 0 && slot_in(fh, f.len() as int, cs) && slot_in(ft, f.len() as int, cs))
}

/// True when a file's bytes can open as a track: a brand-new empty
/// file, or a legal length with a consistent header.
pub open spec fn file_ok(f: Seq<u8>, cs: u64) -> bool {
    ||| f.len() == 0
    ||| (file_len_ok(f.len() as int, cs) && header_ok(f, cs))
}

/// The file bytes after opening: an empty file becomes a zero header.
pub open spec fn init_file(f: Seq<u8>) -> Seq<u8> {
    if f.len() == 0 {
        zeros(HEADER_LEN as int)
    } else {
        f
    }
}

/// The in-memory `free_start` after opening the file `f`.
pub open spec fn init_free_head(f: Seq<u8>) -> u64 {
    if f.len() == 0 {
        0u64
    } else {
        stored_free_head(f)
    }
}

/// The in-memory `free_end` after opening the file `f`.
pub open spec fn init_free_tail(f: Seq<u8>) -> u64 {
    if f.len() == 0 {
        0u64
    } else {
        stored_free_tail(f)
    }
}

/// The file bytes [`Track::write_end`] leaves behind: the in-memory
/// free-list bounds written over the stored header.
pub open spec fn write_end_file(t: Track) -> Seq<u8> {
    splice(splice(t.file@, 0, u64_be(t.free_start)), 8, u64_be(t.free_end))
}

/// One track. `file` holds the bytes of the backing file; `size` its
/// logical length; `free_start` and `free_end` bound the free-list,
/// 0 meaning "no free chunks".
pub struct Track {
    pub options: KernelOptions,
    pub free_start: u64,
    pub free_end: u64,
    pub chunk: Codec,
    pub size: u64,
    pub file: Vec<u8>,
    pub id: u16,
}

impl Track {
    /// The track invariant every operation preserves: the logical
    /// size is the file length and covers the header plus whole
    /// slots, and the free-list bounds are zero together or both
    /// name slots.
    pub open spec fn wf(self) -> bool {
        &&& self.geo_wf()
        &&& (self.free_start == 0 <==> self.free_end == 0)
        &&& (self.free_start != 0 ==> self.spec_is_slot(self.free_start))
        &&& (self.free_end != 0 ==> self.spec_is_slot(self.free_end))
    }

    /// The geometric half of the invariant: the configuration is
    /// legal and the logical size is the file length and covers the
    /// header plus whole slots. It says nothing of the free-list
    /// bounds, which are only consistent between operations.
    pub open spec fn geo_wf(self) -> bool {
        &&& self.options.wf()
        &&& self.chunk.options == self.options
        &&& self.id >= 1
        &&& self.size == self.file@.len()
        &&& file_len_ok(self.size as int, self.options.chunk_size)
    }

    /// True when `off` names a chunk slot of this track.
    pub open spec fn spec_is_slot(self, off: u64) -> bool {
        slot_in(off, self.size as int, self.options.chunk_size)
    }

    /// How many chunk slots the track holds.
    pub open spec fn spec_slot_count(self) -> int {
        (self.size - HEADER_LEN) / (self.options.chunk_size as int)
    }

    /// The stored bytes of the slot at `off`.
    pub open spec fn slot_bytes(self, off: u64) -> Seq<u8> {
        self.file@.subrange(off as int, off + self.options.chunk_size)
    }

    /// The chunk stored at `off`, if its record decodes.
    pub open spec fn chunk_at(self, off: u64) -> Option<ChunkView> {
        decode_spec(self.slot_bytes(off), self.options)
    }

    /// A track over the given file bytes, not yet opened: `init`
    /// reads (or creates) the header and establishes `wf`.
    pub fn new(id: u16, options: KernelOptions, file: Vec<u8>) -> (r: Track)
        requires
            options.wf(),
            id >= 1,
        ensures
            r.id == id,
            r.options == options,
            r.chunk.options == options,
            r.file == file,
            r.free_start == 0,
            r.free_end == 0,
            r.size == 0,
    {
        Track {
            options,
            free_start: 0,
            free_end: 0,
            chunk: Codec::new(options),
            size: 0,
            file,
            id,
        }
    }

    /// True when `off` names a chunk slot of this track.
    pub fn is_slot(&self, off: u64) -> (r: bool)
        requires
            self.options.wf(),
        ensures
            r == self.spec_is_slot(off),
    {
        let cs = self.options.chunk_size;
        off >= HEADER_LEN && cs <= self.size && off <= self.size - cs && (off - HEADER_LEN) % cs
            == 0
    }

    /// Opens the track: an empty file gets a fresh zero header; any
    /// other file must have a legal length (else [`Error::Format`])
    /// and a consistent header (else [`Error::Invariant`]), which is
    /// read into `free_start` and `free_end`.
    pub fn init(&mut self) -> (r: Result<(), Error>)
        requires
            old(self).options.wf(),
            old(self).chunk.options == old(self).options,
            old(self).id >= 1,
        ensures
            final(self).id == old(self).id,
            final(self).options == old(self).options,
            final(self).chunk == old(self).chunk,
            match r {
                Ok(()) => final(self).wf() && file_ok(old(self).file@, old(self).options.chunk_size)
                    && final(self).file@ == init_file(old(self).file@)
                    && final(self).size == init_file(old(self).file@).len()
                    && final(self).free_start == init_free_head(old(self).file@)
                    && final(self).free_end == init_free_tail(old(self).file@),
                Err(e) => !file_ok(old(self).file@, old(self).options.chunk_size)
                    && final(self).file@ == old(self).file@
                    && final(self).size == old(self).size
                    && final(self).free_start == old(self).free_start
                    && final(self).free_end == old(self).free_end
                    && ((e == Error::Format && !file_len_ok(
                    old(self).file@.len() as int,
                    old(self).options.chunk_size,
                )) || (e == Error::Invariant && file_len_ok(
                    old(self).file@.len() as int,
                    old(self).options.chunk_size,
                ) && !header_ok(old(self).file@, old(self).options.chunk_size))),
            },
    {
        let len: usize = self.file.len();
        let cs = self.options.chunk_size;
        if len == 0 {
            extend_zeros(&mut self.file, HEADER_LEN as usize);
            self.size = HEADER_LEN;
            self.free_start = 0;
            self.free_end = 0;
            assert(self.file@ =~= zeros(HEADER_LEN as int));
            proof {
                vstd::arithmetic::div_mod::lemma_small_mod(0nat, cs as nat);
            }
            return Ok(());
        }
        if (len as u64) < HEADER_LEN || ((len as u64) - HEADER_LEN) % cs != 0 {
            return Err(Error::Format);
        }
        let fh = read_u64_be(&self.file, 0);
        let ft = read_u64_be(&self.file, 8);
        let consistent = (fh == 0 && ft == 0) || (fh != 0 && ft != 0 && is_slot_at(
            fh,
            len as u64,
            cs,
        ) && is_slot_at(ft, len as u64, cs));
        if !consistent {
            return Err(Error::Invariant);
        }
        self.size = len as u64;
        self.free_start = fh;
        self.free_end = ft;
        Ok(())
    }

    /// Reads and decodes the chunk stored at `offset`. Fails with
    /// [`Error::Invariant`] when `offset` names no slot of this
    /// track, with [`Error::Format`] when the record does not decode.
    pub fn read(&self, offset: u64) -> (r: Result<Chunk, Error>)
        requires
            self.wf(),
        ensures
            match r {
                Ok(c) => self.spec_is_slot(offset) && self.chunk_at(offset) == Some(c@),
                Err(e) => (e == Error::Invariant && !self.spec_is_slot(offset)) || (e
                    == Error::Format && self.spec_is_slot(offset) && self.chunk_at(offset)
                    is None),
            },
    {
        if !self.is_slot(offset) {
            return Err(Error::Invariant);
        }
        let cs = self.options.chunk_size;
        let flen: usize = self.file.len();
        assert(offset + cs <= flen);
        let buf = copy_range(&self.file, offset as usize, offset as usize + cs as usize);
        self.chunk.decoder(&buf)
    }

    /// Allocates the offset the next chunk will be written at. With
    /// no free chunk the file is extended by one zeroed slot at the
    /// tail; otherwise the head of the free-list is popped and its
    /// `next_offset` (checked to name a slot, else
    /// [`Error::Invariant`] and nothing changes) becomes the new
    /// head. The caller must follow up with [`Track::write`] at the
    /// returned offset.
    pub fn allocate(&mut self) -> (r: Result<u64, Error>)
        requires
            old(self).wf(),
            old(self).free_start == 0 ==> old(self).size + old(self).options.chunk_size
                <= u64::MAX,
        ensures
            final(self).id == old(self).id,
            final(self).options == old(self).options,
            final(self).chunk == old(self).chunk,
            final(self).size >= old(self).size,
            match r {
                Ok(off) => final(self).wf() && if old(self).free_start == 0 {
                    &&& off == old(self).size
                    &&& final(self).size == old(self).size + old(self).options.chunk_size
                    &&& final(self).file@ == old(self).file@ + zeros(
                        old(self).options.chunk_size as int,
                    )
                    &&& final(self).free_start == 0
                    &&& final(self).free_end == 0
                } else {
                    &&& off == old(self).free_start
                    &&& final(self).size == old(self).size
                    &&& final(self).file@ == old(self).file@
                    &&& {
                        let nxt = u64_of_be(old(self).file@.subrange(off as int, off as int + 8));
                        if nxt == 0 {
                            final(self).free_start == 0 && final(self).free_end == 0
                        } else {
                            final(self).free_start == nxt && final(self).free_end == old(self).free_end
                        }
                    }
                },
                Err(e) => {
                    &&& e == Error::Invariant
                    &&& final(self).file@ == old(self).file@
                    &&& final(self).size == old(self).size
                    &&& final(self).free_start == old(self).free_start
                    &&& final(self).free_end == old(self).free_end
                    &&& old(self).free_start != 0
                    &&& {
                        let nxt = u64_of_be(
                            old(self).file@.subrange(
                                old(self).free_start as int,
                                old(self).free_start as int + 8,
                            ),
                        );
                        nxt != 0 && !old(self).spec_is_slot(nxt)
                    }
                },
            },
    {
        let cs = self.options.chunk_size;
        if self.free_start == 0 {
            let index = self.size;
            extend_zeros(&mut self.file, cs as usize);
            self.size = self.size + cs;
            proof {
                vstd::arithmetic::div_mod::lemma_mod_add_multiples_vanish(
                    old(self).size - HEADER_LEN,
                    cs as int,
                );
            }
            return Ok(index);
        }
        // Read the free chunk's link lazily: only its next_offset field.
        let flen: usize = self.file.len();
        assert(self.free_start + 8 <= flen);
        let next = read_u64_be(&self.file, self.free_start as usize);
        if next == 0 {
            let index = self.free_start;
            self.free_start = 0;
            self.free_end = 0;
            Ok(index)
        } else {
            if !self.is_slot(next) {
                return Err(Error::Invariant);
            }
            let index = self.free_start;
            self.free_start = next;
            Ok(index)
        }
    }

    /// Encodes `chunk` and stores it over the slot at `index`; fails
    /// with [`Error::Invariant`], changing nothing, when `index`
    /// names no slot.
    pub fn write(&mut self, chunk: &Chunk, index: u64) -> (r: Result<(), Error>)
        requires
            old(self).wf(),
            chunk_wf(chunk@, old(self).options),
        ensures
            final(self).wf(),
            final(self).id == old(self).id,
            final(self).options == old(self).options,
            final(self).chunk == old(self).chunk,
            final(self).size == old(self).size,
            final(self).free_start == old(self).free_start,
            final(self).free_end == old(self).free_end,
            match r {
                Ok(()) => old(self).spec_is_slot(index) && final(self).file@ == splice(
                    old(self).file@,
                    index as int,
                    encode_spec(chunk@, old(self).options),
                ),
                Err(e) => e == Error::Invariant && !old(self).spec_is_slot(index) && final(self).file@ == old(self).file@,
            },
    {
        if !self.is_slot(index) {
            return Err(Error::Invariant);
        }
        let packet = self.chunk.encoder(chunk);
        let flen: usize = self.file.len();
        assert(index + packet@.len() <= flen);
        write_bytes_at(&mut self.file, index as usize, &packet);
        Ok(())
    }

    /// Persists the in-memory `free_start` and `free_end` into the
    /// header bytes of the file. Necessary before the file's bytes
    /// are stored and the track is dropped.
    pub fn write_end(&mut self)
        requires
            old(self).wf(),
        ensures
            final(self).wf(),
            final(self).id == old(self).id,
            final(self).options == old(self).options,
            final(self).chunk == old(self).chunk,
            final(self).size == old(self).size,
            final(self).free_start == old(self).free_start,
            final(self).free_end == old(self).free_end,
            final(self).file@ == write_end_file(*old(self)),
    {
        write_u64_be_at(&mut self.file, 0, self.free_start);
        write_u64_be_at(&mut self.file, 8, self.free_end);
    }
}

/// Two distinct slots occupy disjoint byte ranges: slot offsets sit
/// on a grid with `cs` bytes between neighbours.
proof fn lemma_slots_disjoint(a: u64, b: u64, len: int, cs: u64)
    requires
        cs > 0,
        slot_in(a, len, cs),
        slot_in(b, len, cs),
        a != b,
    ensures
        a + cs <= b || b + cs <= a,
{
    let csi = cs as int;
    let da = a as int - HEADER_LEN;
    let db = b as int - HEADER_LEN;
    vstd::arithmetic::div_mod::lemma_fundamental_div_mod(da, csi);
    vstd::arithmetic::div_mod::lemma_fundamental_div_mod(db, csi);
    let qa = da / csi;
    let qb = db / csi;
    assert(da == csi * qa);
    assert(db == csi * qb);
    if qa < qb {
        assert(csi * qa + csi <= csi * qb) by (nonlinear_arith)
            requires
                qa < qb,
                csi > 0,
        ;
    } else if qb < qa {
        assert(csi * qb + csi <= csi * qa) by (nonlinear_arith)
            requires
                qb < qa,
                csi > 0,
        ;
    } else {
        assert(false);
    }
}

/// Writing a link — eight bytes at a slot offset or at the header's
/// `free_head` position — touches no slot's valid flag.
proof fn lemma_link_write_keeps_flags(f: Seq<u8>, at: u64, x: u64, cs: u64)
    requires
        cs > CHUNK_HEADER_LEN,
        f.len() >= HEADER_LEN,
        at == 0 || slot_in(at, f.len() as int, cs),
        at + 8 <= f.len(),
    ensures
        splice(f, at as int, u64_be(x)).len() == f.len(),
        forall|s: u64|
            #[trigger] slot_in(s, f.len() as int, cs) ==> splice(f, at as int, u64_be(x))[s as int
                + 12] == f[s as int + 12],
{
    let g = splice(f, at as int, u64_be(x));
    assert(g.len() == f.len());
    assert forall|s: u64| #[trigger] slot_in(s, f.len() as int, cs) implies g[s as int + 12]
        == f[s as int + 12] by {
        let p = s as int + 12;
        if at != 0 && s != at {
            lemma_slots_disjoint(s, at, f.len() as int, cs);
        }
        assert(p < at || p >= at + 8);
        assert(g[p] == f[p]);
    };
}

/// The exact effect of [`Track::remove`] on the file bytes and the
/// free-list bounds: the walk from `offset`, one visited slot per
/// step. Each step reads the slot's stored links, clears its valid
/// flag, splices it onto the free-list (the old tail's `next_offset`,
/// or the header's `free_head` field when the list was empty, is
/// pointed at it; its own `next_offset` is cleared — it is the new
/// tail), and then stops with `Ok(None)` at a 0 link, stops with the
/// cross-link when the stored `next_track` names another track, or
/// follows the link. An offset off the slot grid stops the walk
/// unchanged; running out of `fuel` reports [`Error::Invariant`].
pub open spec fn remove_spec(
    file: Seq<u8>,
    fs: u64,
    fe: u64,
    id: u16,
    cs: u64,
    offset: u64,
    fuel: nat,
) -> (Seq<u8>, u64, u64, Result<Option<(u16, u64)>, Error>)
    decreases fuel,
{
    if fuel == 0 {
        (file, fs, fe, Err(Error::Invariant))
    } else if !slot_in(offset, file.len() as int, cs) {
        (file, fs, fe, Ok(None))
    } else {
        let next0 = u64_of_be(file.subrange(offset as int, offset as int + 8));
        let track0 = u16_of_be(file.subrange(offset as int + 10, offset as int + 12));
        let marked = file.update(offset as int + 12, 0u8);
        let tailed = if fe != 0 {
            splice(marked, fe as int, u64_be(offset))
        } else {
            marked
        };
        let headed = if fs == 0 {
            splice(tailed, 0, u64_be(offset))
        } else {
            tailed
        };
        let fs1 = if fs == 0 {
            offset
        } else {
            fs
        };
        let cleared = splice(headed, offset as int, u64_be(0));
        if next0 == 0 {
            (cleared, fs1, offset, Ok(None))
        } else if track0 != 0 && track0 != id {
            (cleared, fs1, offset, Ok(Some((track0, next0))))
        } else {
            remove_spec(cleared, fs1, offset, id, cs, next0, (fuel - 1) as nat)
        }
    }
}

impl Track {
    /// Overwrites the eight link bytes at `at` — a slot's
    /// `next_offset` field, or the header's `free_head` field when
    /// `at` is 0 — leaving every slot's valid flag as it was.
    fn write_link(&mut self, at: u64, x: u64)
        requires
            old(self).geo_wf(),
            at == 0 || old(self).spec_is_slot(at),
        ensures
            final(self).geo_wf(),
            final(self).id == old(self).id,
            final(self).options == old(self).options,
            final(self).chunk == old(self).chunk,
            final(self).size == old(self).size,
            final(self).free_start == old(self).free_start,
            final(self).free_end == old(self).free_end,
            final(self).file@ == splice(old(self).file@, at as int, u64_be(x)),
            final(self).file@.len() == old(self).file@.len(),
            forall|s: u64|
                #[trigger] old(self).spec_is_slot(s) ==> final(self).file@[s as int + 12]
                    == old(self).file@[s as int + 12],
    {
        let flen: usize = self.file.len();
        assert(at + 8 <= flen);
        write_u64_be_at(&mut self.file, at as usize, x);
        proof {
            lemma_link_write_keeps_flags(
                old(self).file@,
                at,
                x,
                self.options.chunk_size,
            );
        }
    }

    /// Deletes the chain that starts at the slot `index`: walks the
    /// `next_offset` links inside this track, marking each visited
    /// slot invalid and appending it to the free-list (the old tail's
    /// `next_offset`, or the header's `free_head` field when the list
    /// was empty, is pointed at the slot; the slot becomes the new
    /// tail with its own `next_offset` cleared). Stops with
    /// `Ok(Some((next_track, next_offset)))` as soon as the chain
    /// crosses into a different track, without visiting the remote
    /// slot; with `Ok(None)` when the chain ends or leaves the slot
    /// grid; with [`Error::Invariant`] when it revisits slots without
    /// ever ending. The file never shrinks and a dead slot never
    /// comes back to life; the final bytes, free-list bounds and
    /// result are exactly [`remove_spec`] of the initial state.
    pub fn remove(&mut self, index: u64) -> (r: Result<Option<(u16, u64)>, Error>)
        requires
            old(self).wf(),
        ensures
            final(self).wf(),
            final(self).id == old(self).id,
            final(self).options == old(self).options,
            final(self).chunk == old(self).chunk,
            final(self).size == old(self).size,
            final(self).file@.len() == old(self).file@.len(),
            forall|s: u64|
                #[trigger] old(self).spec_is_slot(s) && old(self).file@[s as int + 12] == 0
                    ==> final(self).file@[s as int + 12] == 0,
            old(self).spec_is_slot(index) ==> final(self).file@[index as int + 12] == 0
                && final(self).free_start != 0 && final(self).free_end != 0,
            match r {
                Ok(Some((t, off))) => t != old(self).id && t != 0,
                Ok(None) => true,
                Err(e) => e == Error::Invariant,
            },
            ({
                let m = remove_spec(
                    old(self).file@,
                    old(self).free_start,
                    old(self).free_end,
                    old(self).id,
                    old(self).options.chunk_size,
                    index,
                    ((old(self).size - HEADER_LEN) / (old(self).options.chunk_size as int)
                        + 1) as nat,
                );
                &&& final(self).file@ == m.0
                &&& final(self).free_start == m.1
                &&& final(self).free_end == m.2
                &&& r == m.3
            }),
    {
        let cs = self.options.chunk_size;
        let mut offset: u64 = index;
        let mut fuel: u64 = (self.size - HEADER_LEN) / cs + 1;
        let ghost fuel0: u64 = fuel;
        let ghost mut started: bool = false;
        let ghost whole = remove_spec(
            old(self).file@,
            old(self).free_start,
            old(self).free_end,
            old(self).id,
            cs,
            index,
            fuel0 as nat,
        );
        while fuel > 0
            invariant
                whole == remove_spec(
                    old(self).file@,
                    old(self).free_start,
                    old(self).free_end,
                    old(self).id,
                    cs,
                    index,
                    fuel0 as nat,
                ),
                whole == remove_spec(
                    self.file@,
                    self.free_start,
                    self.free_end,
                    old(self).id,
                    cs,
                    offset,
                    fuel as nat,
                ),
                fuel0 as int == (old(self).size - HEADER_LEN) / (cs as int) + 1,
                self.wf(),
                self.id == old(self).id,
                self.options == old(self).options,
                self.chunk == old(self).chunk,
                self.size == old(self).size,
                self.file@.len() == old(self).file@.len(),
                cs == self.options.chunk_size,
                forall|s: u64|
                    #[trigger] old(self).spec_is_slot(s) && old(self).file@[s as int + 12] == 0
                        ==> self.file@[s as int + 12] == 0,
                started ==> (old(self).spec_is_slot(index) ==> self.file@[index as int + 12] == 0),
                started ==> self.free_start != 0 && self.free_end != 0,
                !started ==> offset == index && fuel == fuel0,
                fuel0 >= 1,
            decreases fuel,
        {
            if !self.is_slot(offset) {
                proof {
                    assert(remove_spec(
                        self.file@,
                        self.free_start,
                        self.free_end,
                        old(self).id,
                        cs,
                        offset,
                        fuel as nat,
                    ) == (
                        self.file@,
                        self.free_start,
                        self.free_end,
                        Result::<Option<(u16, u64)>, Error>::Ok(None),
                    ));
                }
                return Ok(None);
            }
            let flen: usize = self.file.len();
            assert(offset + cs <= flen && CHUNK_HEADER_LEN < cs);
            let off_us = offset as usize;
            // Read this slot's links before touching it.
            let next0 = read_u64_be(&self.file, off_us);
            let track0 = read_u16_be(&self.file, off_us + 10);
            let ghost before = *self;
            // Mark the slot dead.
            set_byte(&mut self.file, off_us + 12, 0u8);
            proof {
                assert(self.file@.len() == before.file@.len());
                assert forall|s: u64| #[trigger] before.spec_is_slot(s) && before.file@[s as int
                    + 12] == 0 implies self.file@[s as int + 12] == 0 by {
                    if s != offset {
                        assert(s as int + 12 != offset as int + 12);
                    }
                };
                assert(self.file@[offset as int + 12] == 0);
            }
            let ghost marked = *self;
            // Splice the slot onto the free-list: link the old tail
            // (or the stored header when the list was empty) to it,
            // and clear its own link — it is the new tail.
            let fe = self.free_end;
            if fe != 0 {
                self.write_link(fe, offset);
            }
            proof {
                assert(forall|s: u64|
                    #[trigger] marked.spec_is_slot(s) ==> self.file@[s as int + 12]
                        == marked.file@[s as int + 12]);
            }
            let ghost tailed = *self;
            if self.free_start == 0 {
                self.write_link(0, offset);
                self.free_start = offset;
            }
            proof {
                assert(forall|s: u64|
                    #[trigger] tailed.spec_is_slot(s) ==> self.file@[s as int + 12]
                        == tailed.file@[s as int + 12]);
            }
            let ghost headed = *self;
            self.write_link(offset, 0);
            self.free_end = offset;
            proof {
                assert forall|s: u64|
                    #[trigger] old(self).spec_is_slot(s) && old(self).file@[s as int + 12] == 0
                        implies self.file@[s as int + 12] == 0 by {
                    assert(before.spec_is_slot(s) && marked.spec_is_slot(s)
                        && tailed.spec_is_slot(s) && headed.spec_is_slot(s));
                };
                assert(marked.spec_is_slot(offset) && tailed.spec_is_slot(offset)
                    && headed.spec_is_slot(offset));
                assert(self.file@[offset as int + 12] == 0);
                if old(self).spec_is_slot(index) {
                    assert(before.spec_is_slot(index) && marked.spec_is_slot(index)
                        && tailed.spec_is_slot(index) && headed.spec_is_slot(index));
                    if !started {
                        assert(index == offset);
                    } else {
                        assert(before.file@[index as int + 12] == 0);
                        assert(marked.file@[index as int + 12] == 0);
                    }
                    assert(self.file@[index as int + 12] == 0);
                }
                started = true;
            }
            proof {
                // The four writes of this step are exactly one
                // unfolding of the model.
                assert(marked.file@ == before.file@.update(offset as int + 12, 0u8));
                assert(tailed.file@ == if before.free_end != 0 {
                    splice(marked.file@, before.free_end as int, u64_be(offset))
                } else {
                    marked.file@
                });
                assert(headed.file@ == if before.free_start == 0 {
                    splice(tailed.file@, 0, u64_be(offset))
                } else {
                    tailed.file@
                });
                assert(self.file@ == splice(headed.file@, offset as int, u64_be(0u64)));
                assert(next0 == u64_of_be(
                    before.file@.subrange(offset as int, offset as int + 8),
                ));
                assert(track0 == u16_of_be(
                    before.file@.subrange(offset as int + 10, offset as int + 12),
                ));
                let m1 = remove_spec(
                    before.file@,
                    before.free_start,
                    before.free_end,
                    old(self).id,
                    cs,
                    offset,
                    fuel as nat,
                );
                if next0 == 0 {
                    assert(m1 == (
                        self.file@,
                        self.free_start,
                        self.free_end,
                        Result::<Option<(u16, u64)>, Error>::Ok(None),
                    ));
                } else if track0 != 0 && track0 != old(self).id {
                    assert(m1 == (
                        self.file@,
                        self.free_start,
                        self.free_end,
                        Result::<Option<(u16, u64)>, Error>::Ok(Some((track0, next0))),
                    ));
                } else {
                    assert(m1 == remove_spec(
                        self.file@,
                        self.free_start,
                        self.free_end,
                        old(self).id,
                        cs,
                        next0,
                        (fuel - 1) as nat,
                    ));
                }
            }
            if next0 == 0 {
                return Ok(None);
            }
            if track0 != 0 && track0 != self.id {
                return Ok(Some((track0, next0)));
            }
            offset = next0;
            fuel = fuel - 1;
        }
        Err(Error::Invariant)
    }
}

/// True when `off` names a chunk slot of a file of `len` bytes.
fn is_slot_at(off: u64, len: u64, cs: u64) -> (r: bool)
    requires
        cs > 0,
    ensures
        r == slot_in(off, len as int, cs),
{
    off >= HEADER_LEN && cs <= len && off <= len - cs && (off - HEADER_LEN) % cs == 0
}

/// The slot offsets on a free-list: the walk that starts at `head`
/// and follows each slot's stored `next_offset`, ending at the first
/// 0 link. `None` when the walk leaves the slot grid or does not end
/// within `fuel` steps.
pub open spec fn free_chain(file: Seq<u8>, head: u64, cs: u64, fuel: nat) -> Option<Seq<u64>>
    decreases fuel,
{
    if head == 0 {
        Some(Seq::empty())
    } else if fuel == 0 {
        None
    } else if !slot_in(head, file.len() as int, cs) {
        None
    } else {
        let nxt = u64_of_be(file.subrange(head as int, head as int + 8));
        match free_chain(file, nxt, cs, (fuel - 1) as nat) {
            None => None,
            Some(rest) => Some(seq![head] + rest),
        }
    }
}

/// A terminating walk never needs more fuel: the chain is the same
/// under any larger budget.
pub proof fn lemma_free_chain_fuel_monotone(file: Seq<u8>, head: u64, cs: u64, f1: nat, f2: nat)
    requires
        free_chain(file, head, cs, f1) is Some,
        f1 <= f2,
    ensures
        free_chain(file, head, cs, f2) == free_chain(file, head, cs, f1),
    decreases f1,
{
    if head == 0 {
    } else {
        let nxt = u64_of_be(file.subrange(head as int, head as int + 8));
        lemma_free_chain_fuel_monotone(file, nxt, cs, (f1 - 1) as nat, (f2 - 1) as nat);
    }
}

/// Every position of a free-list walk starts the walk over its own
/// tail: dropping `i` slots leaves the chain of the `i`-th link.
pub proof fn lemma_free_chain_suffix(file: Seq<u8>, head: u64, cs: u64, fuel: nat, i: int)
    requires
        free_chain(file, head, cs, fuel) is Some,
        0 <= i < free_chain(file, head, cs, fuel).unwrap().len(),
    ensures
        i <= fuel,
        free_chain(file, free_chain(file, head, cs, fuel).unwrap()[i], cs, (fuel - i) as nat)
            == Some(free_chain(file, head, cs, fuel).unwrap().skip(i)),
    decreases i,
{
    let l = free_chain(file, head, cs, fuel).unwrap();
    if i == 0 {
        assert(l.skip(0) =~= l);
        lemma_free_chain_fuel_monotone(file, head, cs, fuel, fuel);
        assert(head != 0 ==> l[0] == head);
        if head == 0 {
            assert(l.len() == 0);
        }
    } else {
        let nxt = u64_of_be(file.subrange(head as int, head as int + 8));
        let rest = free_chain(file, nxt, cs, (fuel - 1) as nat).unwrap();
        assert(l == seq![head] + rest);
        assert(rest[i - 1] == l[i]);
        lemma_free_chain_suffix(file, nxt, cs, (fuel - 1) as nat, i - 1);
        assert(rest.skip(i - 1) =~= l.skip(i));
    }
}

/// What one allocation does to a stored free-list: the head slot
/// leaves, and the link stored in it — exactly what
/// [`Track::allocate`] makes the new `free_start` — carries the rest
/// of the chain.
pub proof fn lemma_free_chain_pop(file: Seq<u8>, head: u64, cs: u64, fuel: nat)
    requires
        free_chain(file, head, cs, fuel) is Some,
        head != 0,
    ensures
        fuel >= 1,
        free_chain(file, head, cs, fuel).unwrap().first() == head,
        free_chain(
            file,
            u64_of_be(file.subrange(head as int, head as int + 8)),
            cs,
            (fuel - 1) as nat,
        ) == Some(free_chain(file, head, cs, fuel).unwrap().drop_first()),
{
    let nxt = u64_of_be(file.subrange(head as int, head as int + 8));
    let rest = free_chain(file, nxt, cs, (fuel - 1) as nat).unwrap();
    assert((seq![head] + rest).drop_first() =~= rest);
}

/// Free-list integrity: a walk that ends visits no slot twice. Were
/// a slot visited twice, the walk from its first visit would repeat
/// forever and never reach the 0 link it did reach.
pub proof fn lemma_free_chain_no_repetition(file: Seq<u8>, head: u64, cs: u64, fuel: nat)
    requires
        free_chain(file, head, cs, fuel) is Some,
    ensures
        ({
            let l = free_chain(file, head, cs, fuel).unwrap();
            forall|i: int, j: int| 0 <= i < j < l.len() ==> l[i] != l[j]
        }),
{
    let l = free_chain(file, head, cs, fuel).unwrap();
    assert forall|i: int, j: int| 0 <= i < j < l.len() implies l[i] != l[j] by {
        if l[i] == l[j] {
            lemma_free_chain_suffix(file, head, cs, fuel, i);
            lemma_free_chain_suffix(file, head, cs, fuel, j);
            lemma_free_chain_fuel_monotone(file, l[i], cs, (fuel - j) as nat, (fuel - i) as nat);
            assert(l.skip(i) == l.skip(j));
            assert(l.skip(i).len() == l.len() - i);
            assert(l.skip(j).len() == l.len() - j);
        }
    };
}

/// Re-opening a track after `write_end` reproduces its free-list
/// bounds: the bytes `write_end` leaves behind open without error,
/// and `init` reads back exactly the `free_start` and `free_end`
/// the track had.
pub proof fn lemma_write_end_then_init_recovers(t: Track)
    requires
        t.wf(),
    ensures
        file_ok(write_end_file(t), t.options.chunk_size),
        init_file(write_end_file(t)) == write_end_file(t),
        init_free_head(write_end_file(t)) == t.free_start,
        init_free_tail(write_end_file(t)) == t.free_end,
        write_end_file(t).len() == t.file@.len(),
{
    let f = write_end_file(t);
    assert(f.len() == t.file@.len());
    assert(f.subrange(0, 8) =~= u64_be(t.free_start));
    assert(f.subrange(8, 16) =~= u64_be(t.free_end));
    lemma_u64_be_round_trip(t.free_start);
    lemma_u64_be_round_trip(t.free_end);
}

} // verus!
