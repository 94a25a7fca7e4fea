//! The store: every track of one directory, and the streaming
//! reader, writer and remover that walk chunk chains across them.
//!
//! The caller enumerates the directory, reads each `<id>.track` file
//! and hands the byte contents to [`Disk::init`] in id order; after
//! [`Track::write_end`] it stores each track's bytes back.
use vstd::prelude::*;

use crate::bytes_be::{copy_slice_range, splice, zeros};
use crate::chunk::{chunk_wf, encode_spec, lemma_codec_round_trip, Chunk, ChunkView};
use crate::bytes_be::u64_of_be;
use crate::track::{
    file_ok, init_file, init_free_head, init_free_tail, lemma_write_end_then_init_recovers,
    remove_spec, slot_in, write_end_file, Track,
};
use crate::{Error, KernelOptions, CHUNK_HEADER_LEN, HEADER_LEN};

verus! {

/// The payload bytes of the chunk chain that starts at slot `off` of
/// track `t`, or `None` when the chain cannot be followed to its end
/// within `fuel` chunks: a link leaves the known tracks or the slot
/// grid, a record does not decode, or the chain is longer than `fuel`
/// (on sound storage no chain outgrows the store's slot count).
pub open spec fn chain_at(tracks: Seq<Track>, t: u16, off: u64, fuel: nat) -> Option<Seq<u8>>
    decreases fuel,
{
    if fuel == 0 {
        None
    } else if !(1 <= t && t <= tracks.len()) {
        None
    } else {
        let tr = tracks[t - 1];
        if !tr.spec_is_slot(off) {
            None
        } else {
            match tr.chunk_at(off) {
                None => None,
                Some(c) => match c.next {
                    None => Some(c.data),
                    Some(n) => {
                        let t2 = match c.next_track {
                            Some(nt) => nt,
                            None => t,
                        };
                        match chain_at(tracks, t2, n, (fuel - 1) as nat) {
                            None => None,
                            Some(rest) => Some(c.data + rest),
                        }
                    },
                },
            }
        }
    }
}

/// Which error a chain walk that cannot finish reports:
/// [`Error::Format`] when the record it reached does not decode,
/// [`Error::Invariant`] when a link leaves the store or the slot
/// grid, or the walk outruns `fuel`. Meaningful only where
/// [`chain_at`] is `None`.
pub open spec fn chain_err(tracks: Seq<Track>, t: u16, off: u64, fuel: nat) -> Error
    decreases fuel,
{
    if fuel == 0 {
        Error::Invariant
    } else if !(1 <= t && t <= tracks.len()) {
        Error::Invariant
    } else {
        let tr = tracks[t - 1];
        if !tr.spec_is_slot(off) {
            Error::Invariant
        } else {
            match tr.chunk_at(off) {
                None => Error::Format,
                Some(c) => match c.next {
                    None => Error::Invariant,
                    Some(n) => {
                        let t2 = match c.next_track {
                            Some(nt) => nt,
                            None => t,
                        };
                        chain_err(tracks, t2, n, (fuel - 1) as nat)
                    },
                },
            }
        }
    }
}

/// How many chunk slots the first `n` tracks hold together.
pub open spec fn slots_up_to(tracks: Seq<Track>, n: int) -> int
    decreases n,
{
    if n <= 0 {
        0
    } else {
        slots_up_to(tracks, n - 1) + tracks[n - 1].spec_slot_count()
    }
}

/// How many chunk slots the whole store holds.
pub open spec fn total_slots(tracks: Seq<Track>) -> int {
    slots_up_to(tracks, tracks.len() as int)
}

/// The fuel the streaming operations walk with: enough for every
/// chain that visits no slot twice.
pub open spec fn walk_fuel(tracks: Seq<Track>) -> nat {
    (total_slots(tracks) + 1) as nat
}

/// A store holds no negative number of slots.
pub proof fn lemma_slots_up_to_nonneg(tracks: Seq<Track>, n: int)
    requires
        n <= tracks.len(),
        forall|i: int| 0 <= i < tracks.len() ==> (#[trigger] tracks[i]).wf(),
    ensures
        slots_up_to(tracks, n) >= 0,
    decreases n,
{
    if n > 0 {
        lemma_slots_up_to_nonneg(tracks, n - 1);
        vstd::arithmetic::div_mod::lemma_div_pos_is_pos(
            tracks[n - 1].size - HEADER_LEN,
            tracks[n - 1].options.chunk_size as int,
        );
    }
}

/// Store-wide header consistency: persist every track with
/// [`crate::track::Track::write_end`], hand the file bytes back to
/// [`Disk::init`], and every track opens with the free-list bounds it
/// had — `init` accepts each file and reads back exactly the old
/// `free_start` and `free_end`.
pub proof fn lemma_reopen_recovers_free_lists(d: Disk)
    requires
        d.wf(),
    ensures
        forall|i: int|
            0 <= i < d.tracks@.len() ==> {
                let f = write_end_file(#[trigger] d.tracks@[i]);
                &&& file_ok(f, d.options.chunk_size)
                &&& init_file(f) == f
                &&& init_free_head(f) == d.tracks@[i].free_start
                &&& init_free_tail(f) == d.tracks@[i].free_end
            },
{
    assert forall|i: int| 0 <= i < d.tracks@.len() implies {
        let f = write_end_file(#[trigger] d.tracks@[i]);
        &&& file_ok(f, d.options.chunk_size)
        &&& init_file(f) == f
        &&& init_free_head(f) == d.tracks@[i].free_start
        &&& init_free_tail(f) == d.tracks@[i].free_end
    } by {
        lemma_write_end_then_init_recovers(d.tracks@[i]);
    };
}

/// What remove needs to know of one track: its file bytes and its
/// free-list bounds.
#[verifier::ext_equal]
pub struct TrackImage {
    pub file: Seq<u8>,
    pub free_start: u64,
    pub free_end: u64,
}

/// The image of one track.
pub open spec fn image_of(t: Track) -> TrackImage {
    TrackImage { file: t.file@, free_start: t.free_start, free_end: t.free_end }
}

/// The images of all tracks, in store order.
pub open spec fn images_of(tracks: Seq<Track>) -> Seq<TrackImage> {
    tracks.map_values(|t: Track| image_of(t))
}

/// The exact effect of [`crate::track::Track::allocate`] on one
/// track's image: append one zeroed slot at the tail when the
/// free-list is empty, else pop the head of the free-list — its
/// stored link, checked to be 0 or a slot, becomes the new head.
pub open spec fn allocate_spec(img: TrackImage, cs: u64) -> (TrackImage, Result<u64, Error>) {
    if img.free_start == 0 {
        (
            TrackImage { file: img.file + zeros(cs as int), free_start: 0, free_end: 0 },
            Ok(img.file.len() as u64),
        )
    } else {
        let nxt = u64_of_be(img.file.subrange(img.free_start as int, img.free_start as int + 8));
        if nxt == 0 {
            (TrackImage { file: img.file, free_start: 0, free_end: 0 }, Ok(img.free_start))
        } else if slot_in(nxt, img.file.len() as int, cs) {
            (
                TrackImage { file: img.file, free_start: nxt, free_end: img.free_end },
                Ok(img.free_start),
            )
        } else {
            (img, Err(Error::Invariant))
        }
    }
}

/// Where the writer's next chunk goes: the first track from `c` on
/// with a free chunk or with room to grow within `ts` bytes takes it
/// per [`allocate_spec`]; past the last track a fresh one is
/// appended; past track id 0xffff nothing is left.
pub open spec fn alloc_slot_spec(imgs: Seq<TrackImage>, cs: u64, ts: u64, c: u16) -> (
    Seq<TrackImage>,
    u16,
    Result<u64, Error>,
)
    recommends
        1 <= c <= imgs.len(),
    decreases 0x10000 - c,
{
    let img = imgs[c - 1];
    if img.free_start != 0 || img.file.len() + cs <= ts {
        let m = allocate_spec(img, cs);
        (imgs.update(c - 1, m.0), c, m.1)
    } else if c == 0xffff {
        (imgs, c, Err(Error::Capacity))
    } else if c as int >= imgs.len() {
        alloc_slot_spec(
            imgs.push(TrackImage { file: zeros(HEADER_LEN as int), free_start: 0, free_end: 0 }),
            cs,
            ts,
            (c + 1) as u16,
        )
    } else {
        alloc_slot_spec(imgs, cs, ts, (c + 1) as u16)
    }
}

/// The exact effect of [`Disk::write`] from mid-stream: `consumed`
/// bytes of `data` are already behind us, the pending chunk —
/// payload `p_data`, destined for slot `p` — awaits its successor's
/// address, and `cur` is the track the scan stands on. Each step
/// takes the next payload (up to the maximum), allocates its slot
/// per [`alloc_slot_spec`], stores the pending chunk linked to that
/// slot, and goes on; at the end of `data` the pending chunk is
/// stored with no successor and the head handle comes back.
pub open spec fn write_spec(
    imgs: Seq<TrackImage>,
    options: KernelOptions,
    data: Seq<u8>,
    consumed: int,
    cur: u16,
    head: (u16, u64),
    has_pending: bool,
    p: (u16, u64),
    p_data: Seq<u8>,
) -> (Seq<TrackImage>, Result<(u16, u64), Error>)
    recommends
        options.wf(),
    decreases data.len() - consumed,
{
    if consumed >= data.len() {
        if !has_pending {
            (imgs, Err(Error::Empty))
        } else {
            let enc = encode_spec(
                ChunkView { next: None, next_track: None, valid: true, data: p_data },
                options,
            );
            let img = imgs[p.0 - 1];
            (
                imgs.update(
                    p.0 - 1,
                    TrackImage {
                        file: splice(img.file, p.1 as int, enc),
                        free_start: img.free_start,
                        free_end: img.free_end,
                    },
                ),
                Ok(head),
            )
        }
    } else {
        let k = if data.len() - consumed > options.spec_max_payload() {
            options.spec_max_payload() as int
        } else {
            data.len() - consumed
        };
        if k < 1 {
            (imgs, Err(Error::Invariant))
        } else {
            let a = alloc_slot_spec(imgs, options.chunk_size, options.track_size, cur);
            match a.2 {
                Err(e) => (a.0, Err(e)),
                Ok(off) => {
                    let t = a.1;
                    let head1 = if has_pending {
                        head
                    } else {
                        (t, off)
                    };
                    let imgs1 = if has_pending {
                        let enc = encode_spec(
                            ChunkView {
                                next: Some(off),
                                next_track: if t == p.0 {
                                    None
                                } else {
                                    Some(t)
                                },
                                valid: true,
                                data: p_data,
                            },
                            options,
                        );
                        let img = a.0[p.0 - 1];
                        a.0.update(
                            p.0 - 1,
                            TrackImage {
                                file: splice(img.file, p.1 as int, enc),
                                free_start: img.free_start,
                                free_end: img.free_end,
                            },
                        )
                    } else {
                        a.0
                    };
                    write_spec(
                        imgs1,
                        options,
                        data,
                        consumed + k,
                        t,
                        head1,
                        true,
                        (t, off),
                        data.subrange(consumed, consumed + k),
                    )
                },
            }
        }
    }
}

/// The exact effect of [`Disk::remove`]: hop from track to track,
/// each hop deleting the chain's in-track run per
/// [`remove_spec`] and following the cross-link it reports, until a
/// hop ends the chain, leaves the store, or fails; `fuel` bounds the
/// hops as the walks inside a track are bounded.
pub open spec fn disk_remove_spec(
    imgs: Seq<TrackImage>,
    cs: u64,
    t: u16,
    off: u64,
    fuel: nat,
) -> (Seq<TrackImage>, Result<(), Error>)
    decreases fuel,
{
    if fuel == 0 {
        (imgs, Err(Error::Invariant))
    } else if !(1 <= t && t <= imgs.len()) {
        (imgs, Ok(()))
    } else {
        let img = imgs[t - 1];
        let m = remove_spec(
            img.file,
            img.free_start,
            img.free_end,
            t,
            cs,
            off,
            ((img.file.len() - crate::HEADER_LEN) / (cs as int) + 1) as nat,
        );
        let hopped = imgs.update(
            t - 1,
            TrackImage { file: m.0, free_start: m.1, free_end: m.2 },
        );
        match m.3 {
            Err(e) => (hopped, Err(e)),
            Ok(None) => (hopped, Ok(())),
            Ok(Some((nt, noff))) => disk_remove_spec(hopped, cs, nt, noff, (fuel - 1) as nat),
        }
    }
}

/// True when `t`'s free-list is visibly corrupt at its head: the
/// link stored in the head slot is neither 0 nor a slot, so no
/// allocation from it can proceed.
pub open spec fn corrupt_free_head(t: Track) -> bool {
    &&& t.free_start != 0
    &&& {
        let nxt = u64_of_be(t.file@.subrange(t.free_start as int, t.free_start as int + 8));
        nxt != 0 && !t.spec_is_slot(nxt)
    }
}

/// True when `t` is what opening the file bytes `f` as track `id`
/// leaves behind.
pub open spec fn opened(t: Track, f: Seq<u8>, id: int) -> bool {
    &&& t.id == id
    &&& t.file@ == init_file(f)
    &&& t.size == init_file(f).len()
    &&& t.free_start == init_free_head(f)
    &&& t.free_end == init_free_tail(f)
}

/// The store: owns one [`Track`] per backing file, densely numbered
/// from 1.
pub struct Disk {
    pub options: KernelOptions,
    pub tracks: Vec<Track>,
}

impl Disk {
    /// The store invariant: every track is well-formed, shares the
    /// store's configuration, and track `i + 1` sits at position `i`.
    pub open spec fn wf(self) -> bool {
        &&& self.options.wf()
        &&& self.tracks@.len() <= 0xffff
        &&& forall|i: int|
            0 <= i < self.tracks@.len() ==> (#[trigger] self.tracks@[i]).wf()
                && self.tracks@[i].id == i + 1 && self.tracks@[i].options == self.options
    }

    /// An empty store; [`Disk::init`] brings the tracks in.
    pub fn new(options: KernelOptions) -> (r: Disk)
        requires
            options.wf(),
        ensures
            r.wf(),
            r.options == options,
            r.tracks@.len() == 0,
    {
        Disk { options, tracks: Vec::new() }
    }

    /// Opens the store over the files found on disk: `files[i]` holds
    /// the bytes of track `i + 1`'s file. With no files at all, a
    /// fresh track 1 is created. Stops at the first file whose length
    /// or header is broken: that file's error comes back, and the
    /// store holds exactly the tracks opened before it.
    pub fn init(&mut self, files: Vec<Vec<u8>>) -> (r: Result<(), Error>)
        requires
            old(self).wf(),
            old(self).tracks@.len() == 0,
            files@.len() <= 0xffff,
        ensures
            final(self).options == old(self).options,
            match r {
                Ok(()) => final(self).wf() && if files@.len() == 0 {
                    &&& final(self).tracks@.len() == 1
                    &&& opened(final(self).tracks@[0], Seq::<u8>::empty(), 1)
                } else {
                    &&& final(self).tracks@.len() == files@.len()
                    &&& forall|i: int|
                        0 <= i < files@.len() ==> opened(
                            #[trigger] final(self).tracks@[i],
                            files@[i]@,
                            i + 1,
                        )
                    &&& forall|i: int|
                        0 <= i < files@.len() ==> file_ok(
                            #[trigger] files@[i]@,
                            old(self).options.chunk_size,
                        )
                },
                Err(e) => (e == Error::Format || e == Error::Invariant) && {
                    let j = final(self).tracks@.len() as int;
                    &&& 0 <= j < files@.len()
                    &&& !file_ok(files@[j]@, old(self).options.chunk_size)
                    &&& forall|k: int|
                        0 <= k < j ==> opened(
                            #[trigger] final(self).tracks@[k],
                            files@[k]@,
                            k + 1,
                        ) && file_ok(files@[k]@, old(self).options.chunk_size)
                },
            },
    {
        let total: usize = files.len();
        if total == 0 {
            let r = self.create_track(1, Vec::new());
            proof {
                assert(file_ok(Seq::<u8>::empty(), old(self).options.chunk_size));
            }
            return r;
        }
        let mut rest = files;
        let mut i: usize = 0;
        while i < total
            invariant
                self.wf(),
                self.options == old(self).options,
                self.tracks@.len() == i,
                i <= total == files@.len(),
                total <= 0xffff,
                rest@ == files@.subrange(i as int, total as int),
                forall|k: int|
                    0 <= k < i ==> opened(#[trigger] self.tracks@[k], files@[k]@, k + 1),
                forall|k: int|
                    0 <= k < i ==> file_ok(#[trigger] files@[k]@, old(self).options.chunk_size),
            decreases total - i,
        {
            let f = rest.remove(0);
            proof {
                assert(f@ == files@[i as int]@);
            }
            let id = #[verifier::truncate] ((i + 1) as u16);
            let ghost entry = *self;
            match self.create_track(id, f) {
                Ok(()) => {},
                Err(e) => {
                    return Err(e);
                },
            }
            proof {
                assert forall|k: int| 0 <= k < i + 1 implies opened(
                    #[trigger] self.tracks@[k],
                    files@[k]@,
                    k + 1,
                ) by {
                    if k < i {
                        assert(self.tracks@[k] == self.tracks@.subrange(0, i as int)[k]);
                        assert(self.tracks@.subrange(0, i as int) == entry.tracks@);
                    } else {
                        assert(self.tracks@[k] == self.tracks@.last());
                    }
                };
            }
            i = i + 1;
            proof {
                assert(rest@ =~= files@.subrange(i as int, total as int));
            }
        }
        Ok(())
    }

    /// Adds track `id` — the next dense id — over the file bytes `f`.
    fn create_track(&mut self, id: u16, f: Vec<u8>) -> (r: Result<(), Error>)
        requires
            old(self).wf(),
            old(self).tracks@.len() < 0xffff,
            id == old(self).tracks@.len() + 1,
        ensures
            final(self).options == old(self).options,
            match r {
                Ok(()) => final(self).wf() && final(self).tracks@.len() == old(self).tracks@.len() + 1 && final(self).tracks@.subrange(
                    0,
                    old(self).tracks@.len() as int,
                ) == old(self).tracks@ && file_ok(f@, old(self).options.chunk_size) && opened(
                    final(self).tracks@.last(),
                    f@,
                    id as int,
                ),
                Err(e) => (e == Error::Format || e == Error::Invariant) && !file_ok(
                    f@,
                    old(self).options.chunk_size,
                ) && final(self).tracks@ == old(self).tracks@,
            },
    {
        let mut track = Track::new(id, self.options, f);
        match track.init() {
            Ok(()) => {
                self.tracks.push(track);
                proof {
                    assert(self.tracks@.subrange(0, old(self).tracks@.len() as int) =~= old(self).tracks@);
                }
                Ok(())
            },
            Err(e) => Err(e),
        }
    }

    /// How many chunk slots the store holds in all; the walking
    /// budget of `read` and `remove`.
    fn total_slot_count(&self) -> (r: u128)
        requires
            self.wf(),
        ensures
            r == total_slots(self.tracks@),
            r <= 0xffff_0000_0000_0000_0000,
    {
        let mut i: usize = 0;
        let mut acc: u128 = 0;
        while i < self.tracks.len()
            invariant
                self.wf(),
                i <= self.tracks@.len(),
                acc == slots_up_to(self.tracks@, i as int),
                acc <= i * 0x1_0000_0000_0000_0000,
            decreases self.tracks@.len() - i,
        {
            let tr = &self.tracks[i];
            let count: u64 = (tr.size - HEADER_LEN) / tr.options.chunk_size;
            acc = acc + count as u128;
            i = i + 1;
        }
        acc
    }

    /// Reads the whole blob whose chain starts at slot `index` of
    /// track `track`: exactly the concatenated payloads `chain_at`
    /// describes. Fails — with [`Error::Format`] on a record that
    /// does not decode, [`Error::Invariant`] on a link that leaves
    /// the store or a chain that never ends — exactly when the chain
    /// cannot be followed.
    pub fn read(&self, track: u16, index: u64) -> (r: Result<Vec<u8>, Error>)
        requires
            self.wf(),
        ensures
            match r {
                Ok(b) => chain_at(self.tracks@, track, index, walk_fuel(self.tracks@)) == Some(
                    b@,
                ),
                Err(e) => chain_at(self.tracks@, track, index, walk_fuel(self.tracks@)) is None
                    && e == chain_err(self.tracks@, track, index, walk_fuel(self.tracks@)),
            },
    {
        let mut acc: Vec<u8> = Vec::new();
        let mut t: u16 = track;
        let mut off: u64 = index;
        let mut fuel: u128 = self.total_slot_count() + 1;
        proof {
            assert(fuel as nat == walk_fuel(self.tracks@));
            if chain_at(self.tracks@, t, off, fuel as nat) is Some {
                let rest = chain_at(self.tracks@, t, off, fuel as nat).unwrap();
                assert(acc@ + rest =~= rest);
            }
        }
        while fuel > 0
            invariant
                self.wf(),
                fuel <= walk_fuel(self.tracks@),
                chain_at(self.tracks@, track, index, walk_fuel(self.tracks@)) == (match chain_at(
                    self.tracks@,
                    t,
                    off,
                    fuel as nat,
                ) {
                    Some(rest) => Some(acc@ + rest),
                    None => None::<Seq<u8>>,
                }),
                chain_err(self.tracks@, track, index, walk_fuel(self.tracks@)) == chain_err(
                    self.tracks@,
                    t,
                    off,
                    fuel as nat,
                ),
            decreases fuel,
        {
            if t == 0 || t as usize > self.tracks.len() {
                return Err(Error::Invariant);
            }
            let tr = &self.tracks[(t - 1) as usize];
            let c = match tr.read(off) {
                Ok(c) => c,
                Err(e) => {
                    return Err(e);
                },
            };
            let ghost cv = c@;
            let Chunk { next, next_track, valid: _, data } = c;
            let mut d = data;
            match next {
                None => {
                    acc.append(&mut d);
                    proof {
                        assert(chain_at(self.tracks@, t, off, fuel as nat) == Some(cv.data));
                    }
                    return Ok(acc);
                },
                Some(n) => {
                    let ghost prev = acc@;
                    acc.append(&mut d);
                    let t2: u16 = match next_track {
                        Some(nt) => nt,
                        None => t,
                    };
                    proof {
                        let rest = chain_at(self.tracks@, t2, n, (fuel - 1) as nat);
                        if rest is Some {
                            assert((prev + cv.data) + rest.unwrap() =~= prev + (cv.data
                                + rest.unwrap()));
                        }
                    }
                    t = t2;
                    off = n;
                    fuel = fuel - 1;
                },
            }
        }
        Err(Error::Invariant)
    }

    /// Lifts [`Track::allocate`] to the track at position `ti`.
    fn track_allocate(&mut self, ti: usize) -> (r: Result<u64, Error>)
        requires
            old(self).wf(),
            ti < old(self).tracks@.len(),
            old(self).tracks@[ti as int].free_start == 0 ==> old(self).tracks@[ti as int].size
                + old(self).options.chunk_size <= u64::MAX,
        ensures
            final(self).wf(),
            final(self).options == old(self).options,
            final(self).tracks@.len() == old(self).tracks@.len(),
            forall|k: int|
                0 <= k < old(self).tracks@.len() && k != ti ==> #[trigger] final(self).tracks@[k]
                    == old(self).tracks@[k],
            final(self).tracks@[ti as int].size >= old(self).tracks@[ti as int].size,
            match r {
                Ok(off) => final(self).tracks@[ti as int].spec_is_slot(off) && (old(self).tracks@[ti as int].free_start != 0 ==> final(self).tracks@[ti as int].size
                    == old(self).tracks@[ti as int].size) && (old(self).tracks@[ti as int].free_start == 0 ==> final(self).tracks@[ti as int].size
                    == old(self).tracks@[ti as int].size + old(self).options.chunk_size),
                Err(e) => e == Error::Invariant && final(self).tracks@[ti as int].size == old(self).tracks@[ti as int].size && final(self).tracks@[ti as int].file@ == old(self).tracks@[ti as int].file@ && final(self).tracks@[ti as int].free_start == old(self).tracks@[ti as int].free_start && corrupt_free_head(final(self).tracks@[ti as int]),
            },
            ({
                let m = allocate_spec(
                    image_of(old(self).tracks@[ti as int]),
                    old(self).options.chunk_size,
                );
                &&& image_of(final(self).tracks@[ti as int]) == m.0
                &&& r == m.1
            }),
    {
        let tr = vstd::std_specs::vec::vec_index_mut(&mut self.tracks, ti);
        let r = tr.allocate();
        proof {
            assert forall|k: int|
                0 <= k < self.tracks@.len() implies (#[trigger] self.tracks@[k]).wf()
                && self.tracks@[k].id == k + 1 && self.tracks@[k].options == self.options by {
                if k != ti {
                    assert(self.tracks@[k] == old(self).tracks@[k]);
                }
            };
            if r is Ok {
                let off = r.unwrap();
                let t0 = old(self).tracks@[ti as int];
                let t1 = self.tracks@[ti as int];
                if t0.free_start == 0 {
                    assert(t1.spec_is_slot(off));
                } else {
                    assert(t1.spec_is_slot(off));
                }
            }
            assert(image_of(self.tracks@[ti as int]) =~= allocate_spec(
                image_of(old(self).tracks@[ti as int]),
                old(self).options.chunk_size,
            ).0);
        }
        r
    }

    /// Lifts [`Track::write`] to the track at position `ti`; with a
    /// valid slot the write cannot fail.
    fn track_write(&mut self, ti: usize, chunk: &Chunk, index: u64)
        requires
            old(self).wf(),
            ti < old(self).tracks@.len(),
            chunk_wf(chunk@, old(self).options),
            old(self).tracks@[ti as int].spec_is_slot(index),
        ensures
            final(self).wf(),
            final(self).options == old(self).options,
            final(self).tracks@.len() == old(self).tracks@.len(),
            forall|k: int|
                0 <= k < old(self).tracks@.len() && k != ti ==> #[trigger] final(self).tracks@[k]
                    == old(self).tracks@[k],
            final(self).tracks@[ti as int].size == old(self).tracks@[ti as int].size,
            final(self).tracks@[ti as int].free_start == old(self).tracks@[ti as int].free_start,
            final(self).tracks@[ti as int].free_end == old(self).tracks@[ti as int].free_end,
            final(self).tracks@[ti as int].file@ == splice(
                old(self).tracks@[ti as int].file@,
                index as int,
                encode_spec(chunk@, old(self).options),
            ),
    {
        let tr = vstd::std_specs::vec::vec_index_mut(&mut self.tracks, ti);
        match tr.write(chunk, index) {
            Ok(()) => {},
            Err(_) => {},
        }
        proof {
            assert forall|k: int|
                0 <= k < self.tracks@.len() implies (#[trigger] self.tracks@[k]).wf()
                && self.tracks@[k].id == k + 1 && self.tracks@[k].options == self.options by {
                if k != ti {
                    assert(self.tracks@[k] == old(self).tracks@[k]);
                }
            };
        }
    }

    /// Lifts [`Track::remove`] to the track at position `ti`.
    fn track_remove(&mut self, ti: usize, index: u64) -> (r: Result<Option<(u16, u64)>, Error>)
        requires
            old(self).wf(),
            ti < old(self).tracks@.len(),
        ensures
            final(self).wf(),
            final(self).options == old(self).options,
            final(self).tracks@.len() == old(self).tracks@.len(),
            forall|k: int|
                0 <= k < old(self).tracks@.len() && k != ti ==> #[trigger] final(self).tracks@[k]
                    == old(self).tracks@[k],
            final(self).tracks@[ti as int].size == old(self).tracks@[ti as int].size,
            forall|s: u64|
                #[trigger] old(self).tracks@[ti as int].spec_is_slot(s) && old(self).tracks@[ti as int].file@[s as int + 12] == 0 ==> final(self).tracks@[ti as int].file@[s as int + 12] == 0,
            old(self).tracks@[ti as int].spec_is_slot(index) ==> final(self).tracks@[ti as int].file@[index as int + 12] == 0,
            match r {
                Ok(Some((t, off))) => t != old(self).tracks@[ti as int].id && t != 0,
                Ok(None) => true,
                Err(e) => e == Error::Invariant,
            },
            ({
                let t0 = old(self).tracks@[ti as int];
                let m = remove_spec(
                    t0.file@,
                    t0.free_start,
                    t0.free_end,
                    t0.id,
                    old(self).options.chunk_size,
                    index,
                    ((t0.file@.len() - HEADER_LEN) / (old(self).options.chunk_size as int)
                        + 1) as nat,
                );
                &&& final(self).tracks@[ti as int].file@ == m.0
                &&& final(self).tracks@[ti as int].free_start == m.1
                &&& final(self).tracks@[ti as int].free_end == m.2
                &&& r == m.3
            }),
    {
        let tr = vstd::std_specs::vec::vec_index_mut(&mut self.tracks, ti);
        let r = tr.remove(index);
        proof {
            assert forall|k: int|
                0 <= k < self.tracks@.len() implies (#[trigger] self.tracks@[k]).wf()
                && self.tracks@[k].id == k + 1 && self.tracks@[k].options == self.options by {
                if k != ti {
                    assert(self.tracks@[k] == old(self).tracks@[k]);
                }
            };
        }
        r
    }

    /// Finds the slot the next chunk goes to: the track `*cur`, or —
    /// when that track is at capacity with no free chunk — the first
    /// later track that can take a chunk, created fresh when it does
    /// not exist yet. Fails with [`Error::Capacity`] when every
    /// addressable track id is used up.
    fn alloc_slot(&mut self, cur: &mut u16) -> (r: Result<u64, Error>)
        requires
            old(self).wf(),
            old(self).tracks@.len() >= 1,
            1 <= *old(cur) <= old(self).tracks@.len(),
        ensures
            final(self).wf(),
            final(self).options == old(self).options,
            final(self).tracks@.len() >= old(self).tracks@.len(),
            1 <= *final(cur) <= final(self).tracks@.len(),
            forall|k: int|
                0 <= k < old(self).tracks@.len() ==> #[trigger] final(self).tracks@[k].size
                    >= old(self).tracks@[k].size,
            match r {
                Ok(off) => final(self).tracks@[*final(cur) - 1].spec_is_slot(off),
                Err(e) => e == Error::Capacity || e == Error::Invariant,
            },
            r == Err::<u64, Error>(Error::Capacity) ==> final(self).tracks@.len() == 0xffff,
            r == Err::<u64, Error>(Error::Invariant) ==> corrupt_free_head(
                final(self).tracks@[*final(cur) - 1],
            ),
            ({
                let m = alloc_slot_spec(
                    images_of(old(self).tracks@),
                    old(self).options.chunk_size,
                    old(self).options.track_size,
                    *old(cur),
                );
                &&& images_of(final(self).tracks@) == m.0
                &&& *final(cur) == m.1
                &&& r == m.2
            }),
    {
        let cs = self.options.chunk_size;
        let mut c: u16 = *cur;
        let ghost whole = alloc_slot_spec(
            images_of(old(self).tracks@),
            cs,
            self.options.track_size,
            *cur,
        );
        loop
            invariant
                whole == alloc_slot_spec(
                    images_of(old(self).tracks@),
                    old(self).options.chunk_size,
                    old(self).options.track_size,
                    *old(cur),
                ),
                whole == alloc_slot_spec(
                    images_of(self.tracks@),
                    old(self).options.chunk_size,
                    old(self).options.track_size,
                    c,
                ),
                self.wf(),
                self.options == old(self).options,
                cs == self.options.chunk_size,
                self.tracks@.len() >= old(self).tracks@.len(),
                1 <= c <= self.tracks@.len(),
                forall|k: int|
                    0 <= k < old(self).tracks@.len() ==> #[trigger] self.tracks@[k].size >= old(self).tracks@[k].size,
            decreases 0x10000 - c,
        {
            let ti = (c - 1) as usize;
            let has_free = self.tracks[ti].free_start != 0;
            let can_grow = self.tracks[ti].size <= self.options.track_size - cs;
            if has_free || can_grow {
                *cur = c;
                let ghost at_call = *self;
                let r = self.track_allocate(ti);
                proof {
                    assert forall|k: int|
                        0 <= k < old(self).tracks@.len() implies #[trigger] self.tracks@[k].size
                        >= old(self).tracks@[k].size by {
                        assert(at_call.tracks@[k].size >= old(self).tracks@[k].size);
                    };
                    let imgs = images_of(at_call.tracks@);
                    let m = allocate_spec(imgs[ti as int], cs);
                    assert(imgs[ti as int] == image_of(at_call.tracks@[ti as int]));
                    assert(images_of(self.tracks@) =~= imgs.update(ti as int, m.0));
                    assert(whole == (images_of(self.tracks@), c, r));
                }
                return r;
            }
            // This track is full: move to the next id, creating its
            // track when it does not exist yet.
            if c == 0xffff {
                *cur = c;
                return Err(Error::Capacity);
            }
            c = c + 1;
            if c as usize > self.tracks.len() {
                let ghost at_call = *self;
                match self.create_track(c, Vec::new()) {
                    Ok(()) => {},
                    Err(_) => {
                        proof {
                            assert(file_ok(Seq::<u8>::empty(), cs));
                            assert(false);
                        }
                    },
                }
                proof {
                    assert forall|k: int|
                        0 <= k < old(self).tracks@.len() implies #[trigger] self.tracks@[k].size
                        >= old(self).tracks@[k].size by {
                        assert(self.tracks@[k] == self.tracks@.subrange(
                            0,
                            at_call.tracks@.len() as int,
                        )[k]);
                    };
                    assert(image_of(self.tracks@[at_call.tracks@.len() as int]) =~= (
                    TrackImage { file: zeros(HEADER_LEN as int), free_start: 0, free_end: 0 }));
                    assert(images_of(self.tracks@) =~= images_of(at_call.tracks@).push(
                        TrackImage { file: zeros(HEADER_LEN as int), free_start: 0, free_end: 0 },
                    ));
                }
            }
        }
    }

    /// Stores the blob `data` as a chain of chunks and returns the
    /// handle of its first chunk. Chunks go to the first track with
    /// room — a free chunk, or capacity to grow — rolling to higher
    /// (possibly fresh) tracks as tracks fill; each chunk is written
    /// once its successor's slot is known, so the head handle is
    /// returned only after the whole blob is on its tracks. An empty
    /// blob is refused with [`Error::Empty`]: no chunk holds an
    /// empty payload, so no handle could ever name one. The final
    /// state and the result are exactly [`write_spec`] of the
    /// initial state.
    pub fn write(&mut self, data: &[u8]) -> (r: Result<(u16, u64), Error>)
        requires
            old(self).wf(),
            old(self).tracks@.len() >= 1,
        ensures
            final(self).wf(),
            final(self).options == old(self).options,
            final(self).tracks@.len() >= old(self).tracks@.len(),
            forall|k: int|
                0 <= k < old(self).tracks@.len() ==> #[trigger] final(self).tracks@[k].size
                    >= old(self).tracks@[k].size,
            match r {
                Ok((t, off)) => data@.len() > 0 && 1 <= t <= final(self).tracks@.len() && final(self).tracks@[t - 1].spec_is_slot(off) && ({
                    // the head handle is the first allocation the
                    // pristine store hands out
                    let m = alloc_slot_spec(
                        images_of(old(self).tracks@),
                        old(self).options.chunk_size,
                        old(self).options.track_size,
                        1u16,
                    );
                    t == m.1 && m.2 == Ok::<u64, Error>(off)
                }) && (data@.len()
                    <= old(self).options.spec_max_payload() ==> chain_at(
                    final(self).tracks@,
                    t,
                    off,
                    walk_fuel(final(self).tracks@),
                ) == Some(data@) && ({
                    // for a one-chunk blob the whole final state is
                    // fixed: the first allocation, then the encoded
                    // record over the allocated slot
                    let m = alloc_slot_spec(
                        images_of(old(self).tracks@),
                        old(self).options.chunk_size,
                        old(self).options.track_size,
                        1u16,
                    );
                    images_of(final(self).tracks@) == m.0.update(
                        t - 1,
                        TrackImage {
                            file: splice(
                                m.0[t - 1].file,
                                off as int,
                                encode_spec(
                                    ChunkView {
                                        next: None,
                                        next_track: None,
                                        valid: true,
                                        data: data@,
                                    },
                                    old(self).options,
                                ),
                            ),
                            free_start: m.0[t - 1].free_start,
                            free_end: m.0[t - 1].free_end,
                        },
                    )
                })),
                Err(e) => e == Error::Empty || e == Error::Capacity || e == Error::Invariant,
            },
            r == Err::<(u16, u64), Error>(Error::Empty) <==> data@.len() == 0,
            r == Err::<(u16, u64), Error>(Error::Capacity) ==> final(self).tracks@.len() == 0xffff,
            r == Err::<(u16, u64), Error>(Error::Invariant) ==> exists|k: int|
                0 <= k < final(self).tracks@.len() && corrupt_free_head(
                    #[trigger] final(self).tracks@[k],
                ),
            data@.len() > 0 ==> ({
                let m = write_spec(
                    images_of(old(self).tracks@),
                    old(self).options,
                    data@,
                    0,
                    1u16,
                    (1u16, 0u64),
                    false,
                    (1u16, 0u64),
                    Seq::<u8>::empty(),
                );
                &&& images_of(final(self).tracks@) == m.0
                &&& r == m.1
            }),
    {
        if data.len() == 0 {
            return Err(Error::Empty);
        }
        let cs = self.options.chunk_size;
        let mp: usize = (cs - CHUNK_HEADER_LEN) as usize;
        let mut cur: u16 = 1;
        let mut consumed: usize = 0;
        let mut head_track: u16 = 1;
        let mut head_off: u64 = 0;
        let mut have_pending = false;
        let mut p_track: u16 = 1;
        let mut p_off: u64 = 0;
        let mut p_chunk = Chunk { next: None, next_track: None, valid: true, data: Vec::new() };
        let ghost first_alloc = alloc_slot_spec(
            images_of(old(self).tracks@),
            cs,
            self.options.track_size,
            1u16,
        );
        let ghost whole = write_spec(
            images_of(old(self).tracks@),
            self.options,
            data@,
            0,
            1u16,
            (1u16, 0u64),
            false,
            (1u16, 0u64),
            Seq::<u8>::empty(),
        );
        while consumed < data.len()
            invariant
                whole == write_spec(
                    images_of(old(self).tracks@),
                    old(self).options,
                    data@,
                    0,
                    1u16,
                    (1u16, 0u64),
                    false,
                    (1u16, 0u64),
                    Seq::<u8>::empty(),
                ),
                whole == write_spec(
                    images_of(self.tracks@),
                    old(self).options,
                    data@,
                    consumed as int,
                    cur,
                    (head_track, head_off),
                    have_pending,
                    (p_track, p_off),
                    p_chunk.data@,
                ),
                first_alloc == alloc_slot_spec(
                    images_of(old(self).tracks@),
                    old(self).options.chunk_size,
                    old(self).options.track_size,
                    1u16,
                ),
                !(consumed > 0) ==> cur == 1 && self.tracks@ == old(self).tracks@,
                consumed > 0 ==> head_track == first_alloc.1 && first_alloc.2 == Ok::<u64, Error>(
                    head_off,
                ),
                self.wf(),
                self.options == old(self).options,
                cs == self.options.chunk_size,
                mp == cs - CHUNK_HEADER_LEN,
                1 <= mp,
                self.tracks@.len() >= old(self).tracks@.len() >= 1,
                forall|k: int|
                    0 <= k < old(self).tracks@.len() ==> #[trigger] self.tracks@[k].size >= old(self).tracks@[k].size,
                1 <= cur <= self.tracks@.len(),
                consumed <= data@.len(),
                have_pending <==> consumed > 0,
                have_pending ==> {
                    &&& 1 <= head_track <= self.tracks@.len()
                    &&& self.tracks@[head_track - 1].spec_is_slot(head_off)
                    &&& 1 <= p_track <= self.tracks@.len()
                    &&& self.tracks@[p_track - 1].spec_is_slot(p_off)
                    &&& chunk_wf(p_chunk@, self.options)
                    &&& p_chunk.next == None::<u64>
                    &&& p_chunk.next_track == None::<u16>
                    &&& p_chunk.valid
                },
                data@.len() <= mp && have_pending ==> {
                    &&& consumed == data@.len()
                    &&& p_chunk@ == (ChunkView {
                        next: None,
                        next_track: None,
                        valid: true,
                        data: data@,
                    })
                    &&& p_track == head_track
                    &&& p_off == head_off
                    &&& images_of(self.tracks@) == first_alloc.0
                },
            decreases data@.len() - consumed,
        {
            let remain = data.len() - consumed;
            let k = if remain > mp {
                mp
            } else {
                remain
            };
            let ghost at_alloc = *self;
            let ghost cur0 = cur;
            let ghost p0 = (p_track, p_off);
            let ghost p_data0 = p_chunk.data@;
            let ghost pending0 = have_pending;
            let ghost consumed0 = consumed as int;
            let off = match self.alloc_slot(&mut cur) {
                Ok(o) => o,
                Err(e) => {
                    proof {
                        if e == Error::Invariant {
                            assert(corrupt_free_head(self.tracks@[cur - 1]));
                        }
                        assert(whole == (
                            images_of(self.tracks@),
                            Result::<(u16, u64), Error>::Err(e),
                        ));
                    }
                    return Err(e);
                },
            };
            let t = cur;
            proof {
                assert forall|kk: int|
                    0 <= kk < old(self).tracks@.len() implies #[trigger] self.tracks@[kk].size
                    >= old(self).tracks@[kk].size by {
                    assert(at_alloc.tracks@[kk].size >= old(self).tracks@[kk].size);
                };
            }
            if !have_pending {
                head_track = t;
                head_off = off;
            } else {
                p_chunk.next = Some(off);
                p_chunk.next_track = if t == p_track {
                    None
                } else {
                    Some(t)
                };
                let ghost at_write = *self;
                self.track_write((p_track - 1) as usize, &p_chunk, p_off);
                proof {
                    assert forall|kk: int|
                        0 <= kk < old(self).tracks@.len() implies #[trigger] self.tracks@[kk].size
                        >= old(self).tracks@[kk].size by {
                        assert(at_write.tracks@[kk].size >= old(self).tracks@[kk].size);
                    };
                }
            }
            let payload = copy_slice_range(data, consumed, consumed + k);
            p_chunk = Chunk { next: None, next_track: None, valid: true, data: payload };
            p_track = t;
            p_off = off;
            have_pending = true;
            consumed = consumed + k;
            proof {
                if data@.len() <= mp {
                    assert(p_chunk.data@ =~= data@);
                }
                assert(p_chunk.data@ == data@.subrange(consumed0, consumed0 + k as int));
                let a = alloc_slot_spec(
                    images_of(at_alloc.tracks@),
                    old(self).options.chunk_size,
                    old(self).options.track_size,
                    cur0,
                );
                if pending0 {
                    let enc = encode_spec(
                        ChunkView {
                            next: Some(off),
                            next_track: if t == p0.0 {
                                None
                            } else {
                                Some(t)
                            },
                            valid: true,
                            data: p_data0,
                        },
                        old(self).options,
                    );
                    let img = a.0[p0.0 - 1];
                    assert(images_of(self.tracks@) =~= a.0.update(
                        p0.0 - 1,
                        TrackImage {
                            file: splice(img.file, p0.1 as int, enc),
                            free_start: img.free_start,
                            free_end: img.free_end,
                        },
                    ));
                } else {
                    assert(images_of(self.tracks@) == a.0);
                }
                assert(whole == write_spec(
                    images_of(self.tracks@),
                    old(self).options,
                    data@,
                    consumed as int,
                    cur,
                    (head_track, head_off),
                    have_pending,
                    (p_track, p_off),
                    p_chunk.data@,
                ));
            }
        }
        // End of input: the pending chunk closes the chain.
        let ghost pre_close = *self;
        self.track_write((p_track - 1) as usize, &p_chunk, p_off);
        proof {
            let imgs = images_of(pre_close.tracks@);
            let enc = encode_spec(
                ChunkView { next: None, next_track: None, valid: true, data: p_chunk.data@ },
                self.options,
            );
            let img = imgs[p_track - 1];
            assert(images_of(self.tracks@) =~= imgs.update(
                p_track - 1,
                TrackImage {
                    file: splice(img.file, p_off as int, enc),
                    free_start: img.free_start,
                    free_end: img.free_end,
                },
            ));
            assert(whole == (
                images_of(self.tracks@),
                Result::<(u16, u64), Error>::Ok((head_track, head_off)),
            ));
            if data@.len() <= self.options.spec_max_payload() {
                let ti = p_track - 1;
                let tr = self.tracks@[ti as int];
                lemma_codec_round_trip(p_chunk@, self.options);
                assert(tr.spec_is_slot(p_off));
                assert(tr.slot_bytes(p_off) =~= encode_spec(p_chunk@, self.options));
                assert(tr.chunk_at(p_off) == Some(p_chunk@));
                lemma_slots_up_to_nonneg(self.tracks@, self.tracks@.len() as int);
                assert(walk_fuel(self.tracks@) >= 1);
                assert(chain_at(self.tracks@, p_track, p_off, walk_fuel(self.tracks@))
                    == Some(data@));
            }
        }
        Ok((head_track, head_off))
    }

    /// Deletes the blob whose chain starts at slot `index` of track
    /// `track`, splicing its chunks onto their tracks' free-lists,
    /// track by track as the chain crosses. No track's size changes;
    /// the head chunk of a valid handle is dead afterwards. Fails
    /// with [`Error::Invariant`] when the chain revisits slots
    /// without ever ending. The final state and the result are
    /// exactly [`disk_remove_spec`] of the initial state.
    pub fn remove(&mut self, track: u16, index: u64) -> (r: Result<(), Error>)
        requires
            old(self).wf(),
        ensures
            final(self).wf(),
            final(self).options == old(self).options,
            final(self).tracks@.len() == old(self).tracks@.len(),
            forall|k: int|
                0 <= k < old(self).tracks@.len() ==> #[trigger] final(self).tracks@[k].size == old(self).tracks@[k].size,
            (1 <= track <= old(self).tracks@.len() && old(self).tracks@[track - 1].spec_is_slot(
                index,
            )) ==> final(self).tracks@[track - 1].file@[index as int + 12] == 0,
            match r {
                Ok(()) => true,
                Err(e) => e == Error::Invariant,
            },
            ({
                let m = disk_remove_spec(
                    images_of(old(self).tracks@),
                    old(self).options.chunk_size,
                    track,
                    index,
                    walk_fuel(old(self).tracks@),
                );
                &&& images_of(final(self).tracks@) == m.0
                &&& r == m.1
            }),
    {
        let mut t: u16 = track;
        let mut off: u64 = index;
        let mut fuel: u128 = self.total_slot_count() + 1;
        let ghost fuel0: u128 = fuel;
        let ghost whole = disk_remove_spec(
            images_of(old(self).tracks@),
            old(self).options.chunk_size,
            track,
            index,
            fuel0 as nat,
        );
        let ghost mut started: bool = false;
        let ghost target_ok = 1 <= track <= old(self).tracks@.len()
            && old(self).tracks@[track - 1].spec_is_slot(index);
        while fuel > 0
            invariant
                whole == disk_remove_spec(
                    images_of(old(self).tracks@),
                    old(self).options.chunk_size,
                    track,
                    index,
                    fuel0 as nat,
                ),
                whole == disk_remove_spec(
                    images_of(self.tracks@),
                    old(self).options.chunk_size,
                    t,
                    off,
                    fuel as nat,
                ),
                fuel0 as nat == walk_fuel(old(self).tracks@),
                old(self).wf(),
                self.wf(),
                self.options == old(self).options,
                self.tracks@.len() == old(self).tracks@.len(),
                forall|k: int|
                    0 <= k < old(self).tracks@.len() ==> #[trigger] self.tracks@[k].size == old(self).tracks@[k].size,
                target_ok == (1 <= track <= old(self).tracks@.len() && old(self).tracks@[track - 1].spec_is_slot(index)),
                started ==> (target_ok ==> self.tracks@[track - 1].file@[index as int + 12] == 0),
                !started ==> t == track && off == index && fuel == fuel0,
                fuel0 >= 1,
            decreases fuel,
        {
            if t == 0 || t as usize > self.tracks.len() {
                proof {
                    assert(disk_remove_spec(
                        images_of(self.tracks@),
                        old(self).options.chunk_size,
                        t,
                        off,
                        fuel as nat,
                    ) == (images_of(self.tracks@), Result::<(), Error>::Ok(())));
                }
                return Ok(());
            }
            let ti = (t - 1) as usize;
            let ghost at_call = *self;
            let r = self.track_remove(ti, off);
            proof {
                // One hop of the store-level model: the element the
                // track walk produced, in place.
                let imgs = images_of(at_call.tracks@);
                let img = imgs[ti as int];
                assert(img == image_of(at_call.tracks@[ti as int]));
                assert(at_call.tracks@[ti as int].id == t);
                assert(at_call.tracks@[ti as int].options == old(self).options);
                let m = remove_spec(
                    img.file,
                    img.free_start,
                    img.free_end,
                    t,
                    old(self).options.chunk_size,
                    off,
                    ((img.file.len() - HEADER_LEN) / (old(self).options.chunk_size as int)
                        + 1) as nat,
                );
                assert(images_of(self.tracks@) =~= imgs.update(
                    ti as int,
                    TrackImage { file: m.0, free_start: m.1, free_end: m.2 },
                ));
                assert(disk_remove_spec(
                    imgs,
                    old(self).options.chunk_size,
                    t,
                    off,
                    fuel as nat,
                ) == match m.3 {
                    Err(e) => (images_of(self.tracks@), Result::<(), Error>::Err(e)),
                    Ok(None) => (images_of(self.tracks@), Result::<(), Error>::Ok(())),
                    Ok(Some((nt, noff))) => disk_remove_spec(
                        images_of(self.tracks@),
                        old(self).options.chunk_size,
                        nt,
                        noff,
                        (fuel - 1) as nat,
                    ),
                });
            }
            proof {
                if target_ok {
                    assert(at_call.tracks@[track - 1].size == old(self).tracks@[track - 1].size);
                    assert(at_call.tracks@[track - 1].options == old(self).options);
                    assert(old(self).tracks@[track - 1].options == old(self).options);
                    assert(at_call.tracks@[track - 1].spec_is_slot(index));
                    if started {
                        if ti == track - 1 {
                            assert(self.tracks@[track - 1].file@[index as int + 12] == 0);
                        } else {
                            assert(self.tracks@[track - 1] == at_call.tracks@[track - 1]);
                        }
                    } else {
                        assert(ti == track - 1 && off == index);
                        assert(self.tracks@[track - 1].file@[index as int + 12] == 0);
                    }
                }
                started = true;
            }
            match r {
                Err(e) => {
                    return Err(e);
                },
                Ok(None) => {
                    return Ok(());
                },
                Ok(Some((nt, noff))) => {
                    t = nt;
                    off = noff;
                    fuel = fuel - 1;
                },
            }
        }
        Err(Error::Invariant)
    }
}

} // verus!
