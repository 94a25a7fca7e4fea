//! The chunk codec: one fixed-size record to and from its bytes.
//!
//! Record layout, `chunk_size` bytes in all, integers big-endian:
//!
//! | bytes            | field          | meaning                                      |
//! |------------------|----------------|----------------------------------------------|
//! | 0..8             | `next_offset`  | byte offset of the next chunk; 0 = none      |
//! | 8..10            | `payload_size` | 1..max payload; 0 means exactly the maximum  |
//! | 10..12           | `next_track`   | track id of the next chunk; 0 = same / none  |
//! | 12               | `valid`        | 1 = live, 0 = on the free-list               |
//! | 13..13+size      | payload        | user bytes                                   |
//! | remainder        | padding        | zero                                         |
use vstd::prelude::*;

use crate::bytes_be::{
    copy_range, push_u16_be, push_u64_be, read_u16_be, read_u64_be, u16_be, u16_of_be, u64_be,
    u64_of_be, zeros, extend_zeros, lemma_u16_be_round_trip, lemma_u64_be_round_trip,
};
use crate::{Error, KernelOptions, CHUNK_HEADER_LEN};

verus! {

/// One chunk: a piece of a blob and the link to the piece after it.
///
/// `next` is the byte offset of the next chunk in its track, or `None`
/// at the end of the chain. `next_track` names the track the next
/// chunk lives in when the chain crosses tracks, `None` while it stays
/// in the same track. `valid` is false for slots on the free-list.
#[derive(Clone, Debug)]
pub struct Chunk {
    pub next: Option<u64>,
    pub next_track: Option<u16>,
    pub valid: bool,
    pub data: Vec<u8>,
}

/// The mathematical value of a [`Chunk`].
#[verifier::ext_equal]
pub struct ChunkView {
    pub next: Option<u64>,
    pub next_track: Option<u16>,
    pub valid: bool,
    pub data: Seq<u8>,
}

impl View for Chunk {
    type V = ChunkView;

    open spec fn view(&self) -> ChunkView {
        ChunkView {
            next: self.next,
            next_track: self.next_track,
            valid: self.valid,
            data: self.data@,
        }
    }
}

/// A chunk the codec can represent: the payload is never empty and
/// fits one record, and the encoded-as-zero meanings "no next chunk"
/// and "same track" are not taken by links to offset 0 or track 0
/// (a chunk never starts at offset 0 and track ids start at 1).
pub open spec fn chunk_wf(c: ChunkView, options: KernelOptions) -> bool {
    &&& 1 <= c.data.len() <= options.spec_max_payload()
    &&& c.next != Some(0u64)
    &&& c.next_track != Some(0u16)
}

/// The value of the on-disk `payload_size` field: the payload length,
/// with 0 standing for "exactly the maximum".
pub open spec fn size_field(c: ChunkView, options: KernelOptions) -> u16 {
    if c.data.len() == options.spec_max_payload() {
        0u16
    } else {
        c.data.len() as u16
    }
}

/// The `chunk_size` bytes that encode `c`.
pub open spec fn encode_spec(c: ChunkView, options: KernelOptions) -> Seq<u8> {
    u64_be(
        match c.next {
            Some(n) => n,
            None => 0u64,
        },
    ) + u16_be(size_field(c, options)) + u16_be(
        match c.next_track {
            Some(t) => t,
            None => 0u16,
        },
    ) + seq![
        if c.valid {
            1u8
        } else {
            0u8
        },
    ] + c.data + zeros(options.chunk_size - CHUNK_HEADER_LEN - c.data.len())
}

/// The chunk encoded by `s`, or `None` when `s` is not `chunk_size`
/// bytes long or its `payload_size` field exceeds the maximum.
pub open spec fn decode_spec(s: Seq<u8>, options: KernelOptions) -> Option<ChunkView> {
    let next0 = u64_of_be(s.subrange(0, 8));
    let size0 = u16_of_be(s.subrange(8, 10));
    let track0 = u16_of_be(s.subrange(10, 12));
    let len = if size0 == 0 {
        options.spec_max_payload() as int
    } else {
        size0 as int
    };
    if s.len() == options.chunk_size && size0 <= options.spec_max_payload() {
        Some(
            ChunkView {
                next: if next0 == 0 {
                    None
                } else {
                    Some(next0)
                },
                next_track: if track0 == 0 {
                    None
                } else {
                    Some(track0)
                },
                valid: s[12] == 1,
                data: s.subrange(CHUNK_HEADER_LEN as int, CHUNK_HEADER_LEN as int + len),
            },
        )
    } else {
        None
    }
}

/// Decoding inverts encoding: every representable chunk survives the
/// trip through its record bytes unchanged.
pub proof fn lemma_codec_round_trip(c: ChunkView, options: KernelOptions)
    requires
        options.wf(),
        chunk_wf(c, options),
    ensures
        encode_spec(c, options).len() == options.chunk_size,
        decode_spec(encode_spec(c, options), options) == Some(c),
{
    let e = encode_spec(c, options);
    let nval = match c.next {
        Some(n) => n,
        None => 0u64,
    };
    let tval = match c.next_track {
        Some(t) => t,
        None => 0u16,
    };
    let sval = size_field(c, options);
    assert(e.len() == options.chunk_size);
    assert(e.subrange(0, 8) =~= u64_be(nval));
    assert(e.subrange(8, 10) =~= u16_be(sval));
    assert(e.subrange(10, 12) =~= u16_be(tval));
    lemma_u64_be_round_trip(nval);
    lemma_u16_be_round_trip(sval);
    lemma_u16_be_round_trip(tval);
    assert(e[12] == if c.valid { 1u8 } else { 0u8 });
    let len = if sval == 0 {
        options.spec_max_payload() as int
    } else {
        sval as int
    };
    assert(len == c.data.len());
    assert(e.subrange(CHUNK_HEADER_LEN as int, CHUNK_HEADER_LEN as int + len) =~= c.data);
    let d = decode_spec(e, options).unwrap();
    assert(d =~= c);
}

/// Every decoded chunk is itself representable, so it can be encoded
/// again.
pub proof fn lemma_decode_wf(s: Seq<u8>, options: KernelOptions)
    requires
        options.wf(),
        decode_spec(s, options) is Some,
    ensures
        chunk_wf(decode_spec(s, options).unwrap(), options),
{
}

/// Encodes chunks to records and records back to chunks for one
/// configured chunk size.
pub struct Codec {
    pub options: KernelOptions,
}

impl Codec {
    pub fn new(options: KernelOptions) -> (r: Codec)
        requires
            options.wf(),
        ensures
            r.options == options,
    {
        Codec { options }
    }

    /// Encodes `chunk` into exactly `chunk_size` bytes.
    pub fn encoder(&self, chunk: &Chunk) -> (r: Vec<u8>)
        requires
            self.options.wf(),
            chunk_wf(chunk@, self.options),
        ensures
            r@ == encode_spec(chunk@, self.options),
            r@.len() == self.options.chunk_size,
    {
        let mut packet: Vec<u8> = Vec::new();
        let next = match chunk.next {
            Some(n) => n,
            None => 0u64,
        };
        let track = match chunk.next_track {
            Some(t) => t,
            None => 0u16,
        };
        let max = self.options.max_payload();
        let size: u16 = if chunk.data.len() as u64 == max {
            0u16
        } else {
            #[verifier::truncate] (chunk.data.len() as u16)
        };
        push_u64_be(&mut packet, next);
        push_u16_be(&mut packet, size);
        push_u16_be(&mut packet, track);
        packet.push(if chunk.valid { 1u8 } else { 0u8 });
        let mut i: usize = 0;
        while i < chunk.data.len()
            invariant
                i <= chunk.data@.len(),
                packet@ == u64_be(next) + u16_be(size) + u16_be(track) + seq![
                    if chunk.valid {
                        1u8
                    } else {
                        0u8
                    },
                ] + chunk.data@.subrange(0, i as int),
            decreases chunk.data@.len() - i,
        {
            packet.push(chunk.data[i]);
            i = i + 1;
            assert(packet@ =~= u64_be(next) + u16_be(size) + u16_be(track) + seq![
                if chunk.valid {
                    1u8
                } else {
                    0u8
                },
            ] + chunk.data@.subrange(0, i as int));
        }
        assert(chunk.data@.subrange(0, chunk.data@.len() as int) =~= chunk.data@);
        let pad = (self.options.chunk_size - CHUNK_HEADER_LEN) as usize - chunk.data.len();
        extend_zeros(&mut packet, pad);
        assert(packet@ =~= encode_spec(chunk@, self.options));
        packet
    }

    /// Decodes one `chunk_size`-byte record; fails with
    /// [`Error::Format`] on a record of the wrong length or with an
    /// impossible `payload_size`.
    pub fn decoder(&self, buf: &Vec<u8>) -> (r: Result<Chunk, Error>)
        requires
            self.options.wf(),
        ensures
            match r {
                Ok(c) => decode_spec(buf@, self.options) == Some(c@),
                Err(e) => e == Error::Format && decode_spec(buf@, self.options) is None,
            },
    {
        if buf.len() as u64 != self.options.chunk_size {
            return Err(Error::Format);
        }
        let next0 = read_u64_be(buf, 0);
        let size0 = read_u16_be(buf, 8);
        let track0 = read_u16_be(buf, 10);
        let max = self.options.max_payload();
        if size0 as u64 > max {
            return Err(Error::Format);
        }
        let len: usize = if size0 == 0 {
            max as usize
        } else {
            size0 as usize
        };
        let data = copy_range(buf, CHUNK_HEADER_LEN as usize, CHUNK_HEADER_LEN as usize + len);
        let c = Chunk {
            next: if next0 == 0 {
                None
            } else {
                Some(next0)
            },
            next_track: if track0 == 0 {
                None
            } else {
                Some(track0)
            },
            valid: buf[12] == 1,
            data,
        };
        assert(c@ =~= decode_spec(buf@, self.options).unwrap());
        Ok(c)
    }
}

} // verus!
