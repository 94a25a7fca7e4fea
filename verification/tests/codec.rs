use trackstore::chunk::{Chunk, Codec};
use trackstore::{Error, KernelOptions};

fn opts() -> KernelOptions {
    KernelOptions::new(1024, 4 * 1024 + 16).unwrap()
}

const MAX_PAYLOAD: usize = 1024 - 13;

#[test]
fn encode_small_chunk_exact_bytes() {
    let codec = Codec::new(opts());
    let chunk = Chunk {
        next: Some(17),
        next_track: None,
        valid: true,
        data: b"hello".to_vec(),
    };
    let packet = codec.encoder(&chunk);
    assert_eq!(packet.len(), 1024);
    // next_offset = 17, big-endian
    assert_eq!(&packet[0..8], &[0, 0, 0, 0, 0, 0, 0, 17]);
    // payload_size = 5
    assert_eq!(&packet[8..10], &[0, 5]);
    // next_track absent = 0
    assert_eq!(&packet[10..12], &[0, 0]);
    // valid flag
    assert_eq!(packet[12], 1);
    // payload, then zero padding
    assert_eq!(&packet[13..18], b"hello");
    assert!(packet[18..].iter().all(|b| *b == 0));
}

#[test]
fn decode_inverts_encode() {
    let codec = Codec::new(opts());
    let chunk = Chunk {
        next: Some(3088),
        next_track: Some(2),
        valid: true,
        data: (0..200u16).map(|i| (i % 256) as u8).collect(),
    };
    let packet = codec.encoder(&chunk);
    let back = codec.decoder(&packet).unwrap();
    assert_eq!(back.next, chunk.next);
    assert_eq!(back.next_track, chunk.next_track);
    assert_eq!(back.valid, chunk.valid);
    assert_eq!(back.data, chunk.data);
}

#[test]
fn full_payload_uses_size_sentinel() {
    let codec = Codec::new(opts());
    let chunk = Chunk {
        next: None,
        next_track: None,
        valid: true,
        data: vec![7u8; MAX_PAYLOAD],
    };
    let packet = codec.encoder(&chunk);
    // the on-disk sentinel 0 stands for "exactly the maximum"
    assert_eq!(&packet[8..10], &[0, 0]);
    let back = codec.decoder(&packet).unwrap();
    assert_eq!(back.data.len(), MAX_PAYLOAD);
    assert_eq!(back.data, chunk.data);
    assert_eq!(back.next, None);
}

#[test]
fn decode_rejects_wrong_length() {
    let codec = Codec::new(opts());
    let packet = vec![0u8; 1023];
    assert!(matches!(codec.decoder(&packet), Err(Error::Format)));
}

#[test]
fn decode_rejects_impossible_payload_size() {
    let codec = Codec::new(opts());
    let mut packet = vec![0u8; 1024];
    // payload_size = 2000 > MAX_PAYLOAD
    packet[8] = 0x07;
    packet[9] = 0xd0;
    assert!(matches!(codec.decoder(&packet), Err(Error::Format)));
}

#[test]
fn zero_next_offset_decodes_to_absent() {
    let codec = Codec::new(opts());
    let chunk = Chunk {
        next: None,
        next_track: None,
        valid: false,
        data: vec![1u8],
    };
    let packet = codec.encoder(&chunk);
    let back = codec.decoder(&packet).unwrap();
    assert_eq!(back.next, None);
    assert_eq!(back.next_track, None);
    assert!(!back.valid);
}
