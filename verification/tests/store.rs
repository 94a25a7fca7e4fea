use trackstore::disk::Disk;
use trackstore::track::Track;
use trackstore::{Error, KernelOptions};

const CHUNK_SIZE: u64 = 1024;
const MAX_PAYLOAD: usize = 1024 - 13;
const TRACK_SIZE: u64 = 4 * CHUNK_SIZE + 16;

fn opts() -> KernelOptions {
    KernelOptions::new(CHUNK_SIZE, TRACK_SIZE).unwrap()
}

fn fresh_store() -> Disk {
    let mut disk = Disk::new(opts());
    disk.init(Vec::new()).unwrap();
    disk
}

fn pattern(len: usize) -> Vec<u8> {
    (0..len).map(|i| (i % 251) as u8).collect()
}

fn read_be64(bytes: &[u8], at: usize) -> u64 {
    let mut v: u64 = 0;
    for i in 0..8 {
        v = (v << 8) | bytes[at + i] as u64;
    }
    v
}

#[test]
fn single_small_blob() {
    let mut disk = fresh_store();
    let handle = disk.write(b"hello").unwrap();
    assert_eq!(handle, (1, 16));
    let back = disk.read(1, 16).unwrap();
    assert_eq!(back, b"hello".to_vec());
    assert_eq!(disk.tracks[0].file.len(), 16 + CHUNK_SIZE as usize);
}

#[test]
fn multi_chunk_blob_on_one_track() {
    let mut disk = fresh_store();
    let data = pattern(MAX_PAYLOAD * 3);
    let handle = disk.write(&data).unwrap();
    assert_eq!(handle, (1, 16));
    let back = disk.read(1, 16).unwrap();
    assert_eq!(back, data);
    assert_eq!(disk.tracks[0].file.len(), 16 + 3 * CHUNK_SIZE as usize);
}

#[test]
fn cross_track_blob() {
    let mut disk = fresh_store();
    let data = pattern(MAX_PAYLOAD * 5);
    let handle = disk.write(&data).unwrap();
    assert_eq!(handle, (1, 16));
    assert_eq!(disk.tracks.len(), 2);
    let back = disk.read(1, 16).unwrap();
    assert_eq!(back, data);
    // four chunks fill track 1 to its capacity, the fifth sits at (2, 16)
    assert_eq!(disk.tracks[0].file.len(), TRACK_SIZE as usize);
    assert_eq!(disk.tracks[1].file.len(), 16 + CHUNK_SIZE as usize);
    let tail = disk.read(2, 16).unwrap();
    assert_eq!(tail, data[MAX_PAYLOAD * 4..].to_vec());
}

#[test]
fn delete_then_reuse() {
    let mut disk = fresh_store();
    let a = pattern(MAX_PAYLOAD * 3);
    let b = vec![9u8; MAX_PAYLOAD];
    let ha = disk.write(&a).unwrap();
    let hb = disk.write(&b).unwrap();
    assert_eq!(ha, (1, 16));
    assert_eq!(hb, (1, 16 + 3 * CHUNK_SIZE));
    let len_before = disk.tracks[0].file.len();
    disk.remove(ha.0, ha.1).unwrap();
    // the freed chain is reused before the file grows
    let c = pattern(MAX_PAYLOAD * 3);
    let hc = disk.write(&c).unwrap();
    assert_eq!(hc.0, 1);
    assert_eq!(hc.1, 16);
    assert_eq!(disk.tracks[0].file.len(), len_before);
    assert_eq!(disk.tracks.len(), 1);
    // all freed slots are taken again
    assert_eq!(disk.tracks[0].free_start, 0);
    assert_eq!(disk.tracks[0].free_end, 0);
    assert_eq!(disk.read(hc.0, hc.1).unwrap(), c);
    assert_eq!(disk.read(hb.0, hb.1).unwrap(), b);
}

#[test]
fn reopen_recovers_free_list() {
    let mut disk = fresh_store();
    let a = pattern(MAX_PAYLOAD * 3);
    let b = vec![9u8; MAX_PAYLOAD];
    let ha = disk.write(&a).unwrap();
    let hb = disk.write(&b).unwrap();
    disk.remove(ha.0, ha.1).unwrap();
    let free_head = disk.tracks[0].free_start;
    let free_tail = disk.tracks[0].free_end;
    assert_ne!(free_head, 0);
    // close: persist every track's header, keep the file bytes
    let mut files: Vec<Vec<u8>> = Vec::new();
    for t in disk.tracks.iter_mut() {
        t.write_end();
        files.push(t.file.clone());
    }
    let len_before = files[0].len();
    // re-open over the same bytes
    let mut disk = Disk::new(opts());
    disk.init(files).unwrap();
    assert_eq!(disk.tracks[0].free_start, free_head);
    assert_eq!(disk.tracks[0].free_end, free_tail);
    // a two-chunk blob reuses free slots without growing the file
    let d = pattern(MAX_PAYLOAD * 2);
    let hd = disk.write(&d).unwrap();
    assert_eq!(disk.tracks[0].file.len(), len_before);
    assert_eq!(disk.read(hd.0, hd.1).unwrap(), d);
    assert_eq!(disk.read(hb.0, hb.1).unwrap(), b);
    // the header bounds now name the one remaining free slot
    assert_eq!(disk.tracks[0].free_start, disk.tracks[0].free_end);
    assert_ne!(disk.tracks[0].free_start, 0);
}

#[test]
fn remove_cross_track_blob() {
    let mut disk = fresh_store();
    let data = pattern(MAX_PAYLOAD * 5);
    let handle = disk.write(&data).unwrap();
    assert_eq!(disk.tracks.len(), 2);
    let len0 = disk.tracks[0].file.len();
    let len1 = disk.tracks[1].file.len();
    disk.remove(handle.0, handle.1).unwrap();
    // every slot of both tracks is dead now
    for off in [16usize, 1040, 2064, 3088] {
        assert_eq!(disk.tracks[0].file[off + 12], 0);
    }
    assert_eq!(disk.tracks[1].file[16 + 12], 0);
    // a same-size blob grows neither file
    let again = pattern(MAX_PAYLOAD * 5);
    let h2 = disk.write(&again).unwrap();
    assert_eq!(disk.tracks[0].file.len(), len0);
    assert_eq!(disk.tracks[1].file.len(), len1);
    assert_eq!(disk.read(h2.0, h2.1).unwrap(), again);
}

#[test]
fn isolation_of_blobs() {
    let mut disk = fresh_store();
    let one = pattern(MAX_PAYLOAD + 100);
    let h1 = disk.write(&one).unwrap();
    let before = disk.read(h1.0, h1.1).unwrap();
    let two = vec![0xaau8; 50];
    let h2 = disk.write(&two).unwrap();
    assert_ne!(h1, h2);
    // the first blob reads back unchanged after the second write
    let after = disk.read(h1.0, h1.1).unwrap();
    assert_eq!(before, after);
    assert_eq!(after, one);
    assert_eq!(disk.read(h2.0, h2.1).unwrap(), two);
}

#[test]
fn round_trip_many_sizes() {
    for len in [1usize, 2, MAX_PAYLOAD - 1, MAX_PAYLOAD, MAX_PAYLOAD + 1, 2 * MAX_PAYLOAD, 3000] {
        let mut disk = fresh_store();
        let data = pattern(len);
        let h = disk.write(&data).unwrap();
        assert_eq!(disk.read(h.0, h.1).unwrap(), data);
    }
}

#[test]
fn empty_blob_is_refused() {
    let mut disk = fresh_store();
    assert!(matches!(disk.write(&[]), Err(Error::Empty)));
}

#[test]
fn file_sizes_never_shrink() {
    let mut disk = fresh_store();
    let mut high: Vec<usize> = Vec::new();
    let mut check = |disk: &Disk, high: &mut Vec<usize>| {
        for (i, t) in disk.tracks.iter().enumerate() {
            if i == high.len() {
                high.push(0);
            }
            assert!(t.file.len() >= high[i]);
            high[i] = t.file.len();
        }
    };
    let a = pattern(MAX_PAYLOAD * 4);
    let ha = disk.write(&a).unwrap();
    check(&disk, &mut high);
    disk.remove(ha.0, ha.1).unwrap();
    check(&disk, &mut high);
    let b = pattern(MAX_PAYLOAD * 2);
    disk.write(&b).unwrap();
    check(&disk, &mut high);
    let c = pattern(MAX_PAYLOAD * 5);
    disk.write(&c).unwrap();
    check(&disk, &mut high);
}

#[test]
fn free_list_reaches_tail_without_repetition() {
    let mut disk = fresh_store();
    let a = pattern(MAX_PAYLOAD * 3);
    let ha = disk.write(&a).unwrap();
    disk.remove(ha.0, ha.1).unwrap();
    let track = &disk.tracks[0];
    assert_ne!(track.free_start, 0);
    // follow next_offset from free_head: it must reach free_tail in
    // exactly three steps, visiting three distinct slots
    let mut seen: Vec<u64> = Vec::new();
    let mut at = track.free_start;
    loop {
        assert!(!seen.contains(&at));
        seen.push(at);
        let next = read_be64(&track.file, at as usize);
        if next == 0 {
            break;
        }
        at = next;
    }
    assert_eq!(at, track.free_end);
    assert_eq!(seen.len(), 3);
    // the in-band header already names the free head
    assert_eq!(read_be64(&track.file, 0), track.free_start);
}

#[test]
fn header_round_trip_through_write_end() {
    let mut disk = fresh_store();
    let a = pattern(MAX_PAYLOAD * 2);
    let ha = disk.write(&a).unwrap();
    disk.remove(ha.0, ha.1).unwrap();
    let t = &mut disk.tracks[0];
    let head = t.free_start;
    let tail = t.free_end;
    t.write_end();
    let mut back = Track::new(1, opts(), t.file.clone());
    back.init().unwrap();
    assert_eq!(back.free_start, head);
    assert_eq!(back.free_end, tail);
    assert_eq!(back.size, t.size);
}

#[test]
fn track_allocate_reuses_before_extending() {
    let mut disk = fresh_store();
    let a = vec![1u8; MAX_PAYLOAD];
    let ha = disk.write(&a).unwrap();
    let len = disk.tracks[0].file.len();
    disk.remove(ha.0, ha.1).unwrap();
    let t = &mut disk.tracks[0];
    assert_eq!(t.free_start, 16);
    // the freed slot comes back before the file grows
    let off = t.allocate().unwrap();
    assert_eq!(off, 16);
    assert_eq!(t.file.len(), len);
    assert_eq!(t.free_start, 0);
    assert_eq!(t.free_end, 0);
    // with no free chunk the file is extended at the tail
    let off2 = t.allocate().unwrap();
    assert_eq!(off2, len as u64);
    assert_eq!(t.file.len(), len + CHUNK_SIZE as usize);
}

#[test]
fn init_rejects_truncated_file() {
    let mut disk = Disk::new(opts());
    let bad = vec![0u8; 17];
    assert!(matches!(disk.init(vec![bad]), Err(Error::Format)));
}

#[test]
fn init_rejects_broken_header() {
    let mut disk = Disk::new(opts());
    // free_head = 8 names no chunk slot
    let mut bad = vec![0u8; 16 + CHUNK_SIZE as usize];
    bad[7] = 8;
    assert!(matches!(disk.init(vec![bad]), Err(Error::Invariant)));
}

#[test]
fn read_of_bad_handle_fails() {
    let disk = fresh_store();
    assert!(matches!(disk.read(1, 17), Err(Error::Invariant)));
    assert!(matches!(disk.read(5, 16), Err(Error::Invariant)));
}

#[test]
fn read_detects_looping_chain() {
    let mut disk = fresh_store();
    let a = pattern(MAX_PAYLOAD * 2);
    disk.write(&a).unwrap();
    // corrupt the first chunk to point at itself
    let t = &mut disk.tracks[0];
    t.file[16..24].copy_from_slice(&[0, 0, 0, 0, 0, 0, 0, 16]);
    assert!(matches!(disk.read(1, 16), Err(Error::Invariant)));
}

#[test]
fn remove_terminates_on_looping_chain() {
    let mut disk = fresh_store();
    let a = pattern(MAX_PAYLOAD * 2);
    disk.write(&a).unwrap();
    // corrupt the second chunk to point back at the first
    let t = &mut disk.tracks[0];
    t.file[1040..1048].copy_from_slice(&[0, 0, 0, 0, 0, 0, 0, 16]);
    // the cycle is reported instead of walked forever
    assert!(matches!(disk.remove(1, 16), Err(Error::Invariant)));
}

#[test]
fn reopen_across_two_tracks() {
    let mut disk = fresh_store();
    let data = pattern(MAX_PAYLOAD * 5);
    let h = disk.write(&data).unwrap();
    let mut files: Vec<Vec<u8>> = Vec::new();
    for t in disk.tracks.iter_mut() {
        t.write_end();
        files.push(t.file.clone());
    }
    let mut disk = Disk::new(opts());
    disk.init(files).unwrap();
    assert_eq!(disk.tracks.len(), 2);
    assert_eq!(disk.read(h.0, h.1).unwrap(), data);
}

#[test]
fn capacity_exhausted_when_track_ids_run_out() {
    // the smallest legal geometry: one payload byte per chunk, one
    // chunk per track
    let options = KernelOptions::new(14, 30).unwrap();
    let mut disk = Disk::new(options);
    disk.init(Vec::new()).unwrap();
    let just_fits = vec![3u8; 0xffff];
    let h = disk.write(&just_fits).unwrap();
    assert_eq!(h, (1, 16));
    assert_eq!(disk.tracks.len(), 0xffff);
    assert_eq!(disk.read(h.0, h.1).unwrap(), just_fits);
    let mut disk = Disk::new(options);
    disk.init(Vec::new()).unwrap();
    let too_big = vec![3u8; 0xffff + 1];
    assert!(matches!(disk.write(&too_big), Err(Error::Capacity)));
}

#[test]
fn options_reject_impossible_geometry() {
    // the chunk header needs 13 bytes, a track its 16-byte header
    // plus at least one chunk, and a payload length must fit 16 bits
    assert!(KernelOptions::new(13, 4096).is_none());
    assert!(KernelOptions::new(14, 29).is_none());
    assert!(KernelOptions::new(0xffff + 14, 0xffffff).is_none());
    assert!(KernelOptions::new(14, 30).is_some());
    assert!(KernelOptions::new(0xffff + 13, 0xffffff).is_some());
}

#[test]
fn read_rejects_corrupt_record() {
    let mut disk = fresh_store();
    disk.write(b"hello").unwrap();
    // an impossible payload_size in the stored record
    let t = &mut disk.tracks[0];
    t.file[16 + 8] = 0x07;
    t.file[16 + 9] = 0xd0;
    assert!(matches!(disk.read(1, 16), Err(Error::Format)));
}

#[test]
fn remove_of_unknown_track_is_quiet() {
    let mut disk = fresh_store();
    assert!(disk.remove(7, 16).is_ok());
}
