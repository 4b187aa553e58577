use mineral_wal::codec::{checksum, encode_frame, Entry, KIND_FIRST, KIND_FULL, KIND_LAST, KIND_MIDDLE};
use mineral_wal::layout::fragment;
use mineral_wal::naming::segment_id_of_name;
use mineral_wal::payload::{Payload, OP_ADD};
use mineral_wal::recovery::scan_records;
use mineral_wal::segment::Wlog;
use mineral_wal::storage::{MemStore, WalStorage};
use mineral_wal::wal::{log_versions, should_rotate, Wal};
use mineral_wal::WalError;

fn versions(wal: &Wal<MemStore>, min: u64) -> Vec<u64> {
    wal.read_range(min).unwrap().iter().map(|r| r.version).collect()
}

#[test]
fn test_add() {
    let mut wal = Wal::new(MemStore::new(0)).unwrap();
    assert!(wal.truncate_all().is_ok());
    let app_result = wal.append(&vec![3u8; 20]);
    assert!(app_result.is_ok());
    let recs = wal.read_range(0).unwrap();
    assert_eq!(recs.len(), 1);
    assert_eq!(recs[0].data, vec![3u8; 20]);
    assert_eq!(recs[0].version, 1);
}

#[test]
fn checksum_is_crc32() {
    assert_eq!(checksum(b"123456789"), 0xCBF4_3926);
    assert_eq!(checksum(b""), 0);
}

#[test]
fn frame_header_layout() {
    let f = encode_frame(KIND_FULL, b"hello");
    assert_eq!(f.len(), 12);
    let crc = crc32fast::hash(b"hello");
    assert_eq!(&f[0..4], &crc.to_be_bytes());
    assert_eq!(&f[4..7], &[0u8, 5, 4]);
    assert_eq!(&f[7..], b"hello");
}

#[test]
fn frame_round_trip() {
    for kind in [KIND_FULL, KIND_FIRST, KIND_MIDDLE, KIND_LAST] {
        let payload: Vec<u8> = (0..300u32).map(|i| (i * 7) as u8).collect();
        let f = encode_frame(kind, &payload);
        let e = Entry::decode(&f).unwrap();
        assert_eq!(e.payload, payload);
        assert_eq!(e.header.stype, kind);
        assert_eq!(e.header.dlen as usize, payload.len());
        assert_eq!(e.header.crc32, crc32fast::hash(&payload));
        assert_eq!(e.encode(), f);
    }
}

#[test]
fn decode_rejects_bad_checksum() {
    let mut f = encode_frame(KIND_FULL, b"payload");
    let last = f.len() - 1;
    f[last] ^= 0xff;
    assert!(matches!(Entry::decode(&f), Err(WalError::InvalidFrameData)));
}

#[test]
fn decode_rejects_short_input() {
    let f = encode_frame(KIND_FULL, b"payload");
    assert!(matches!(Entry::decode(&f[..5]), Err(WalError::InvalidFrameData)));
    assert!(matches!(Entry::decode(&f[..f.len() - 1]), Err(WalError::InvalidFrameData)));
}

#[test]
fn fragment_fits_in_one_frame() {
    let out = fragment(&[9u8; 10], 0);
    assert_eq!(out, encode_frame(KIND_FULL, &[9u8; 10]));
}

#[test]
fn fragment_splits_at_page_boundary() {
    let data: Vec<u8> = (0..40000u32).map(|i| i as u8).collect();
    let out = fragment(&data, 0);
    assert_eq!(out.len(), 40000 + 14);
    assert_eq!(out[6], KIND_FIRST);
    assert_eq!(&out[4..6], &[0x7f, 0xf9]);
    assert_eq!(out[32768 + 6], KIND_LAST);
    let mut joined = out[7..32768].to_vec();
    joined.extend_from_slice(&out[32768 + 7..]);
    assert_eq!(joined, data);
}

#[test]
fn fragment_uses_middle_frames() {
    let data = vec![5u8; 70000];
    let out = fragment(&data, 0);
    assert_eq!(out[6], KIND_FIRST);
    assert_eq!(out[32768 + 6], KIND_MIDDLE);
    assert_eq!(out[65536 + 6], KIND_LAST);
    assert_eq!(out.len(), 70000 + 21);
}

#[test]
fn fragment_pads_short_page_tail() {
    let out = fragment(&[1u8; 10], 32763);
    assert_eq!(out.len(), 5 + 17);
    assert_eq!(&out[..5], &[0u8; 5]);
    assert_eq!(out[5 + 6], KIND_FULL);
}

#[test]
fn fragment_mid_page_fills_page() {
    let out = fragment(&[2u8; 100], 32700);
    // 68 bytes left in the page: a First frame with 61 payload bytes
    assert_eq!(out[6], KIND_FIRST);
    assert_eq!(&out[4..6], &[0u8, 61]);
    assert_eq!(out[68 + 6], KIND_LAST);
    assert_eq!(out.len(), 68 + 7 + 39);
}

#[test]
fn scan_recovers_records() {
    let mut rec = vec![7u8; 50000];
    rec.extend_from_slice(&42u64.to_le_bytes());
    let mut bytes = fragment(&rec, 0);
    let mut rec2 = vec![1u8, 2, 3];
    rec2.extend_from_slice(&43u64.to_le_bytes());
    let more = fragment(&rec2, bytes.len() as u64);
    bytes.extend_from_slice(&more);
    let recs = scan_records(&bytes);
    assert_eq!(recs.len(), 2);
    assert_eq!(recs[0].data, vec![7u8; 50000]);
    assert_eq!(recs[0].version, 42);
    assert_eq!(recs[1].data, vec![1u8, 2, 3]);
    assert_eq!(recs[1].version, 43);
}

#[test]
fn scan_stops_at_torn_frame() {
    let mut rec = vec![4u8; 30];
    rec.extend_from_slice(&1u64.to_le_bytes());
    let mut bytes = fragment(&rec, 0);
    let n = bytes.len();
    let mut rec2 = vec![5u8; 30];
    rec2.extend_from_slice(&2u64.to_le_bytes());
    bytes.extend_from_slice(&fragment(&rec2, n as u64));
    for cut in n..bytes.len() {
        let recs = scan_records(&bytes[..cut]);
        assert_eq!(recs.len(), 1);
        assert_eq!(recs[0].version, 1);
    }
    assert_eq!(scan_records(&bytes).len(), 2);
}

#[test]
fn scan_stops_at_bad_checksum() {
    let mut rec = vec![4u8; 30];
    rec.extend_from_slice(&1u64.to_le_bytes());
    let mut bytes = fragment(&rec, 0);
    let n = bytes.len();
    bytes.extend_from_slice(&fragment(&rec, n as u64));
    bytes[n + 10] ^= 1;
    assert_eq!(scan_records(&bytes).len(), 1);
}

#[test]
fn versions_are_consecutive() {
    let mut wal = Wal::new(MemStore::new(0)).unwrap();
    for i in 0..5u8 {
        wal.append(&vec![i; 3]).unwrap();
    }
    assert_eq!(versions(&wal, 0), vec![1, 2, 3, 4, 5]);
    let recs = wal.read_range(0).unwrap();
    assert_eq!(recs[2].data, vec![2u8; 3]);
}

#[test]
fn restart_resumes_sequence() {
    let mut wal = Wal::new(MemStore::new(0)).unwrap();
    for _ in 0..3 {
        wal.append(&[1u8, 2, 3]).unwrap();
    }
    let store = wal.store;
    let mut wal = Wal::new(store).unwrap();
    assert_eq!(wal.seq, 3);
    wal.append(&[9u8]).unwrap();
    assert_eq!(versions(&wal, 0), vec![1, 2, 3, 4]);
}

#[test]
fn rotation_by_size() {
    let mut wal = Wal::new(MemStore::new(0)).unwrap();
    wal.file_max_size = 120;
    for _ in 0..4 {
        wal.append(&[6u8; 40]).unwrap();
    }
    // each record takes 48 bytes and a 7-byte header: two fit in a segment
    assert_eq!(wal.log_version_list, vec![0, 3]);
    assert_eq!(wal.wlog.version, 3);
    assert_eq!(wal.store.size(0).unwrap(), 110);
    assert_eq!(wal.store.size(3).unwrap(), 110);
    assert_eq!(versions(&wal, 0), vec![1, 2, 3, 4]);
    assert_eq!(versions(&wal, 3), vec![3, 4]);
    wal.append(&[6u8; 40]).unwrap();
    assert_eq!(wal.wlog.version, 5);
    assert_eq!(wal.store.size(3).unwrap(), 110);
    let store = wal.store;
    let wal = Wal::new(store).unwrap();
    assert_eq!(wal.log_version_list, vec![0, 3, 5]);
    assert_eq!(wal.seq, 5);
}

#[test]
fn rotation_by_age() {
    let mut wal = Wal::new(MemStore::new(1000)).unwrap();
    wal.append(&[1u8]).unwrap();
    wal.store.set_clock(1000 + 1801);
    wal.append(&[2u8]).unwrap();
    assert_eq!(wal.wlog.version, 2);
    wal.append(&[3u8]).unwrap();
    assert_eq!(wal.wlog.version, 2);
    assert_eq!(versions(&wal, 0), vec![1, 2, 3]);
}

#[test]
fn torn_last_write_is_dropped() {
    let mut wal = Wal::new(MemStore::new(0)).unwrap();
    for i in 0..3u8 {
        wal.append(&vec![i; 20]).unwrap();
    }
    let size = wal.store.size(0).unwrap() as usize;
    wal.store.cut(0, size - 4);
    assert_eq!(versions(&wal, 0), vec![1, 2]);
}

#[test]
fn empty_newest_segment_reads_previous_tail() {
    let mut store = MemStore::new(0);
    let mut rec = vec![1u8];
    rec.extend_from_slice(&7u64.to_le_bytes());
    store.append(0, &fragment(&rec, 0)).unwrap();
    store.append(9, &[]).unwrap();
    let wal = Wal::new(store).unwrap();
    assert_eq!(wal.log_version_list, vec![0, 9]);
    assert_eq!(wal.seq, 7);
}

#[test]
fn short_tail_is_corrupt() {
    let mut store = MemStore::new(0);
    store.append(0, &[1u8, 2, 3]).unwrap();
    assert!(matches!(Wal::new(store), Err(WalError::CorruptSegmentTail)));
}

#[test]
fn segment_tail_version() {
    let mut store = MemStore::new(0);
    let mut w = Wlog::new(&store, 4).unwrap();
    let mut rec = vec![8u8; 5];
    rec.extend_from_slice(&77u64.to_le_bytes());
    w.append(&mut store, &rec).unwrap();
    assert_eq!(w.file_size, 20);
    assert_eq!(w.get_latest_version(&store).unwrap(), 77);
    let recs = w.read_all(&store).unwrap();
    assert_eq!(recs.len(), 1);
    assert_eq!(recs[0].data, vec![8u8; 5]);
    w.close();
    w.delete(&mut store).unwrap();
    assert_eq!(store.size(4).unwrap(), 0);
}

#[test]
fn sequence_exhausted() {
    let mut wal = Wal::new(MemStore::new(0)).unwrap();
    wal.seq = u64::MAX;
    assert!(matches!(wal.append(&[1u8]), Err(WalError::SequenceExhausted)));
}

#[test]
fn truncate_resets() {
    let mut wal = Wal::new(MemStore::new(0)).unwrap();
    wal.file_max_size = 50;
    for _ in 0..3 {
        wal.append(&[1u8; 30]).unwrap();
    }
    assert!(wal.log_version_list.len() > 1);
    wal.truncate_all().unwrap();
    assert_eq!(wal.seq, 0);
    assert_eq!(wal.log_version_list, vec![0]);
    assert!(wal.store.segment_ids().is_empty());
    assert!(versions(&wal, 0).is_empty());
}

#[test]
fn discovery_sorts_ids() {
    assert_eq!(log_versions(&[5, 1, 3, 1]), vec![1, 3, 5]);
    assert_eq!(log_versions(&[]), vec![0]);
}

#[test]
fn rotation_rule() {
    assert!(should_rotate(10, 95, 100, 0, 0));
    assert!(!should_rotate(5, 95, 100, 0, 0));
    assert!(should_rotate(0, 0, 100, 1800, 1801));
    assert!(!should_rotate(0, 0, 100, 1800, 1800));
    assert!(!should_rotate(0, 0, 100, 0, 99999));
}

#[test]
fn payload_wire_form() {
    let p = Payload::new(OP_ADD, 0x01020304, &[0xaa, 0xbb], 5);
    assert_eq!(p.encode(), vec![1, 4, 3, 2, 1, 0xaa, 0xbb, 5, 0, 0, 0, 0, 0, 0, 0]);
}

#[test]
fn segment_names_parse() {
    assert_eq!(segment_id_of_name(b"@wal-0"), Some(0));
    assert_eq!(segment_id_of_name(b"@wal-12345"), Some(12345));
    assert_eq!(segment_id_of_name(b"@wal-18446744073709551615"), Some(u64::MAX));
    assert_eq!(segment_id_of_name(b"@wal-18446744073709551616"), None);
    assert_eq!(segment_id_of_name(b"@wal-"), None);
    assert_eq!(segment_id_of_name(b"@wal-12a"), None);
    assert_eq!(segment_id_of_name(b"77"), Some(77));
}

#[test]
fn fragment_header_sized_tail_gets_empty_first_frame() {
    let out = fragment(&[1u8; 10], 32761);
    assert_eq!(out.len(), 7 + 17);
    assert_eq!(&out[4..7], &[0u8, 0, KIND_FIRST]);
    assert_eq!(out[7 + 6], KIND_LAST);
    let mut bytes: Vec<u8> = Vec::new();
    let mut first = vec![9u8; 32754 - 8];
    first.extend_from_slice(&1u64.to_le_bytes());
    bytes.extend_from_slice(&fragment(&first, 0));
    assert_eq!(bytes.len(), 32761);
    let mut second = vec![3u8; 2];
    second.extend_from_slice(&2u64.to_le_bytes());
    bytes.extend_from_slice(&fragment(&second, 32761));
    let recs = scan_records(&bytes);
    assert_eq!(recs.len(), 2);
    assert_eq!(recs[1].data, vec![3u8; 2]);
    assert_eq!(recs[1].version, 2);
}

#[test]
fn segment_size_limit() {
    let mut store = MemStore::new(0);
    let mut w = Wlog::new(&store, 0).unwrap();
    w.file_size = 0x1_0000_0000;
    assert!(matches!(w.append(&mut store, &[1u8; 9]), Err(WalError::SegmentFull)));
}
