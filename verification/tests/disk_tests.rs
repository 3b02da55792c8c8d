use vector_buffers::{Event, Outcome, WhenFull};
use vector_buffers::disk_v1::DiskV1Stage;
use vector_buffers::disk_v2::DiskV2Stage;
use vector_buffers::record::{crc32, encode_record, parse_segment};

fn payload(i: u32, len: usize) -> Vec<u8> {
    let mut p = vec![0u8; len];
    p[0] = (i >> 8) as u8;
    p[1] = i as u8;
    p
}

#[test]
fn crc32_matches_the_check_value() {
    // The standard check value of CRC-32 (IEEE, reflected).
    assert_eq!(crc32(b"123456789"), 0xCBF4_3926);
    assert_eq!(crc32(b""), 0);
}

#[test]
fn record_round_trip() {
    let mut bytes = Vec::new();
    bytes.extend_from_slice(&encode_record(b"alpha"));
    bytes.extend_from_slice(&encode_record(b"beta"));
    bytes.extend_from_slice(&encode_record(b""));
    let (records, lost) = parse_segment(&bytes);
    assert_eq!(records, vec![b"alpha".to_vec(), b"beta".to_vec(), Vec::new()]);
    assert!(!lost);
}

#[test]
fn record_truncation_terminates_segment() {
    let mut bytes = Vec::new();
    bytes.extend_from_slice(&encode_record(b"alpha"));
    let second = encode_record(b"beta");
    bytes.extend_from_slice(&second[..second.len() - 2]);
    let (records, lost) = parse_segment(&bytes);
    assert_eq!(records, vec![b"alpha".to_vec()]);
    assert!(lost);
}

#[test]
fn record_corruption_terminates_segment() {
    let mut bytes = Vec::new();
    bytes.extend_from_slice(&encode_record(b"alpha"));
    let mut second = encode_record(b"beta");
    let n = second.len();
    second[n - 1] ^= 0xFF;
    bytes.extend_from_slice(&second);
    let (records, lost) = parse_segment(&bytes);
    assert_eq!(records, vec![b"alpha".to_vec()]);
    assert!(lost);
}

#[test]
fn disk_v2_crash_recovery() {
    // Push a hundred 100-byte events; after a kill that truncated the tail
    // mid-record, reopening yields the first ninety-nine in order and one
    // counted loss.
    let mut stage = DiskV2Stage::new(1_048_576, WhenFull::Block);
    for i in 0..100u32 {
        assert_eq!(stage.push(Event::new(payload(i, 100))), Outcome::Accepted);
    }
    let mut dumps = stage.dump();
    let tail = dumps.last_mut().unwrap();
    let cut = tail.len() - 50;
    tail.truncate(cut);
    let mut recovered = DiskV2Stage::recover(dumps, 1_048_576, WhenFull::Block).unwrap();
    assert_eq!(recovered.lost_count(), 1);
    for i in 0..99u32 {
        let e = recovered.pop().unwrap();
        assert_eq!(e.into_bytes(), payload(i, 100));
    }
    assert!(recovered.pop().is_none());
}

#[test]
fn disk_v2_clean_shutdown_round_trip() {
    // After a clean shutdown every accepted event comes back, in push
    // order, with nothing lost.
    let mut stage = DiskV2Stage::new(1_048_576, WhenFull::Block);
    for i in 0..100u32 {
        assert_eq!(stage.push(Event::new(payload(i, 100))), Outcome::Accepted);
    }
    let dumps = stage.dump();
    let mut recovered = DiskV2Stage::recover(dumps, 1_048_576, WhenFull::Block).unwrap();
    assert_eq!(recovered.lost_count(), 0);
    for i in 0..100u32 {
        assert_eq!(recovered.pop().unwrap().into_bytes(), payload(i, 100));
    }
    assert!(recovered.pop().is_none());
}

#[test]
fn disk_v2_honors_byte_watermark() {
    // max_size 300: each 100-byte payload takes 108 bytes on disk, so the
    // third push no longer fits.
    let mut stage = DiskV2Stage::new(300, WhenFull::Block);
    assert_eq!(stage.push(Event::new(payload(1, 100))), Outcome::Accepted);
    assert_eq!(stage.push(Event::new(payload(2, 100))), Outcome::Accepted);
    assert_eq!(stage.push(Event::new(payload(3, 100))), Outcome::Full);
    assert_eq!(stage.len_bytes(), 216);
    // Acknowledged space is reclaimed once the head segment is fully acked.
    let _ = stage.pop().unwrap();
    let _ = stage.pop().unwrap();
    stage.ack(2);
    assert_eq!(stage.len_bytes(), 0);
    assert_eq!(stage.push(Event::new(payload(3, 100))), Outcome::Accepted);
}

#[test]
fn disk_v2_recover_rejects_oversized_image() {
    let mut stage = DiskV2Stage::new(1_048_576, WhenFull::Block);
    for i in 0..10u32 {
        assert_eq!(stage.push(Event::new(payload(i, 100))), Outcome::Accepted);
    }
    let dumps = stage.dump();
    assert!(DiskV2Stage::recover(dumps, 500, WhenFull::Block).is_none());
}

#[test]
fn disk_v2_meta_skips_released_records() {
    // The metadata file records the acknowledged-through position; a
    // reopened stage skips that many records and delivers the rest.
    let mut stage = DiskV2Stage::new(10_000, WhenFull::Block);
    for i in 0..5u32 {
        assert_eq!(stage.push(Event::new(payload(i, 20))), Outcome::Accepted);
    }
    let _ = stage.pop().unwrap();
    let _ = stage.pop().unwrap();
    let _ = stage.pop().unwrap();
    stage.ack(2);
    assert_eq!(stage.acked_position(), 2);
    let dumps = stage.dump();
    let meta = stage.acked_position();
    let mut recovered = DiskV2Stage::recover(dumps, 10_000, WhenFull::Block).unwrap();
    recovered.skip_acknowledged(meta);
    for i in 2..5u32 {
        assert_eq!(recovered.pop().unwrap().into_bytes(), payload(i, 20));
    }
    assert!(recovered.pop().is_none());
}

#[test]
fn disk_v1_reopen_redelivers_in_key_order() {
    let mut stage = DiskV1Stage::new(1_000, WhenFull::Block);
    for i in 0..5u32 {
        assert_eq!(stage.push(Event::new(payload(i, 10))), Outcome::Accepted);
    }
    // Two events popped but unacknowledged stay on disk.
    let _ = stage.pop().unwrap();
    let _ = stage.pop().unwrap();
    let mut reopened = stage.reopen();
    assert_eq!(reopened.in_flight(), 0);
    for i in 0..5u32 {
        assert_eq!(reopened.pop().unwrap().into_bytes(), payload(i, 10));
    }
    assert!(reopened.pop().is_none());
}

#[test]
fn disk_v1_watermark_and_drop_newest() {
    let mut stage = DiskV1Stage::new(25, WhenFull::DropNewest);
    assert_eq!(stage.push(Event::new(payload(1, 10))), Outcome::Accepted);
    assert_eq!(stage.push(Event::new(payload(2, 10))), Outcome::Accepted);
    assert_eq!(stage.push(Event::new(payload(3, 10))), Outcome::Dropped);
    assert_eq!(stage.drop_count(), 1);
    assert_eq!(stage.len_bytes(), 20);
    let _ = stage.pop().unwrap();
    // Space is reclaimed only at acknowledgement.
    assert_eq!(stage.len_bytes(), 20);
    stage.ack(1);
    assert_eq!(stage.len_bytes(), 10);
    assert_eq!(stage.push(Event::new(payload(3, 10))), Outcome::Accepted);
}
