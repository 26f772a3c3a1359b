use ringlog::errors::StorageError;
use ringlog::event::EventHeader;
use ringlog::storage::{FileHeader, MmapReader, MmapWriter};

#[test]
fn file_header_new_and_validate() {
    let fh = FileHeader::new(1234567890);
    assert_eq!(fh.version, 1);
    assert_eq!(fh.created_at, 1234567890);
    assert_eq!(fh.event_count, 0);
    assert_eq!(fh.write_offset, 64);
    assert!(fh.validate());

    let bad = FileHeader { magic: 0, ..fh };
    assert!(!bad.validate());
    let wrong_version = FileHeader { version: 2, ..fh };
    assert!(!wrong_version.validate());
}

#[test]
fn file_header_magic_bytes_spell_evil() {
    let fh = FileHeader::new(0);
    let b = fh.to_bytes();
    assert_eq!(&b[0..4], b"EVIL");
    assert_eq!(&b[4..8], &[1, 0, 0, 0]);
}

#[test]
fn create_and_write() {
    let mut writer = MmapWriter::create(4096, 0);

    for i in 0..5u64 {
        let header = EventHeader::new(i * 1000, 1, 8);
        let payload = i.to_le_bytes();
        assert!(writer.write_event(&header, &payload));
    }

    let fh = writer.file_header();
    assert_eq!(fh.event_count, 5);
}

#[test]
fn write_and_read_back() {
    let mut writer = MmapWriter::create(4096, 0);

    for i in 0..10u64 {
        let header = EventHeader::new(i * 1000, 1, 8);
        let payload = i.to_le_bytes();
        writer.write_event(&header, &payload);
    }

    let bytes = writer.into_bytes();
    let reader = MmapReader::open(bytes).unwrap();
    assert_eq!(reader.event_count(), 10);

    let events = reader.replay();
    let mut sum = 0u64;
    for event in &events {
        let val = u64::from_le_bytes(event.payload.as_slice().try_into().unwrap());
        sum += val;
    }

    assert_eq!(events.len(), 10);
    assert_eq!(sum, 45);
}

#[test]
fn iterator_works() {
    let mut writer = MmapWriter::create(4096, 0);

    for i in 0..5u64 {
        let header = EventHeader::new(i, 1, 8);
        writer.write_event(&header, &i.to_le_bytes());
    }

    let reader = MmapReader::open(writer.into_bytes()).unwrap();
    let mut it = reader.iter();
    let mut events = Vec::new();
    while let Some(event) = it.next() {
        events.push(event);
    }

    assert_eq!(events.len(), 5);
    for (i, event) in events.iter().enumerate() {
        assert_eq!(event.header.timestamp, i as u64);
    }
}

#[test]
fn reopen_existing_file() {
    let first = {
        let mut writer = MmapWriter::create(4096, 0);
        let header = EventHeader::new(0, 1, 4);
        writer.write_event(&header, b"test");
        writer.into_bytes()
    };

    let second = {
        let mut writer = MmapWriter::open(first).unwrap();
        let header = EventHeader::new(1, 1, 4);
        writer.write_event(&header, b"more");
        writer.into_bytes()
    };

    let reader = MmapReader::open(second).unwrap();
    assert_eq!(reader.event_count(), 2);
}

#[test]
fn reopen_appends_in_order() {
    let mut writer = MmapWriter::create(4096, 7);
    for i in 0..3u64 {
        assert!(writer.write_event(&EventHeader::new(i, 1, 0), &[]));
    }
    let bytes = writer.into_bytes();

    let mut writer = MmapWriter::open(bytes).unwrap();
    assert_eq!(writer.file_header().event_count, 3);
    assert_eq!(writer.file_header().created_at, 7);
    for i in 3..5u64 {
        assert!(writer.write_event(&EventHeader::new(i, 1, 0), &[]));
    }

    let reader = MmapReader::open(writer.into_bytes()).unwrap();
    assert_eq!(reader.event_count(), 5);
    let events = reader.replay();
    assert_eq!(events.len(), 5);
    for (i, event) in events.iter().enumerate() {
        assert_eq!(event.header.timestamp, i as u64);
    }
}

#[test]
fn buffer_full_returns_false() {
    let mut writer = MmapWriter::create(4096, 0);
    let header = EventHeader::new(0, 1, 2048);
    let payload = [0u8; 2048];

    let first = writer.write_event(&header, &payload);
    assert!(first);
    assert_eq!(writer.write_offset(), 2128);

    let second = writer.write_event(&header, &payload);
    assert!(!second);
    assert_eq!(writer.write_offset(), 2128);
    assert_eq!(writer.file_header().event_count, 1);
}

#[test]
fn invalid_file_returns_error() {
    let result = MmapReader::open(b"not a valid log file".to_vec());
    assert!(result.is_err());
    assert_eq!(result.err().unwrap(), StorageError::InvalidData);
}

#[test]
fn reader_rejects_short_and_corrupt_headers() {
    // shorter than the 64-byte header block
    assert!(MmapReader::open(vec![0u8; 63]).is_err());

    // right length, wrong magic
    assert!(MmapReader::open(vec![0u8; 4096]).is_err());

    // valid image with the version byte corrupted
    let writer = MmapWriter::create(4096, 0);
    let mut bytes = writer.into_bytes();
    bytes[4] = 9;
    match MmapReader::open(bytes) {
        Err(e) => assert_eq!(e, StorageError::InvalidData),
        Ok(_) => panic!("expected InvalidData"),
    }
}

#[test]
fn writer_open_rejects_corrupt_metadata() {
    // write offset pointing past the image
    let writer = MmapWriter::create(4096, 0);
    let mut bytes = writer.into_bytes();
    bytes[24] = 0xFF;
    bytes[25] = 0xFF;
    assert!(MmapWriter::open(bytes).is_err());

    // event count disagreeing with the record region
    let mut writer = MmapWriter::create(4096, 0);
    assert!(writer.write_event(&EventHeader::new(0, 1, 0), &[]));
    let mut bytes = writer.into_bytes();
    bytes[16] = 9;
    assert!(MmapWriter::open(bytes).is_err());
}

#[test]
fn capacity_is_clamped_to_4096() {
    let writer = MmapWriter::create(100, 0);
    assert_eq!(writer.image().len(), 4096);
    let writer = MmapWriter::create(8192, 0);
    assert_eq!(writer.image().len(), 8192);
}

#[test]
fn zero_payload_records_persist() {
    let mut writer = MmapWriter::create(4096, 0);
    assert!(writer.write_event(&EventHeader::new(5, 2, 0), &[]));
    let reader = MmapReader::open(writer.into_bytes()).unwrap();
    let events = reader.replay();
    assert_eq!(events.len(), 1);
    assert_eq!(events[0].header.timestamp, 5);
    assert_eq!(events[0].header.event_type, 2);
    assert!(events[0].payload.is_empty());
}

#[test]
fn replay_halts_at_truncated_record() {
    let mut writer = MmapWriter::create(4096, 0);
    assert!(writer.write_event(&EventHeader::new(1, 1, 4), b"good"));
    let mut bytes = writer.into_bytes();
    // claim one more record than the region holds by pushing the write
    // offset to the end of the image without appending record bytes
    let wo: u64 = 4096;
    bytes[24..32].copy_from_slice(&wo.to_le_bytes());
    let reader = MmapReader::open(bytes).unwrap();
    let events = reader.replay();
    // the good record is still replayed; the garbage tail parses as
    // zero-length records of timestamp zero until the region ends
    assert!(events.len() >= 1);
    assert_eq!(events[0].header.timestamp, 1);
    assert_eq!(events[0].payload, b"good".to_vec());
}
