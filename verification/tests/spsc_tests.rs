use ringlog::event::EventHeader;
use ringlog::spsc::SpscRingBuffer;

#[test]
fn spsc_starts_empty() {
    let ring = SpscRingBuffer::new(1024);
    assert!(ring.is_empty());
}

#[test]
fn spsc_round_trips_one_record() {
    let mut ring = SpscRingBuffer::new(1024);
    let header = EventHeader::new(1000, 1, 8);
    assert!(ring.write_event(&header, b"testdata"));
    assert!(!ring.is_empty());

    let (h, p) = ring.read_event().unwrap();
    assert_eq!(h.timestamp, 1000);
    assert_eq!(h.event_type, 1);
    assert_eq!(h.payload_len, 8);
    assert_eq!(p, b"testdata".to_vec());
    assert!(ring.is_empty());
}

#[test]
fn spsc_preserves_fifo_order() {
    let mut ring = SpscRingBuffer::new(1024);
    for i in 0..20u64 {
        let header = EventHeader::new(i, (i % 256) as u8, 16);
        let payload = [i as u8; 16];
        assert!(ring.write_event(&header, &payload));
    }
    for i in 0..20u64 {
        let (h, p) = ring.read_event().unwrap();
        assert_eq!(h.timestamp, i);
        assert_eq!(p, vec![i as u8; 16]);
    }
    assert!(ring.read_event().is_none());
}

#[test]
fn spsc_full_write_returns_false_and_keeps_state() {
    let mut ring = SpscRingBuffer::new(64);
    let header = EventHeader::new(3, 1, 32);
    let payload = [0x5A; 32];
    assert!(ring.write_event(&header, &payload));
    // 48 bytes used of 63 available: the same record no longer fits
    assert!(!ring.write_event(&header, &payload));

    let (h, p) = ring.read_event().unwrap();
    assert_eq!(h.timestamp, 3);
    assert_eq!(p, payload.to_vec());
    assert!(ring.is_empty());
}

#[test]
fn spsc_wraps_across_buffer_end() {
    let mut ring = SpscRingBuffer::new(64);
    // repeated 40-byte records force every wrap position over time
    for round in 0..50u64 {
        let header = EventHeader::new(round, 1, 24);
        let payload: Vec<u8> = (0..24).map(|b| (b as u64 + round) as u8).collect();
        assert!(ring.write_event(&header, &payload));
        let (h, p) = ring.read_event().unwrap();
        assert_eq!(h.timestamp, round);
        assert_eq!(p, payload);
    }
    assert!(ring.is_empty());
}

#[test]
fn spsc_drains_interleaved_writes_in_order() {
    let mut ring = SpscRingBuffer::new(256);
    let payload = [0xAB; 32];
    for i in 0..3u64 {
        assert!(ring.write_event(&EventHeader::new(i, 1, 32), &payload));
    }
    for _ in 0..2 {
        ring.read_event().unwrap();
    }
    for i in 3..6u64 {
        assert!(ring.write_event(&EventHeader::new(i, 1, 32), &payload));
    }
    let mut seen = Vec::new();
    while let Some((h, p)) = ring.read_event() {
        assert_eq!(p, payload.to_vec());
        seen.push(h.timestamp);
    }
    assert_eq!(seen, vec![2, 3, 4, 5]);
}
