use ringlog::errors::RingError;
use ringlog::event::EventHeader;
use ringlog::ring::RingBuffer;

#[test]
fn new_creates_empty_buffer() {
    let ring = RingBuffer::new(1024).unwrap();
    assert!(ring.is_empty());
    assert_eq!(ring.used(), 0);
}

#[test]
fn write_single_event() {
    let mut ring = RingBuffer::new(1024).unwrap();
    let header = EventHeader::new(1000, 1, 8);
    let payload = b"testdata";

    ring.write_event(&header, payload).unwrap();

    assert!(!ring.is_empty());
    assert_eq!(ring.used(), EventHeader::SIZE + 8);
}

#[test]
fn read_single_event() {
    let mut ring = RingBuffer::new(1024).unwrap();
    let header = EventHeader::new(1000, 1, 8);
    let payload = b"testdata";

    ring.write_event(&header, payload).unwrap();
    let (h, p) = ring.read_event().unwrap();

    assert_eq!(h.timestamp, 1000);
    assert_eq!(h.event_type, 1);
    assert_eq!(h.payload_len, 8);
    assert_eq!(&p, payload);
    assert!(ring.is_empty());
}

#[test]
fn write_multiple_events() {
    let mut ring = RingBuffer::new(4096).unwrap();

    for i in 0..10 {
        let header = EventHeader::new(i * 1000, 1, 4);
        ring.write_event(&header, b"test").unwrap();
    }

    let mut count = 0;
    while let Some((header, _)) = ring.read_event() {
        assert_eq!(header.timestamp, count * 1000);
        count += 1;
    }
    assert_eq!(count, 10);
}

#[test]
fn buffer_full_returns_error() {
    let mut ring = RingBuffer::new(128).unwrap();
    let header = EventHeader::new(0, 1, 64);
    let payload = [0u8; 64];

    let first = ring.write_event(&header, &payload);
    assert!(first.is_ok());

    let second = ring.write_event(&header, &payload);
    assert!(second.is_err());
}

#[test]
fn wrap_around_works() {
    let mut ring = RingBuffer::new(256).unwrap();
    let header = EventHeader::new(0, 1, 32);
    let payload = [0xAB; 32];

    for _ in 0..3 {
        ring.write_event(&header, &payload).unwrap();
    }

    for _ in 0..2 {
        ring.read_event().unwrap();
    }

    for i in 0..3 {
        let mut h = header;
        h.timestamp = i;
        ring.write_event(&h, &payload).unwrap();
    }

    let mut count = 0;
    while let Some((_, p)) = ring.read_event() {
        assert_eq!(p, payload);
        count += 1;
    }
    assert_eq!(count, 4);
}

#[test]
fn wrap_preserves_insertion_order() {
    let mut ring = RingBuffer::new(256).unwrap();
    let header = EventHeader::new(9, 1, 32);
    let payload = [0xAB; 32];

    for _ in 0..3 {
        ring.write_event(&header, &payload).unwrap();
    }
    for _ in 0..2 {
        ring.read_event().unwrap();
    }
    for i in 0..3 {
        let mut h = header;
        h.timestamp = i;
        ring.write_event(&h, &payload).unwrap();
    }

    let expected = [9, 0, 1, 2];
    let mut seen = Vec::new();
    while let Some((h, p)) = ring.read_event() {
        assert_eq!(p, payload);
        seen.push(h.timestamp);
    }
    assert_eq!(seen, expected);
}

#[test]
fn new_rejects_invalid_capacity() {
    assert!(RingBuffer::new(1000).is_err());
    assert!(RingBuffer::new(0).is_err());
    assert!(RingBuffer::new(16).is_err());
    match RingBuffer::new(1000) {
        Err(RingError::InvalidCapacity { capacity, .. }) => assert_eq!(capacity, 1000),
        _ => panic!("expected InvalidCapacity"),
    }
    assert!(RingBuffer::new(32).is_ok());
    assert!(RingBuffer::new(1024).is_ok());
}

#[test]
fn occupancy_is_capacity_minus_one() {
    let mut ring = RingBuffer::new(1024).unwrap();
    assert_eq!(ring.used() + ring.available() + 1, 1024);
    let header = EventHeader::new(1, 1, 100);
    ring.write_event(&header, &[7u8; 100]).unwrap();
    assert_eq!(ring.used() + ring.available() + 1, 1024);
}

#[test]
fn full_write_fails_with_exact_counts_and_state_kept() {
    let mut ring = RingBuffer::new(128).unwrap();
    let header = EventHeader::new(0, 1, 64);
    let payload = [5u8; 64];

    assert!(ring.write_event(&header, &payload).is_ok());
    let used_before = ring.used();

    match ring.write_event(&header, &payload) {
        Err(RingError::NotEnoughSpace { required, available }) => {
            assert_eq!(required, 80);
            assert_eq!(available, 47);
        }
        other => panic!("expected NotEnoughSpace, got {:?}", other),
    }
    assert_eq!(ring.used(), used_before);

    let (h, p) = ring.read_event().unwrap();
    assert_eq!(h.payload_len, 64);
    assert_eq!(p, payload);
}

#[test]
fn wrap_straddle_positions_round_trip() {
    let mut ring = RingBuffer::new(64).unwrap();

    // first record fills [0, 53); reading it moves the tail to 53
    let h1 = EventHeader::new(1, 1, 37);
    let p1: Vec<u8> = (0..37u8).collect();
    ring.write_event(&h1, &p1).unwrap();
    let (r1, q1) = ring.read_event().unwrap();
    assert_eq!(r1.timestamp, 1);
    assert_eq!(q1, p1);

    // second record starts at 53 with 11 contiguous bytes: the header
    // itself straddles the wrap boundary
    let h2 = EventHeader::new(2, 1, 37);
    let p2: Vec<u8> = (100..137u8).collect();
    ring.write_event(&h2, &p2).unwrap();
    let (r2, q2) = ring.read_event().unwrap();
    assert_eq!(r2.timestamp, 2);
    assert_eq!(q2, p2);

    // third record starts at 42 with 22 contiguous bytes: the header is
    // contiguous and the payload straddles the boundary
    let h3 = EventHeader::new(3, 1, 30);
    let p3: Vec<u8> = (50..80u8).collect();
    ring.write_event(&h3, &p3).unwrap();
    let (r3, q3) = ring.read_event().unwrap();
    assert_eq!(r3.timestamp, 3);
    assert_eq!(q3, p3);

    // fourth record starts at 24 with 40 contiguous bytes and is 40 bytes
    // long: an exact fit against the boundary
    let h4 = EventHeader::new(4, 1, 24);
    let p4: Vec<u8> = (200..224u8).collect();
    ring.write_event(&h4, &p4).unwrap();
    let (r4, q4) = ring.read_event().unwrap();
    assert_eq!(r4.timestamp, 4);
    assert_eq!(q4, p4);
    assert!(ring.is_empty());
}

#[test]
fn zero_length_payload_round_trips() {
    let mut ring = RingBuffer::new(64).unwrap();
    let header = EventHeader::new(77, 9, 0);
    ring.write_event(&header, &[]).unwrap();
    assert_eq!(ring.used(), 16);
    let (h, p) = ring.read_event().unwrap();
    assert_eq!(h.timestamp, 77);
    assert_eq!(h.event_type, 9);
    assert_eq!(h.payload_len, 0);
    assert!(p.is_empty());
    assert!(ring.is_empty());
}
