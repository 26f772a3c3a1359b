use ringlog::event::{EventHeader, EventView};

#[test]
fn size_is_16_bytes() {
    assert_eq!(EventHeader::SIZE, 16);
}

#[test]
fn total_size_includes_payload() {
    let header = EventHeader::new(0, 1, 100);
    assert_eq!(header.total_size(), 116);
}

#[test]
fn new_sets_fields_correctly() {
    let header = EventHeader::new(12345, 7, 256);
    assert_eq!(header.timestamp, 12345);
    assert_eq!(header.event_type, 7);
    assert_eq!(header.payload_len, 256);
    assert_eq!(header.flags, 0);
}

#[test]
fn header_byte_image_is_little_endian() {
    let header = EventHeader::new(0x1122334455667788, 0xAB, 0x0201);
    let b = header.to_bytes();
    assert_eq!(b.len(), 16);
    assert_eq!(&b[0..8], &[0x88, 0x77, 0x66, 0x55, 0x44, 0x33, 0x22, 0x11]);
    assert_eq!(b[8], 0xAB);
    assert_eq!(b[9], 0);
    assert_eq!(b[10], 0x01);
    assert_eq!(b[11], 0x02);
    assert_eq!(&b[12..16], &[0, 0, 0, 0]);
}

#[test]
fn header_bytes_round_trip() {
    let header = EventHeader::new(0xFEDCBA9876543210, 3, 65535);
    let b = header.to_bytes();
    let back = EventHeader::from_bytes(b.as_slice());
    assert_eq!(back.timestamp, header.timestamp);
    assert_eq!(back.event_type, header.event_type);
    assert_eq!(back.flags, header.flags);
    assert_eq!(back.payload_len, header.payload_len);
}

#[test]
fn event_view_decodes_record_at_offset() {
    let header = EventHeader::new(42, 2, 3);
    let mut buf = vec![0u8; 5];
    buf.extend_from_slice(header.to_bytes().as_slice());
    buf.extend_from_slice(&[9, 8, 7]);
    let view = EventView::from_bytes(buf.as_slice(), 5);
    assert_eq!(view.header.timestamp, 42);
    assert_eq!(view.header.event_type, 2);
    assert_eq!(view.header.payload_len, 3);
    assert_eq!(view.payload, vec![9, 8, 7]);
    assert_eq!(view.total_size(), 19);
}
