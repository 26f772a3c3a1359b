use ringlog::dispatcher::{DrainStats, EventConsumer, EventDispatcher};
use ringlog::event::EventHeader;
use ringlog::ring::RingBuffer;

struct CountingConsumer {
    count: u64,
}

impl CountingConsumer {
    fn new() -> Self {
        Self { count: 0 }
    }
}

impl EventConsumer for CountingConsumer {
    fn consume(&mut self, _header: &EventHeader, _payload: &[u8]) -> bool {
        self.count += 1;
        true
    }

    fn name(&self) -> &str {
        "counter"
    }
}

struct FailingConsumer;

impl EventConsumer for FailingConsumer {
    fn consume(&mut self, _header: &EventHeader, _payload: &[u8]) -> bool {
        false
    }

    fn name(&self) -> &str {
        "failing"
    }
}

#[test]
fn drain_empty_buffer() {
    let mut ring = RingBuffer::new(1024).unwrap();
    let mut dispatcher = EventDispatcher::new();
    dispatcher.add_consumer(CountingConsumer::new());

    let stats = dispatcher.drain(&mut ring);

    assert_eq!(stats.events_read, 0);
    assert_eq!(stats.events_delivered, 0);
}

#[test]
fn drain_delivers_to_consumer() {
    let mut ring = RingBuffer::new(1024).unwrap();
    let mut dispatcher = EventDispatcher::new();
    dispatcher.add_consumer(CountingConsumer::new());

    for i in 0..5 {
        let header = EventHeader::new(i, 1, 4);
        ring.write_event(&header, b"test").unwrap();
    }

    let stats = dispatcher.drain(&mut ring);

    assert_eq!(stats.events_read, 5);
    assert_eq!(stats.events_delivered, 5);
    assert_eq!(stats.events_failed, 0);
}

#[test]
fn drain_tracks_failures() {
    let mut ring = RingBuffer::new(1024).unwrap();
    let mut dispatcher = EventDispatcher::new();
    dispatcher.add_consumer(FailingConsumer);

    for i in 0..3 {
        let header = EventHeader::new(i, 1, 4);
        ring.write_event(&header, b"test").unwrap();
    }

    let stats = dispatcher.drain(&mut ring);

    assert_eq!(stats.events_read, 3);
    assert_eq!(stats.events_delivered, 0);
    assert_eq!(stats.events_failed, 3);
}

#[test]
fn drain_batch_respects_limit() {
    let mut ring = RingBuffer::new(1024).unwrap();
    let mut dispatcher = EventDispatcher::new();
    dispatcher.add_consumer(CountingConsumer::new());

    for i in 0..10 {
        let header = EventHeader::new(i, 1, 4);
        ring.write_event(&header, b"test").unwrap();
    }

    let stats = dispatcher.drain_batch(&mut ring, 3);

    assert_eq!(stats.events_read, 3);
    assert!(!ring.is_empty());
}

#[test]
fn multiple_consumers() {
    let mut ring = RingBuffer::new(1024).unwrap();
    let mut dispatcher = EventDispatcher::new();
    dispatcher.add_consumer(CountingConsumer::new());
    dispatcher.add_consumer(CountingConsumer::new());

    let header = EventHeader::new(0, 1, 4);
    ring.write_event(&header, b"test").unwrap();

    let stats = dispatcher.drain(&mut ring);

    assert_eq!(stats.events_read, 1);
    assert_eq!(stats.events_delivered, 2);
}

#[test]
fn default_stats_are_zero() {
    let stats = DrainStats::default();
    assert_eq!(stats.events_read, 0);
    assert_eq!(stats.events_delivered, 0);
    assert_eq!(stats.events_failed, 0);
}
