use vector_buffers::{Event, Outcome, WhenFull};
use vector_buffers::config::{BufferBuildError, BufferConfig, BufferType, TopologyError};
use vector_buffers::memory::MemoryStage;

fn ev(s: &str) -> Event {
    Event::new(s.as_bytes().to_vec())
}

fn text(e: Event) -> String {
    String::from_utf8(e.into_bytes()).unwrap()
}

fn build(stages: Vec<BufferType>) -> vector_buffers::topology::BufferTopology {
    BufferConfig { stages }
        .build(Some("/tmp/data".to_string()), "test-buffer".to_string())
        .unwrap()
}

#[test]
fn memory_block_boundary() {
    // memory{max_events: 1, when_full: block}: the first push succeeds, the
    // second reports Full until a pop makes room.
    let mut t = build(vec![BufferType::Memory { max_events: 1, when_full: WhenFull::Block }]);
    assert_eq!(t.send(ev("a")), Outcome::Accepted);
    assert_eq!(t.send(ev("b")), Outcome::Full);
    assert_eq!(text(t.recv().unwrap()), "a");
    assert_eq!(t.send(ev("b")), Outcome::Accepted);
}

#[test]
fn memory_drop_newest_counts_drops() {
    // memory{when_full: drop_newest} at capacity returns Dropped and the
    // drop counter increments by one.
    let mut t = build(vec![BufferType::Memory { max_events: 1, when_full: WhenFull::DropNewest }]);
    assert_eq!(t.send(ev("a")), Outcome::Accepted);
    assert_eq!(t.stage_drop_count(0), 0);
    assert_eq!(t.send(ev("b")), Outcome::Dropped);
    assert_eq!(t.stage_drop_count(0), 1);
}

#[test]
fn terminal_overflow_degrades_to_block() {
    // A terminal stage configured with overflow has nothing to overflow
    // into: it blocks instead of dropping or forwarding.
    let mut t = build(vec![BufferType::Memory { max_events: 1, when_full: WhenFull::Overflow }]);
    assert_eq!(t.send(ev("a")), Outcome::Accepted);
    assert_eq!(t.send(ev("b")), Outcome::Full);
    assert_eq!(text(t.recv().unwrap()), "a");
}

#[test]
fn memory_block_scenario() {
    // memory{max_events: 2, block}: A and B accepted, C blocked; after one
    // pop C completes; final pop order is A, B, C.
    let mut t = build(vec![BufferType::Memory { max_events: 2, when_full: WhenFull::Block }]);
    assert_eq!(t.send(ev("A")), Outcome::Accepted);
    assert_eq!(t.send(ev("B")), Outcome::Accepted);
    assert_eq!(t.send(ev("C")), Outcome::Full);
    assert_eq!(text(t.recv().unwrap()), "A");
    assert_eq!(t.send(ev("C")), Outcome::Accepted);
    assert_eq!(text(t.recv().unwrap()), "B");
    assert_eq!(text(t.recv().unwrap()), "C");
    assert!(t.recv().is_none());
}

#[test]
fn overflow_chain_scenario() {
    // [memory{1, overflow}, memory{10}]: A, B, C all accepted; drain order
    // is A from stage one, then B and C from stage two.
    let mut t = build(vec![
        BufferType::Memory { max_events: 1, when_full: WhenFull::Overflow },
        BufferType::Memory { max_events: 10, when_full: WhenFull::Block },
    ]);
    assert_eq!(t.send(ev("A")), Outcome::Accepted);
    assert_eq!(t.send(ev("B")), Outcome::Accepted);
    assert_eq!(t.send(ev("C")), Outcome::Accepted);
    assert_eq!(t.stage_len_events(0), 1);
    assert_eq!(t.stage_len_events(1), 2);
    assert_eq!(text(t.recv().unwrap()), "A");
    assert_eq!(text(t.recv().unwrap()), "B");
    assert_eq!(text(t.recv().unwrap()), "C");
    assert!(t.recv().is_none());
}

#[test]
fn ack_routes_to_origin_stage() {
    let mut t = build(vec![
        BufferType::Memory { max_events: 1, when_full: WhenFull::Overflow },
        BufferType::Memory { max_events: 10, when_full: WhenFull::Block },
    ]);
    assert_eq!(t.send(ev("A")), Outcome::Accepted);
    assert_eq!(t.send(ev("B")), Outcome::Accepted);
    assert_eq!(text(t.recv().unwrap()), "A");
    assert_eq!(text(t.recv().unwrap()), "B");
    t.ack(2);
    assert!(t.recv().is_none());
}

#[test]
fn build_rejects_empty_and_duplicate_disk() {
    let err = BufferConfig { stages: vec![] }
        .build(None, "b".to_string())
        .unwrap_err();
    assert_eq!(
        err,
        BufferBuildError::FailedToBuildTopology { source: TopologyError::EmptyTopology }
    );
    assert_eq!(
        err.message(),
        "error occurred when building buffer: buffer topology cannot be empty"
    );

    let err = BufferConfig {
        stages: vec![
            BufferType::DiskV2 { max_size: 100, when_full: WhenFull::Block },
            BufferType::Memory { max_events: 10, when_full: WhenFull::Block },
            BufferType::DiskV2 { max_size: 100, when_full: WhenFull::Block },
        ],
    }
    .build(Some("/tmp/data".to_string()), "b".to_string())
    .unwrap_err();
    assert_eq!(
        err,
        BufferBuildError::FailedToBuildTopology { source: TopologyError::DuplicateDiskStage }
    );
}

#[test]
fn build_requires_data_dir_for_disk() {
    let err = BufferConfig {
        stages: vec![BufferType::DiskV1 { max_size: 100, when_full: WhenFull::Block }],
    }
    .build(None, "b".to_string())
    .unwrap_err();
    assert_eq!(err, BufferBuildError::RequiresDataDir);
    assert_eq!(err.message(), "the configured buffer type requires `data_dir` be specified");
}

#[test]
fn build_rejects_zero_watermarks() {
    let err = BufferConfig {
        stages: vec![BufferType::Memory { max_events: 0, when_full: WhenFull::Block }],
    }
    .build(None, "b".to_string())
    .unwrap_err();
    assert_eq!(err, BufferBuildError::InvalidMaxEvents);
    assert_eq!(err.message(), "`max_events` must be greater than zero");

    let err = BufferConfig {
        stages: vec![BufferType::DiskV2 { max_size: 0, when_full: WhenFull::Block }],
    }
    .build(Some("/tmp/data".to_string()), "b".to_string())
    .unwrap_err();
    assert_eq!(err, BufferBuildError::InvalidMaxSize);
}

#[test]
fn memory_stage_conserves_events() {
    // accepted = acked + in-flight + enqueued, at every step.
    let mut s = MemoryStage::new(4, WhenFull::Block);
    for i in 0..4u8 {
        assert_eq!(s.push(Event::new(vec![i])), Outcome::Accepted);
    }
    assert_eq!(s.push(Event::new(vec![9])), Outcome::Full);
    assert_eq!(s.accepted_count(), 4);
    let _ = s.pop().unwrap();
    let _ = s.pop().unwrap();
    assert_eq!(s.in_flight(), 2);
    assert_eq!(
        s.accepted_count(),
        s.acked_count() + s.in_flight() + s.len_events() as u64
    );
    s.ack(1);
    assert_eq!(
        s.accepted_count(),
        s.acked_count() + s.in_flight() + s.len_events() as u64
    );
}

#[test]
fn memory_ack_is_idempotent_and_additive() {
    // ack(0) is a no-op; ack(n) then ack(m) equals ack(n + m) while
    // n + m stays within the in-flight count.
    let mut a = MemoryStage::new(4, WhenFull::Block);
    let mut b = MemoryStage::new(4, WhenFull::Block);
    for i in 0..4u8 {
        a.push(Event::new(vec![i]));
        b.push(Event::new(vec![i]));
        a.pop().unwrap();
        b.pop().unwrap();
    }
    a.ack(0);
    assert_eq!(a.acked_count(), 0);
    a.ack(1);
    a.ack(2);
    b.ack(3);
    assert_eq!(a.acked_count(), b.acked_count());
    assert_eq!(a.in_flight(), b.in_flight());
}

#[test]
fn memory_stage_is_fifo() {
    let mut s = MemoryStage::new(8, WhenFull::Block);
    for i in 0..5u8 {
        assert_eq!(s.push(Event::new(vec![i])), Outcome::Accepted);
    }
    for i in 0..5u8 {
        assert_eq!(s.pop().unwrap().into_bytes(), vec![i]);
    }
    assert!(s.pop().is_none());
}
