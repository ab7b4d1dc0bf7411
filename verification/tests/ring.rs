use rkwhisper::ring::{
    drain_spans, push_spans, ring_len, RingError, SharedAudioRing, Spans, RING_DATA_BYTES,
    RING_HEADER_BYTES,
};

#[test]
fn ring_reports_overrun() {
    let mut ring = SharedAudioRing::create(8).unwrap();
    ring.set_offsets(0, 9);
    let mut out = Vec::new();
    let error = ring.drain_available(&mut out).unwrap_err();
    assert!(error.message().contains("shared-memory ring overrun"));
}

#[test]
fn ring_gives_back_what_was_put_in() {
    let mut ring = SharedAudioRing::create(8).unwrap();
    assert_eq!(ring.capacity(), 8);
    let mut sent = Vec::new();
    let mut received = Vec::new();
    for round in 0..10u8 {
        let data: Vec<u8> = (0..5).map(|i| round * 5 + i).collect();
        let n = ring.push_available(&data).unwrap();
        assert_eq!(n, 5);
        sent.extend_from_slice(&data);
        ring.drain_available(&mut received).unwrap();
        assert_eq!(received, sent);
    }
}

#[test]
fn full_ring_takes_what_fits() {
    let mut ring = SharedAudioRing::create(4).unwrap();
    assert_eq!(ring.push_available(&[1, 2, 3]).unwrap(), 3);
    assert_eq!(ring.push_available(&[4, 5, 6]).unwrap(), 1);
    assert_eq!(ring.push_available(&[5]).unwrap(), 0);
    let mut out = vec![0];
    ring.drain_available(&mut out).unwrap();
    assert_eq!(out, vec![0, 1, 2, 3, 4]);
    ring.drain_available(&mut out).unwrap();
    assert_eq!(out, vec![0, 1, 2, 3, 4]);
}

#[test]
fn pushing_into_an_overrun_ring_fails() {
    let mut ring = SharedAudioRing::create(8).unwrap();
    ring.set_offsets(0, 9);
    assert_eq!(ring.push_available(&[1]).unwrap_err(), RingError::Overrun);
}

#[test]
fn ring_memory_has_a_header() {
    assert_eq!(RING_HEADER_BYTES, 32);
    assert_eq!(RING_DATA_BYTES, 3_840_000);
    assert_eq!(ring_len(8).unwrap(), 40);
    assert_eq!(ring_len(usize::MAX).unwrap_err(), RingError::SizeOverflow);
    assert_eq!(RingError::SizeOverflow.message(), "ring size overflow");
    let wrong = SharedAudioRing::attach(vec![0; 39], 8);
    assert!(matches!(wrong, Err(RingError::SizeMismatch)));
    let mut attached = SharedAudioRing::attach(vec![0; 40], 8).unwrap();
    attached.init_header();
    assert_eq!(attached.push_available(&[9]).unwrap(), 1);
}

#[test]
fn positions_run_round_the_data() {
    assert_eq!(drain_spans(6, 11, 8).unwrap(), Some(Spans { start: 6, first: 2, second: 3 }));
    assert_eq!(drain_spans(5, 5, 8).unwrap(), None);
    assert_eq!(drain_spans(7, 5, 8).unwrap(), None);
    assert_eq!(drain_spans(0, 9, 8).unwrap_err(), RingError::Overrun);
    assert_eq!(push_spans(6, 11, 8, 10).unwrap(), Some(Spans { start: 3, first: 3, second: 0 }));
    assert_eq!(push_spans(0, 7, 8, 4).unwrap(), Some(Spans { start: 7, first: 1, second: 0 }));
    assert_eq!(push_spans(0, 8, 8, 4).unwrap(), None);
}

#[test]
fn ring_is_used_again_after_a_drain() {
    let mut ring = SharedAudioRing::create(4).unwrap();
    let mut out = Vec::new();
    assert_eq!(ring.push_available(&[1, 2, 3]).unwrap(), 3);
    ring.drain_available(&mut out).unwrap();
    ring.drain_available(&mut out).unwrap();
    assert_eq!(ring.push_available(&[4, 5, 6, 7, 8]).unwrap(), 4);
    ring.drain_available(&mut out).unwrap();
    assert_eq!(out, vec![1, 2, 3, 4, 5, 6, 7]);
    assert_eq!(ring.push_available(&[8]).unwrap(), 1);
}

#[test]
fn counters_may_run_to_the_end() {
    let mut ring = SharedAudioRing::create(4).unwrap();
    ring.set_offsets(u64::MAX - 5, u64::MAX - 2);
    // More is offered than the counter could take, but the ring has room for one byte only.
    assert_eq!(ring.push_available(&[7; 100]).unwrap(), 1);
    let mut out = Vec::new();
    ring.drain_available(&mut out).unwrap();
    assert_eq!(out, vec![0, 0, 0, 7]);
}
