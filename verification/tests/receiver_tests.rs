use audio_fetch::range_set::Range;
use audio_fetch::receiver::RangeReceiver;
use audio_fetch::engine::DownloadStatus;

#[test]
fn first_chunk_yields_clamped_ping_sample() {
    let mut rec = RangeReceiver::new(0, 2000, true);
    let o = rec.on_chunk(100, 50);
    assert_eq!(o.ping_sample_ms, Some(50));
    assert_eq!(o.write_offset, 0);
    assert!(!o.done);
    // Only the first chunk samples the latency.
    let o2 = rec.on_chunk(100, 80);
    assert_eq!(o2.ping_sample_ms, None);
    assert_eq!(o2.write_offset, 100);
}

#[test]
fn pathological_ping_sample_is_clamped() {
    let mut rec = RangeReceiver::new(0, 100, true);
    let o = rec.on_chunk(10, 5000);
    assert_eq!(o.ping_sample_ms, Some(200));
}

#[test]
fn over_delivery_is_treated_as_satisfied() {
    let mut rec = RangeReceiver::new(0, 100, false);
    let o = rec.on_chunk(150, 10);
    assert!(o.done);
    assert_eq!(rec.request_length, 0);
    assert_eq!(rec.unfulfilled(), None);
}

#[test]
fn exact_delivery_finishes_the_request() {
    let mut rec = RangeReceiver::new(40, 60, false);
    let o1 = rec.on_chunk(20, 10);
    assert!(!o1.done);
    assert_eq!(o1.write_offset, 40);
    let o2 = rec.on_chunk(40, 10);
    assert!(o2.done);
    assert_eq!(o2.write_offset, 60);
    assert_eq!(rec.unfulfilled(), None);
}

#[test]
fn under_delivery_reports_the_missing_tail() {
    let mut rec = RangeReceiver::new(0, 2000, false);
    let o = rec.on_chunk(1000, 10);
    assert!(!o.done);
    assert_eq!(rec.unfulfilled(), Some(Range::new(1000, 1000)));
}

#[test]
fn retraction_makes_the_tail_missing_again() {
    // A receiver got 1000 of 2000 requested bytes before the stream ended.
    let mut status = DownloadStatus::new();
    status.requested.add_range(&Range::new(0, 2000));
    let mut rec = RangeReceiver::new(0, 2000, false);
    let _ = rec.on_chunk(1000, 10);
    status.downloaded.add_range(&Range::new(0, 1000));
    let missing_tail = rec.unfulfilled().unwrap();
    status.retract(&missing_tail);
    // The tail is no longer requested, so it is missing and re-requestable.
    assert_eq!(status.requested.num_ranges(), 1);
    assert_eq!(status.requested.get_range(0), Range::new(0, 1000));
    let pending = status.requested.minus(&status.downloaded);
    assert!(pending.is_empty());
}
