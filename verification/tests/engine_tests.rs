use audio_fetch::engine::{
    ControlFlow, DownloadStrategy, FetchEngine, StreamLoaderCommand,
};
use audio_fetch::range_set::Range;

#[test]
fn latency_estimate_single_mean_median() {
    let mut e = FetchEngine::new(1_000_000, 40_000, 0);
    e.handle_response_time(50);
    assert_eq!(e.ping_time_ms, 50);
    e.handle_response_time(70);
    assert_eq!(e.ping_time_ms, 60);
    e.handle_response_time(30);
    assert_eq!(e.ping_time_ms, 50);
}

#[test]
fn fourth_latency_sample_evicts_the_oldest() {
    let mut e = FetchEngine::new(1_000_000, 40_000, 0);
    e.handle_response_time(50);
    e.handle_response_time(70);
    e.handle_response_time(30);
    e.handle_response_time(200);
    // Window is now [70, 30, 200]; the median is 70.
    assert_eq!(e.ping_time_ms, 70);
}

#[test]
fn download_range_dispatches_aligned_requests() {
    let mut e = FetchEngine::new(100_000, 1, 0);
    let d = e.download_range(5, 10);
    assert_eq!(d.len(), 1);
    let r = d[0].range;
    assert_eq!(r.start % 4, 0);
    assert_eq!(r.length % 4, 0);
    // The dispatched window contains the requested bytes.
    assert!(r.start <= 5 && 15 <= r.start + r.length);
    // The minimum request size applies.
    assert!(r.length >= 16 * 1024);
}

#[test]
fn download_range_clips_to_the_file() {
    let mut e = FetchEngine::new(1000, 1, 0);
    let d = e.download_range(0, 50);
    assert_eq!(d.len(), 1);
    assert_eq!(d[0].range, Range::new(0, 1000));
    // Past the end of the file nothing is dispatched.
    let d2 = e.download_range(1000, 50);
    assert!(d2.is_empty());
}

#[test]
fn download_range_skips_already_requested_bytes() {
    let mut e = FetchEngine::new(20_000, 1, 20_000);
    let d = e.download_range(0, 100);
    assert!(d.is_empty());
}

#[test]
fn dispatched_requests_never_overlap() {
    let mut e = FetchEngine::new(1_000_000, 1, 0);
    let d1 = e.download_range(0, 100);
    let d2 = e.download_range(8000, 100);
    assert_eq!(d1.len(), 1);
    assert_eq!(d2.len(), 1);
    let a = d1[0].range;
    let b = d2[0].range;
    assert!(a.start + a.length <= b.start || b.start + b.length <= a.start);
}

#[test]
fn only_the_first_ever_request_measures_ping() {
    let mut e = FetchEngine::new(1_000_000, 1, 0);
    // The engine starts with one open request, so nothing measures.
    assert_eq!(e.number_of_open_requests, 1);
    let d = e.download_range(0, 100);
    assert!(!d[0].measure_ping);
    let mut e2 = FetchEngine::new(1_000_000, 1, 0);
    e2.number_of_open_requests = 0;
    let d2 = e2.download_range(0, 100);
    assert!(d2[0].measure_ping);
}

#[test]
fn completion_fires_exactly_when_the_file_is_covered() {
    let mut e = FetchEngine::new(1000, 1, 1000);
    assert!(!e.handle_data(0, 500));
    assert!(!e.finished);
    assert!(e.handle_data(500, 500));
    assert!(e.finished);
}

#[test]
fn stream_mode_triggers_prefetch_of_missing_bytes() {
    let mut e = FetchEngine::new(1_000_000, 40_000, 0);
    e.handle_response_time(100);
    let (flow, d) = e.handle_stream_loader_command(StreamLoaderCommand::StreamMode, 0);
    assert_eq!(flow, ControlFlow::Continue);
    assert_eq!(e.strategy, DownloadStrategy::Streaming);
    // desired = 4 * 0.1 s * 40000 B/s = 16000 bytes; nothing was pending.
    assert!(!d.is_empty());
    assert_eq!(d[0].range.start, 0);
    assert!(d[0].range.length >= 16_000);
}

#[test]
fn random_access_mode_suppresses_prefetch_on_finished_requests() {
    let mut e = FetchEngine::new(1_000_000, 40_000, 0);
    e.handle_response_time(100);
    let (_, d0) = e.handle_stream_loader_command(StreamLoaderCommand::RandomAccessMode, 0);
    assert!(d0.is_empty());
    assert_eq!(e.strategy, DownloadStrategy::RandomAccess);
    let d = e.handle_download_finished(50_000);
    assert!(d.is_empty());
    assert_eq!(e.number_of_open_requests, 0);
}

#[test]
fn finished_request_under_streaming_refills_the_pipeline() {
    let mut e = FetchEngine::new(1_000_000, 40_000, 0);
    e.handle_response_time(100);
    e.strategy = DownloadStrategy::Streaming;
    let d = e.handle_download_finished(0);
    assert!(!d.is_empty());
}

#[test]
fn close_command_breaks_the_loop() {
    let mut e = FetchEngine::new(1_000_000, 40_000, 0);
    let (flow, d) = e.handle_stream_loader_command(StreamLoaderCommand::Close, 0);
    assert_eq!(flow, ControlFlow::Break);
    assert!(d.is_empty());
}

#[test]
fn fetch_command_requests_the_asked_range() {
    let mut e = FetchEngine::new(1_000_000, 40_000, 0);
    let (flow, d) = e.handle_stream_loader_command(
        StreamLoaderCommand::Fetch(Range::new(100_000, 200)),
        0,
    );
    assert_eq!(flow, ControlFlow::Continue);
    assert_eq!(d.len(), 1);
    let r = d[0].range;
    assert!(r.start <= 100_000 && 100_200 <= r.start + r.length);
    assert_eq!(r.start % 4, 0);
    assert_eq!(r.length % 4, 0);
}

#[test]
fn prefetch_stops_when_nothing_is_missing() {
    let mut e = FetchEngine::new(2000, 40_000, 2000);
    let d = e.pre_fetch_more_data(100_000, 4);
    assert!(d.is_empty());
}

#[test]
fn prefetch_prefers_bytes_after_the_read_cursor() {
    let mut e = FetchEngine::new(100_000, 40_000, 0);
    e.read_position = 50_000;
    let d = e.pre_fetch_more_data(1000, 1);
    assert_eq!(d.len(), 1);
    // The tail after the cursor comes first, aligned downward at most.
    assert!(d[0].range.start >= 50_000 - 3);
}

#[test]
fn bytes_past_the_file_end_never_complete_the_download() {
    // A 1000-byte file: a chunk entirely past the end marks nothing.
    let mut e = FetchEngine::new(1000, 1, 1000);
    assert!(!e.handle_data(1000, 1000));
    assert!(!e.finished);
    assert!(e.status.downloaded.is_empty());
    // Byte 0 was never downloaded, so the file is not complete.
    assert!(!e.handle_data(1, 999));
    assert!(!e.finished);
}

#[test]
fn over_delivery_at_the_end_completes_exactly_at_coverage() {
    let mut e = FetchEngine::new(1000, 1, 1000);
    assert!(!e.handle_data(0, 500));
    // The chunk runs past the file end; only the bytes within count.
    assert!(e.handle_data(500, 600));
    assert!(e.finished);
    assert_eq!(e.status.downloaded.num_ranges(), 1);
    assert_eq!(
        e.status.downloaded.get_range(0),
        audio_fetch::range_set::Range::new(0, 1000)
    );
}

#[test]
fn prefetch_respects_the_request_budget_bound() {
    // A large file with everything missing: one round, clamped to the byte
    // budget grown to the minimum request size.
    let mut e = FetchEngine::new(10_000_000, 1, 0);
    let d = e.pre_fetch_more_data(100, 1);
    assert_eq!(d.len(), 1);
    assert!(d[0].range.length as usize <= 16 * 1024 + 6);
}

#[test]
fn prefetch_is_suppressed_while_enough_bytes_are_pending() {
    // 100 kB already requested and not yet downloaded: far more than the
    // formula's desired buffer of 16 kB, so StreamMode dispatches nothing.
    let mut e = FetchEngine::new(1_000_000, 40_000, 100_000);
    e.handle_response_time(100);
    let (_, d) = e.handle_stream_loader_command(StreamLoaderCommand::StreamMode, 0);
    assert!(d.is_empty());
    let d2 = e.handle_download_finished(0);
    assert!(d2.is_empty());
}
