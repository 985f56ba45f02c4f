//! The orchestrating fetch state machine.
//!
//! The engine owns the shared download bookkeeping and decides, for every
//! command, data event and request-completion signal, which ranges to
//! request next.  It performs no I/O itself: each decision comes back to the
//! caller as a list of `Dispatch` values to send on the wire.

use vstd::prelude::*;
use crate::params::{
    FAST_PREFETCH_THRESHOLD_FACTOR_DEN, FAST_PREFETCH_THRESHOLD_FACTOR_NUM,
    MAXIMUM_ASSUMED_PING_TIME_MS, MAX_PREFETCH_REQUESTS, MINIMUM_DOWNLOAD_SIZE,
    PREFETCH_THRESHOLD_FACTOR,
};
use crate::range_set::{
    lemma_contained_nonneg, lemma_contained_upper, lemma_covered_length_lower,
    lemma_covers_from_index, lemma_covers_witness, lemma_first_range_is_min,
    lemma_gap_bounds_contained, lemma_same_coverage_same_length, part_from,
    lemma_seq_covers_empty, lemma_seq_covers_push, lemma_word_closed_at,
    lemma_word_closed_ranges_aligned, seq_covers, seq_contained_from, seq_wf, word_closed, Range,
    RangeSet,
};

verus! {

/// How the engine schedules requests.
#[derive(Clone, Copy, PartialEq, Eq, Structural, Debug)]
pub enum DownloadStrategy {
    /// Fetch only what is explicitly requested.
    RandomAccess,
    /// Proactively prefetch ahead of the read cursor.
    Streaming,
}

/// External commands consumed by the engine's event loop.
pub enum StreamLoaderCommand {
    Fetch(Range),
    RandomAccessMode,
    StreamMode,
    Close,
}

/// Whether the event loop keeps running after an event.
#[derive(Clone, Copy, PartialEq, Eq, Structural, Debug)]
pub enum ControlFlow {
    Continue,
    Break,
}

/// One range request the caller must put on the wire: send the encoded
/// packet, then spawn a receiver for the returned channel.
pub struct Dispatch {
    pub range: Range,
    /// Whether the receiver of this request should produce a latency sample.
    pub measure_ping: bool,
}

/// Total number of bytes over a list of dispatches.
pub open spec fn dispatch_bytes(d: Seq<Dispatch>) -> int
    decreases d.len(),
{
    if d.len() == 0 {
        0
    } else {
        d[0].range.length + dispatch_bytes(d.drop_first())
    }
}

/// Dispatch bytes split over concatenation.
pub proof fn lemma_dispatch_bytes_concat(a: Seq<Dispatch>, b: Seq<Dispatch>)
    ensures
        dispatch_bytes(a + b) == dispatch_bytes(a) + dispatch_bytes(b),
    decreases a.len(),
{
    if a.len() == 0 {
        assert(a + b =~= b);
    } else {
        assert((a + b).drop_first() =~= a.drop_first() + b);
        assert((a + b)[0] == a[0]);
        lemma_dispatch_bytes_concat(a.drop_first(), b);
    }
}

/// A dispatch list over ranges that all start at or after `v` carries as
/// many bytes as the ranges count from `v`.
pub proof fn lemma_dispatch_bytes_eq_contained(d: Seq<Dispatch>, s: Seq<Range>, v: int)
    requires
        d.len() == s.len(),
        forall|k: int| 0 <= k < d.len() ==> (#[trigger] d[k]).range == s[k],
        forall|k: int| 0 <= k < s.len() ==> v <= (#[trigger] s[k]).start,
    ensures
        dispatch_bytes(d) == seq_contained_from(s, v),
    decreases d.len(),
{
    if d.len() > 0 {
        assert(forall|k: int|
            0 <= k < d.drop_first().len() ==> (#[trigger] d.drop_first()[k]) == d[k + 1]);
        assert(forall|k: int|
            0 <= k < s.drop_first().len() ==> (#[trigger] s.drop_first()[k]) == s[k + 1]);
        assert(d[0].range == s[0]);
        assert(part_from(s[0], v) == s[0].length);
        lemma_dispatch_bytes_eq_contained(d.drop_first(), s.drop_first(), v);
    }
}

/// The shared download bookkeeping: which bytes were requested from the
/// server and which have arrived.  The caller guards it with its lock and
/// wakes all waiting readers after every mutation.
pub struct DownloadStatus {
    pub requested: RangeSet,
    pub downloaded: RangeSet,
}

impl DownloadStatus {
    pub open spec fn wf(self) -> bool {
        self.requested.wf() && self.downloaded.wf()
    }

    pub fn new() -> (r: DownloadStatus)
        ensures
            r.wf(),
            forall|x: int| !(#[trigger] r.requested.covers(x)),
            forall|x: int| !(#[trigger] r.downloaded.covers(x)),
    {
        DownloadStatus { requested: RangeSet::new(), downloaded: RangeSet::new() }
    }

    /// Retract a trailing sub-range that a receiver could not obtain, making
    /// those bytes eligible for a new request.
    pub fn retract(&mut self, missing: &Range)
        requires
            old(self).wf(),
            missing.length > 0,
            missing.start + missing.length <= usize::MAX,
        ensures
            final(self).wf(),
            forall|x: int|
                #[trigger] final(self).requested.covers(x) <==> old(self).requested.covers(x)
                    && !missing.spec_contains(x),
            final(self).downloaded == old(self).downloaded,
    {
        self.requested.subtract_range(missing);
    }
}

/// Saturating addition within `usize`.
pub open spec fn sat_add(a: int, b: int) -> int {
    if a + b <= usize::MAX {
        a + b
    } else {
        usize::MAX as int
    }
}

/// Every covered byte comes with the rest of its 4-byte word.
pub open spec fn word_aligned(s: RangeSet) -> bool {
    word_closed(s.ranges())
}

/// Request lengths below the minimum are grown to it.
pub open spec fn grown_length(length: int) -> int {
    if length < MINIMUM_DOWNLOAD_SIZE {
        MINIMUM_DOWNLOAD_SIZE as int
    } else {
        length
    }
}

/// `n` rounded up to a multiple of 4.
pub open spec fn ceil4(n: int) -> int {
    if n % 4 == 0 {
        n
    } else {
        n + 4 - n % 4
    }
}

/// First byte of the aligned request window.
pub open spec fn window_lo(offset: int) -> int {
    offset - offset % 4
}

/// One past the last byte of the aligned request window.
pub open spec fn window_hi(offset: int, length: int, file_size: int) -> int {
    ceil4(
        if offset + grown_length(length) > file_size {
            file_size
        } else {
            offset + grown_length(length)
        },
    )
}

/// The orchestrating state machine of one file fetch.
pub struct FetchEngine {
    /// Total size of the file, immutable.
    pub file_size: usize,
    /// Bytes per second the consumer is expected to read, immutable.
    pub stream_data_rate: usize,
    /// Current read cursor of the external reader.
    pub read_position: usize,
    /// Smoothed round-trip estimate in milliseconds.
    pub ping_time_ms: usize,
    /// Current download strategy.
    pub strategy: DownloadStrategy,
    /// Shared download bookkeeping.
    pub status: DownloadStatus,
    /// Rolling window of the most recent latency samples, at most three.
    pub network_response_times_ms: Vec<usize>,
    /// Count of dispatched but not yet finished requests.
    pub number_of_open_requests: usize,
    /// Whether the completed output has been handed off.
    pub finished: bool,
}

/// The fields download dispatch never touches.
pub open spec fn same_config(pre: FetchEngine, post: FetchEngine) -> bool {
    &&& post.file_size == pre.file_size
    &&& post.stream_data_rate == pre.stream_data_rate
    &&& post.read_position == pre.read_position
    &&& post.ping_time_ms == pre.ping_time_ms
    &&& post.strategy == pre.strategy
    &&& post.network_response_times_ms == pre.network_response_times_ms
    &&& post.finished == pre.finished
    &&& post.status.downloaded == pre.status.downloaded
}

impl FetchEngine {
    pub open spec fn wf(self) -> bool {
        &&& self.status.wf()
        &&& self.file_size + 4 <= usize::MAX
        &&& forall|x: int|
            #[trigger] self.status.downloaded.covers(x) ==> 0 <= x < self.file_size
        &&& self.read_position <= self.file_size
        &&& self.ping_time_ms <= MAXIMUM_ASSUMED_PING_TIME_MS
        &&& self.network_response_times_ms@.len() <= 3
        &&& forall|k: int|
            0 <= k < self.network_response_times_ms@.len()
                ==> (#[trigger] self.network_response_times_ms@[k])
                    <= MAXIMUM_ASSUMED_PING_TIME_MS
    }

    /// A fresh engine for one file.  The caller has already requested the
    /// initial range `[0, initial_data_length)` and spawned its receiver, so
    /// that range starts out `requested` and one request counts as open.
    pub fn new(file_size: usize, stream_data_rate: usize, initial_data_length: usize) -> (r:
        FetchEngine)
        requires
            file_size + 4 <= usize::MAX,
            initial_data_length <= file_size,
        ensures
            r.wf(),
            r.file_size == file_size,
            r.stream_data_rate == stream_data_rate,
            r.read_position == 0,
            r.ping_time_ms == 0,
            r.strategy == DownloadStrategy::RandomAccess,
            r.network_response_times_ms@.len() == 0,
            r.number_of_open_requests == 1,
            !r.finished,
            forall|x: int|
                #[trigger] r.status.requested.covers(x) <==> 0 <= x < initial_data_length,
            forall|x: int| !(#[trigger] r.status.downloaded.covers(x)),
    {
        let mut status = DownloadStatus::new();
        if initial_data_length > 0 {
            status.requested.add_range(&(Range { start: 0, length: initial_data_length }));
        }
        FetchEngine {
            file_size,
            stream_data_rate,
            read_position: 0,
            ping_time_ms: 0,
            strategy: DownloadStrategy::RandomAccess,
            status,
            network_response_times_ms: Vec::new(),
            number_of_open_requests: 1,
            finished: false,
        }
    }
}

impl FetchEngine {
    /// Dispatch requests so that `[offset, offset + length)`, clipped to the
    /// file and grown to the minimum request size, becomes fully requested.
    /// Bytes already requested or downloaded are skipped; each returned
    /// dispatch is a fresh disjoint aligned-window sub-range, already marked
    /// `requested`, to be sent and given a receiver by the caller.
    #[verifier::rlimit(100)]
    pub fn download_range(&mut self, offset: usize, length: usize) -> (r: Vec<Dispatch>)
        requires
            old(self).wf(),
        ensures
            final(self).wf(),
            same_config(*old(self), *final(self)),
            final(self).number_of_open_requests == sat_add(
                old(self).number_of_open_requests as int,
                r@.len() as int,
            ),
            forall|k: int|
                0 <= k < r@.len() ==> ((#[trigger] r@[k]).measure_ping <==> (old(self).number_of_open_requests == 0 && k == 0)),
            forall|k: int|
                0 <= k < r@.len() ==> (#[trigger] r@[k]).range.length > 0 && window_lo(
                    offset as int,
                ) <= r@[k].range.start && r@[k].range.start + r@[k].range.length <= window_hi(
                    offset as int,
                    length as int,
                    old(self).file_size as int,
                ) && r@[k].range.start + r@[k].range.length <= usize::MAX,
            forall|k1: int, k2: int|
                0 <= k1 < k2 < r@.len() ==> (#[trigger] r@[k1]).range.start + r@[
                    k1
                ].range.length < (#[trigger] r@[k2]).range.start,
            forall|k: int, x: int|
                0 <= k < r@.len() && #[trigger] r@[k].range.spec_contains(x) ==> !old(self).status.requested.covers(x) && !old(self).status.downloaded.covers(x),
            forall|x: int|
                #[trigger] final(self).status.requested.covers(x) <==> old(self).status.requested.covers(x) || (exists|k: int|
                    0 <= k < r@.len() && (#[trigger] r@[k]).range.spec_contains(x)),
            forall|x: int|
                offset <= x && x < offset + length && x < old(self).file_size ==> (
                #[trigger] final(self).status.requested.covers(x)) || old(self).status.downloaded.covers(x),
            offset >= old(self).file_size ==> r@.len() == 0,
            dispatch_bytes(r@) >= 0,
            offset < old(self).file_size ==> dispatch_bytes(r@) <= window_hi(
                offset as int,
                length as int,
                old(self).file_size as int,
            ) - window_lo(offset as int),
            offset < old(self).file_size ==> (forall|x: int|
                window_lo(offset as int) <= x < window_hi(
                    offset as int,
                    length as int,
                    old(self).file_size as int,
                ) && !(#[trigger] old(self).status.requested.covers(x)) && !old(
                    self,
                ).status.downloaded.covers(x) ==> (exists|k: int|
                    0 <= k < r@.len() && (#[trigger] r@[k]).range.spec_contains(x))),
    {
        let mut result: Vec<Dispatch> = Vec::new();
        if offset >= self.file_size {
            proof {
                assert(dispatch_bytes(result@) == 0);
            }
            return result;
        }
        let grown: usize = if length < MINIMUM_DOWNLOAD_SIZE {
            MINIMUM_DOWNLOAD_SIZE
        } else {
            length
        };
        let clipped: usize = if grown > self.file_size - offset {
            self.file_size - offset
        } else {
            grown
        };
        let mut aligned_offset = offset;
        let mut aligned_length = clipped;
        if offset % 4 != 0 {
            aligned_length = aligned_length + offset % 4;
            aligned_offset = offset - offset % 4;
        }
        if aligned_length % 4 != 0 {
            aligned_length = aligned_length + (4 - aligned_length % 4);
        }
        let ghost wlo = window_lo(offset as int);
        let ghost whi = window_hi(offset as int, length as int, self.file_size as int);
        proof {
            assert(aligned_offset == wlo);
            assert(aligned_offset + aligned_length == whi);
        }

        let mut to_request = RangeSet::new();
        to_request.add_range(&(Range { start: aligned_offset, length: aligned_length }));
        to_request.subtract_range_set(&self.status.downloaded);
        to_request.subtract_range_set(&self.status.requested);

        let ghost req0 = self.status.requested;
        let ghost downl0 = self.status.downloaded;
        let ghost open0 = self.number_of_open_requests as int;
        let ghost init = *self;

        let n = to_request.num_ranges();
        let mut i: usize = 0;
        proof {
            assert(to_request.ranges().subrange(0, 0) =~= Seq::<Range>::empty());
            lemma_seq_covers_empty(to_request.ranges().subrange(0, 0));
        }
        while i < n
            invariant
                i <= n,
                n == to_request.ranges().len(),
                to_request.wf(),
                self.wf(),
                same_config(init, *self),
                init.status.requested == req0,
                init.status.downloaded == downl0,
                req0.wf(),
                init.wf(),
                forall|x: int|
                    #[trigger] to_request.covers(x) <==> (wlo <= x < whi && !req0.covers(x)
                        && !downl0.covers(x)),
                0 <= open0,
                open0 == init.number_of_open_requests,
                result@.len() == i,
                forall|k: int| 0 <= k < i ==> (#[trigger] result@[k]).range == to_request.ranges()[k],
                forall|k: int|
                    0 <= k < i ==> ((#[trigger] result@[k]).measure_ping <==> (open0 == 0 && k
                        == 0)),
                self.number_of_open_requests == sat_add(open0, i as int),
                forall|x: int|
                    #[trigger] self.status.requested.covers(x) <==> req0.covers(x) || seq_covers(
                        to_request.ranges().subrange(0, i as int),
                        x,
                    ),
            decreases n - i,
        {
            let range = to_request.get_range(i);
            proof {
                assert(range == to_request.ranges()[i as int]);
                lemma_covers_from_index(to_request.ranges(), i as int, range.start as int);
            }
            let measure = self.number_of_open_requests == 0;
            result.push(Dispatch { range, measure_ping: measure });
            let ghost req_pre = self.status.requested;
            self.status.requested.add_range(&range);
            if self.number_of_open_requests < usize::MAX {
                self.number_of_open_requests = self.number_of_open_requests + 1;
            }
            proof {
                assert(to_request.ranges().subrange(0, i + 1 as int) =~= to_request
                    .ranges()
                    .subrange(0, i as int)
                    .push(range));
                assert forall|x: int|
                    #[trigger] self.status.requested.covers(x) <==> req0.covers(x) || seq_covers(
                        to_request.ranges().subrange(0, i + 1 as int),
                        x,
                    ) by {
                    lemma_seq_covers_push(
                        to_request.ranges().subrange(0, i as int),
                        range,
                        x,
                    );
                    assert(self.status.requested.covers(x) <==> (req_pre.covers(x)
                        || range.spec_contains(x)));
                }
            }
            i += 1;
        }
        proof {
            assert(to_request.ranges().subrange(0, n as int) =~= to_request.ranges());
            // Each dispatched range's bytes were neither requested nor
            // downloaded, and lie inside the aligned window.
            assert forall|k: int, x: int|
                0 <= k < result@.len() && #[trigger] result@[k].range.spec_contains(x)
                    implies !req0.covers(x) && !downl0.covers(x) && wlo <= x < whi by {
                assert(result@[k].range == to_request.ranges()[k]);
                lemma_covers_from_index(to_request.ranges(), k, x);
                assert(to_request.covers(x));
            }
            assert forall|k: int| 0 <= k < result@.len() implies (#[trigger] result@[
                k
            ]).range.length > 0 && wlo <= result@[k].range.start && result@[k].range.start
                + result@[k].range.length <= whi && result@[k].range.start + result@[
                k
            ].range.length <= usize::MAX by {
                let e = to_request.ranges()[k];
                assert(e.spec_contains(e.start as int));
                lemma_covers_from_index(to_request.ranges(), k, e.start as int);
                assert(e.spec_contains(e.start + e.length - 1));
                lemma_covers_from_index(to_request.ranges(), k, e.start + e.length - 1);
            }
            // The requested set grew by exactly the dispatched ranges.
            assert forall|x: int|
                #[trigger] self.status.requested.covers(x) <==> init.status.requested.covers(x)
                    || (exists|k: int|
                    0 <= k < result@.len() && (#[trigger] result@[k]).range.spec_contains(x)) by {
                if seq_covers(to_request.ranges(), x) {
                    lemma_covers_witness(to_request.ranges(), x);
                    let k = choose|k: int|
                        0 <= k < to_request.ranges().len() && #[trigger] to_request.ranges()[
                            k
                        ].spec_contains(x);
                    assert(result@[k].range.spec_contains(x));
                }
                if exists|k: int|
                    0 <= k < result@.len() && (#[trigger] result@[k]).range.spec_contains(x) {
                    let k = choose|k: int|
                        0 <= k < result@.len() && (#[trigger] result@[k]).range.spec_contains(x);
                    lemma_covers_from_index(to_request.ranges(), k, x);
                }
            }
            // Every byte the caller asked for, clipped to the file, is now requested or
            // was already downloaded.
            assert forall|x: int|
                offset <= x && x < offset + length && x < init.file_size implies (
            #[trigger] self.status.requested.covers(x)) || init.status.downloaded.covers(x) by {
                if !req0.covers(x) && !downl0.covers(x) {
                    assert(wlo <= x < whi);
                    assert(to_request.covers(x));
                    lemma_covers_witness(to_request.ranges(), x);
                }
            }
            // Every missing byte of the aligned window went into a dispatch.
            assert forall|x: int|
                wlo <= x < whi && !(#[trigger] req0.covers(x)) && !downl0.covers(x) implies (
            exists|k: int|
                0 <= k < result@.len() && (#[trigger] result@[k]).range.spec_contains(x)) by {
                assert(to_request.covers(x));
                lemma_covers_witness(to_request.ranges(), x);
                let k = choose|k: int|
                    0 <= k < to_request.ranges().len() && #[trigger] to_request.ranges()[
                        k
                    ].spec_contains(x);
                assert(result@[k].range.spec_contains(x));
            }
            // The dispatched bytes fit inside the aligned window.
            assert forall|k: int| 0 <= k < n implies wlo <= (#[trigger] to_request.ranges()[
            k
            ]).start by {
                assert(result@[k].range == to_request.ranges()[k]);
                assert(wlo <= result@[k].range.start);
            }
            lemma_dispatch_bytes_eq_contained(result@, to_request.ranges(), wlo);
            lemma_contained_nonneg(to_request.ranges(), wlo);
            if n > 0 {
                lemma_contained_upper(to_request.ranges(), wlo);
                assert(result@[n - 1].range == to_request.ranges()[n - 1]);
                assert(to_request.ranges()[n - 1].start + to_request.ranges()[n - 1].length
                    <= whi);
            }
            assert(wlo <= whi);
        }
        result
    }
    /// The prefetch planner: repeatedly pick the first missing range after
    /// the read cursor (or, failing that, from the start of the file) and
    /// request it, until the byte budget or the request budget runs out or
    /// nothing is missing.
    pub fn pre_fetch_more_data(&mut self, bytes: usize, max_requests_to_send: usize) -> (r: Vec<
        Dispatch,
    >)
        requires
            old(self).wf(),
        ensures
            final(self).wf(),
            same_config(*old(self), *final(self)),
            final(self).number_of_open_requests == sat_add(
                old(self).number_of_open_requests as int,
                r@.len() as int,
            ),
            forall|x: int|
                #[trigger] final(self).status.requested.covers(x) <==> old(self).status.requested.covers(x) || (exists|k: int|
                    0 <= k < r@.len() && (#[trigger] r@[k]).range.spec_contains(x)),
            forall|k: int| 0 <= k < r@.len() ==> (#[trigger] r@[k]).range.length > 0,
            forall|k: int, x: int|
                0 <= k < r@.len() && #[trigger] r@[k].range.spec_contains(x) ==> !old(self).status.requested.covers(x) && !old(self).status.downloaded.covers(x),
            forall|k1: int, k2: int, x: int|
                0 <= k1 < k2 < r@.len() ==> !(#[trigger] r@[k1].range.spec_contains(x)
                    && #[trigger] r@[k2].range.spec_contains(x)),
            (bytes > 0 && max_requests_to_send > 0 && (exists|x: int|
                0 <= x < old(self).file_size && !(#[trigger] old(self).status.requested.covers(x))
                    && !old(self).status.downloaded.covers(x))) ==> r@.len() > 0,
            (forall|x: int|
                0 <= x < old(self).file_size ==> (#[trigger] old(self).status.requested.covers(x))
                    || old(self).status.downloaded.covers(x)) ==> r@.len() == 0,
            // Both budgets bound the work: at most `max_requests_to_send`
            // planning rounds run, each requesting at most the remaining byte
            // budget, grown to the minimum request size and aligned.
            dispatch_bytes(r@) >= 0,
            dispatch_bytes(r@) <= max_requests_to_send * (grown_length(bytes as int) + 6),
            // Tail-after-cursor has priority: when bytes at or after the read
            // cursor are missing, the first dispatch starts at or below every
            // such byte and within three bytes below one of them.
            (bytes > 0 && max_requests_to_send > 0 && (exists|x: int|
                old(self).read_position <= x < old(self).file_size && !(
                #[trigger] old(self).status.requested.covers(x)) && !old(self).status.downloaded.covers(x))) ==> (r@.len() > 0 && (forall|x: int|
                old(self).read_position <= x < old(self).file_size && !(
                #[trigger] old(self).status.requested.covers(x)) && !old(self).status.downloaded.covers(x) ==> r@[0].range.start <= x) && (exists|x: int|
                r@[0].range.start <= x <= r@[0].range.start + 3 && old(self).read_position <= x
                    && x < old(self).file_size && !(#[trigger] old(self).status.requested.covers(x)) && !old(self).status.downloaded.covers(x))),
    {
        let ghost init = *self;
        let ghost round_cap = grown_length(bytes as int) + 6;
        let mut result: Vec<Dispatch> = Vec::new();
        let mut bytes_to_go: usize = bytes;
        let mut requests_to_go: usize = max_requests_to_send;

        while bytes_to_go > 0 && requests_to_go > 0
            invariant
                init == *old(self),
                self.wf(),
                init.wf(),
                same_config(init, *self),
                self.number_of_open_requests == sat_add(
                    init.number_of_open_requests as int,
                    result@.len() as int,
                ),
                forall|x: int|
                    #[trigger] self.status.requested.covers(x) <==> init.status.requested.covers(x)
                        || (exists|k: int|
                        0 <= k < result@.len() && (#[trigger] result@[k]).range.spec_contains(x)),
                forall|k: int|
                    0 <= k < result@.len() ==> (#[trigger] result@[k]).range.length > 0,
                forall|k: int, x: int|
                    0 <= k < result@.len() && #[trigger] result@[k].range.spec_contains(x)
                        ==> !init.status.requested.covers(x) && !init.status.downloaded.covers(x),
                forall|k1: int, k2: int, x: int|
                    0 <= k1 < k2 < result@.len() ==> !(#[trigger] result@[k1].range.spec_contains(x)
                        && #[trigger] result@[k2].range.spec_contains(x)),
                result@.len() == 0 ==> (bytes_to_go == bytes && requests_to_go
                    == max_requests_to_send),
                result@.len() > 0 ==> (exists|x: int|
                    0 <= x < init.file_size && !(#[trigger] init.status.requested.covers(x))
                        && !init.status.downloaded.covers(x)),
                bytes_to_go <= bytes,
                requests_to_go <= max_requests_to_send,
                round_cap == grown_length(bytes as int) + 6,
                dispatch_bytes(result@) >= 0,
                dispatch_bytes(result@) <= (max_requests_to_send - requests_to_go) * round_cap,
                result@.len() > 0 ==> ((forall|x: int|
                    init.read_position <= x < init.file_size && !(
                    #[trigger] init.status.requested.covers(x))
                        && !init.status.downloaded.covers(x) ==> result@[0].range.start <= x) && ((
                exists|x: int|
                    init.read_position <= x < init.file_size && !(
                    #[trigger] init.status.requested.covers(x))
                        && !init.status.downloaded.covers(x)) ==> (exists|x: int|
                    result@[0].range.start <= x <= result@[0].range.start + 3
                        && init.read_position <= x && x < init.file_size && !(
                    #[trigger] init.status.requested.covers(x)) && !init.status.downloaded.covers(
                        x,
                    )))),
            decreases bytes_to_go,
        {
            let ghost self_req_head = self.status.requested;
            // What is still missing anywhere in the file.
            let mut missing = RangeSet::new();
            if self.file_size > 0 {
                missing.add_range(&(Range { start: 0, length: self.file_size }));
            }
            missing.subtract_range_set(&self.status.downloaded);
            missing.subtract_range_set(&self.status.requested);

            // Bytes after the current read position come first.
            let mut tail_all = RangeSet::new();
            let read_position = self.read_position;
            if read_position < self.file_size {
                tail_all.add_range(
                    &(Range { start: read_position, length: self.file_size - read_position }),
                );
            }
            let tail = tail_all.intersection(&missing);

            let picked: Range;
            let ghost mut from_tail = false;
            if !tail.is_empty() {
                picked = tail.get_range(0);
                proof {
                    from_tail = true;
                    lemma_covers_from_index(tail.ranges(), 0, picked.start as int);
                    assert(tail.covers(picked.start as int));
                }
            } else if !missing.is_empty() {
                picked = missing.get_range(0);
                proof {
                    lemma_covers_from_index(missing.ranges(), 0, picked.start as int);
                    assert(missing.covers(picked.start as int));
                }
            } else {
                proof {
                    // Nothing is missing: if no request went out yet, no byte
                    // of the file was missing to begin with.
                    if result@.len() == 0 {
                        assert forall|x: int|
                            0 <= x < init.file_size implies (
                        #[trigger] init.status.requested.covers(x))
                            || init.status.downloaded.covers(x) by {
                            assert(!missing.covers(x));
                        }
                    }
                }
                proof {
                assert(dispatch_bytes(result@) <= max_requests_to_send * round_cap) by {
                    assert((max_requests_to_send - requests_to_go) * round_cap
                        <= max_requests_to_send * round_cap) by (nonlinear_arith)
                        requires
                            0 <= requests_to_go,
                            0 <= round_cap,
                            (max_requests_to_send - requests_to_go) as int <= max_requests_to_send as int,
                    ;
                }
                }
                return result;
            }
            proof {
                assert(missing.covers(picked.start as int));
                assert(picked.length > 0);
                assert(0 <= picked.start < init.file_size);
                assert(!self.status.requested.covers(picked.start as int));
                assert(!init.status.requested.covers(picked.start as int));
                assert(!init.status.downloaded.covers(picked.start as int));
            }
            let length: usize = if picked.length < bytes_to_go {
                picked.length
            } else {
                bytes_to_go
            };
            let ghost req_pre = self.status.requested;
            let ghost res_pre = result@;
            let mut dispatched = self.download_range(picked.start, length);
            let ghost disp = dispatched@;
            result.append(&mut dispatched);
            proof {
                assert(result@ == res_pre + disp);
                // At least one request went out: the first missing byte was
                // neither downloaded nor requested.
                assert(self.status.requested.covers(picked.start as int));
                assert(res_pre.len() < result@.len()) by {
                    if disp.len() == 0 {
                        assert(req_pre.covers(picked.start as int));
                        assert(false);
                    }
                }
                // Re-establish the dispatch bookkeeping over the combined list.
                assert forall|x: int|
                    #[trigger] self.status.requested.covers(x) <==> init.status.requested.covers(x)
                        || (exists|k: int|
                        0 <= k < result@.len() && (#[trigger] result@[k]).range.spec_contains(x)) by {
                    if self.status.requested.covers(x) {
                        if !init.status.requested.covers(x) {
                            if req_pre.covers(x) {
                                let k = choose|k: int|
                                    0 <= k < res_pre.len() && (#[trigger] res_pre[
                                        k
                                    ]).range.spec_contains(x);
                                assert(result@[k].range.spec_contains(x));
                            } else {
                                let k = choose|k: int|
                                    0 <= k < disp.len() && (#[trigger] disp[
                                        k
                                    ]).range.spec_contains(x);
                                assert(result@[res_pre.len() + k].range.spec_contains(x));
                            }
                        }
                    }
                    if exists|k: int|
                        0 <= k < result@.len() && (#[trigger] result@[k]).range.spec_contains(x) {
                        let k = choose|k: int|
                            0 <= k < result@.len() && (#[trigger] result@[k]).range.spec_contains(
                                x,
                            );
                        if k < res_pre.len() {
                            assert(res_pre[k].range.spec_contains(x));
                            assert(req_pre.covers(x));
                        } else {
                            assert(disp[k - res_pre.len()].range.spec_contains(x));
                        }
                    }
                }
                assert forall|k: int, x: int|
                    0 <= k < result@.len() && #[trigger] result@[k].range.spec_contains(x)
                        implies !init.status.requested.covers(x)
                        && !init.status.downloaded.covers(x) by {
                    if k < res_pre.len() {
                        assert(res_pre[k].range.spec_contains(x));
                    } else {
                        assert(disp[k - res_pre.len()].range.spec_contains(x));
                        assert(!req_pre.covers(x));
                    }
                }
                assert forall|k1: int, k2: int, x: int|
                    0 <= k1 < k2 < result@.len() implies !(#[trigger] result@[
                    k1
                ].range.spec_contains(x) && #[trigger] result@[k2].range.spec_contains(x)) by {
                    if result@[k1].range.spec_contains(x) && result@[k2].range.spec_contains(x) {
                        if k2 < res_pre.len() {
                            assert(res_pre[k1].range.spec_contains(x));
                            assert(res_pre[k2].range.spec_contains(x));
                        } else if k1 >= res_pre.len() {
                            assert(disp[k1 - res_pre.len()].range.spec_contains(x));
                            assert(disp[k2 - res_pre.len()].range.spec_contains(x));
                        } else {
                            // An older dispatch is already `requested`; a new
                            // one cannot overlap it.
                            assert(res_pre[k1].range.spec_contains(x));
                            assert(req_pre.covers(x));
                            assert(disp[k2 - res_pre.len()].range.spec_contains(x));
                        }
                    }
                }
                assert forall|k: int| 0 <= k < result@.len() implies (#[trigger] result@[
                k
                ]).range.length > 0 by {
                    if k >= res_pre.len() {
                        assert(disp[k - res_pre.len()].range.length > 0);
                    }
                }
                // Budget accounting: this round's dispatched bytes fit inside
                // one aligned window of the clamped request.
                lemma_dispatch_bytes_concat(res_pre, disp);
                assert(window_hi(picked.start as int, length as int, init.file_size as int)
                    <= picked.start + grown_length(length as int) + 3);
                assert(window_lo(picked.start as int) >= picked.start - 3);
                assert(grown_length(length as int) <= grown_length(bytes as int));
                assert(dispatch_bytes(disp) <= round_cap);
                assert((max_requests_to_send - requests_to_go) * round_cap + round_cap == (
                max_requests_to_send - (requests_to_go - 1)) * round_cap) by (nonlinear_arith);
                assert(dispatch_bytes(result@) <= (max_requests_to_send - (requests_to_go - 1))
                    * round_cap) by {
                    assert((max_requests_to_send - requests_to_go) * round_cap >= 0) by (
                    nonlinear_arith)
                        requires
                            requests_to_go <= max_requests_to_send,
                            round_cap >= 0,
                    ;
                }
                // Tail-after-cursor priority: on the first dispatch, record
                // where the first returned range starts.
                if res_pre.len() == 0 {
                    assert(result@[0] == disp[0]);
                    let ps = picked.start as int;
                    // The first dispatched range starts at or before the
                    // picked byte and within its aligned window.
                    assert(!req_pre.covers(ps));
                    let k = choose|k: int|
                        0 <= k < disp.len() && (#[trigger] disp[k]).range.spec_contains(ps);
                    if k > 0 {
                        assert(disp[0].range.start + disp[0].range.length < disp[k].range.start);
                    }
                    assert(disp[0].range.start <= ps);
                    assert(window_lo(ps) <= disp[0].range.start);
                    assert(ps - 3 <= disp[0].range.start);
                    if from_tail {
                        // Every missing byte at or after the cursor lies in
                        // `tail`, whose first range starts least.
                        lemma_first_range_is_min(tail.ranges());
                        assert forall|x: int|
                            init.read_position <= x < init.file_size && !(
                            #[trigger] init.status.requested.covers(x))
                                && !init.status.downloaded.covers(x) implies result@[
                        0
                        ].range.start <= x by {
                            assert(!self_req_head.covers(x));
                            assert(missing.covers(x));
                            assert(tail_all.covers(x));
                            assert(tail.covers(x));
                            assert(picked.start <= x);
                        }
                        assert(tail_all.covers(ps));
                        assert(init.read_position <= ps < init.file_size);
                        assert(result@[0].range.start <= ps <= result@[0].range.start + 3);
                    } else {
                        // The tail was empty, so no byte at or after the
                        // cursor was missing at all.
                        assert forall|x: int|
                            init.read_position <= x < init.file_size && !(
                            #[trigger] init.status.requested.covers(x))
                                && !init.status.downloaded.covers(x) implies false by {
                            assert(!self_req_head.covers(x));
                            assert(missing.covers(x));
                            assert(tail_all.covers(x));
                            assert(tail.covers(x));
                        }
                    }
                } else {
                    assert(result@[0] == res_pre[0]);
                }
            }
            requests_to_go = requests_to_go - 1;
            bytes_to_go = bytes_to_go - length;
        }
        proof {
            if bytes > 0 && max_requests_to_send > 0 && result@.len() == 0 {
                assert(bytes_to_go == bytes);
                assert(false);
            }
            assert(dispatch_bytes(result@) <= max_requests_to_send * round_cap) by {
                assert((max_requests_to_send - requests_to_go) * round_cap
                    <= max_requests_to_send * round_cap) by (nonlinear_arith)
                    requires
                        0 <= requests_to_go,
                        0 <= round_cap,
                        (max_requests_to_send - requests_to_go) as int <= max_requests_to_send as int,
                ;
            }
        }
        result
    }
    /// The prefetch sizing formula: the larger of one round trip of nominal
    /// consumption and one round trip of the measured transfer rate, scaled
    /// by the configured factors.
    pub open spec fn spec_desired_pending_bytes(
        ping_time_ms: int,
        stream_data_rate: int,
        download_rate: int,
    ) -> int {
        let nominal = PREFETCH_THRESHOLD_FACTOR * ping_time_ms * stream_data_rate / 1000;
        let measured = FAST_PREFETCH_THRESHOLD_FACTOR_NUM * ping_time_ms * download_rate / (1000
            * FAST_PREFETCH_THRESHOLD_FACTOR_DEN);
        if nominal >= measured {
            nominal
        } else {
            measured
        }
    }

    /// How many pending bytes the prefetch heuristic wants, capped at what
    /// `usize` can hold.
    fn desired_pending_bytes(&self, download_rate: usize) -> (r: usize)
        requires
            self.wf(),
        ensures
            ({
                let d = Self::spec_desired_pending_bytes(
                    self.ping_time_ms as int,
                    self.stream_data_rate as int,
                    download_rate as int,
                );
                r == if d <= usize::MAX {
                    d
                } else {
                    usize::MAX as int
                }
            }),
    {
        let ping: u128 = self.ping_time_ms as u128;
        proof {
            assert((4u128 * ping) * (self.stream_data_rate as u128) < u128::MAX) by (
            nonlinear_arith)
                requires
                    ping <= 200,
                    self.stream_data_rate <= usize::MAX,
            ;
            assert((3u128 * ping) * (download_rate as u128) < u128::MAX) by (nonlinear_arith)
                requires
                    ping <= 200,
                    download_rate <= usize::MAX,
            ;
        }
        let nominal: u128 = (PREFETCH_THRESHOLD_FACTOR as u128) * ping * (
        self.stream_data_rate as u128) / 1000;
        let measured: u128 = (FAST_PREFETCH_THRESHOLD_FACTOR_NUM as u128) * ping * (
        download_rate as u128) / (1000 * FAST_PREFETCH_THRESHOLD_FACTOR_DEN as u128);
        let desired: u128 = if nominal >= measured {
            nominal
        } else {
            measured
        };
        if desired > usize::MAX as u128 {
            usize::MAX
        } else {
            desired as usize
        }
    }

    /// Fire the prefetch heuristic: when fewer than the maximum requests are
    /// open and the bytes still pending fall short of the desired buffer,
    /// hand the shortfall to the planner.
    pub fn trigger_preload(&mut self, download_rate: usize) -> (r: Vec<Dispatch>)
        requires
            old(self).wf(),
        ensures
            final(self).wf(),
            same_config(*old(self), *final(self)),
            final(self).number_of_open_requests == sat_add(
                old(self).number_of_open_requests as int,
                r@.len() as int,
            ),
            forall|x: int|
                #[trigger] final(self).status.requested.covers(x) <==> old(self).status.requested.covers(x) || (exists|k: int|
                    0 <= k < r@.len() && (#[trigger] r@[k]).range.spec_contains(x)),
            forall|k: int, x: int|
                0 <= k < r@.len() && #[trigger] r@[k].range.spec_contains(x) ==> !old(self).status.requested.covers(x) && !old(self).status.downloaded.covers(x),
            old(self).number_of_open_requests >= MAX_PREFETCH_REQUESTS ==> r@.len() == 0,
            (forall|x: int|
                0 <= x < old(self).file_size ==> (#[trigger] old(self).status.requested.covers(x))
                    || old(self).status.downloaded.covers(x)) ==> r@.len() == 0,
            // When nothing was dispatched although a request slot was free
            // and bytes were missing, the pending bytes already met the
            // prefetch formula.
            (r@.len() == 0 && old(self).number_of_open_requests < MAX_PREFETCH_REQUESTS && (
            exists|x: int|
                0 <= x < old(self).file_size && !(#[trigger] old(self).status.requested.covers(x))
                    && !old(self).status.downloaded.covers(x))) ==> (exists|pending: RangeSet|
                pending.wf() && (forall|x: int|
                    #[trigger] pending.covers(x) <==> old(self).status.requested.covers(x) && !old(self).status.downloaded.covers(x)) && (seq_contained_from(pending.ranges(), 0)
                    >= Self::spec_desired_pending_bytes(
                    old(self).ping_time_ms as int,
                    old(self).stream_data_rate as int,
                    download_rate as int,
                ) || seq_contained_from(pending.ranges(), 0) >= usize::MAX)),
            // The heuristic never over-fetches: once the pending bytes meet
            // the formula, nothing is dispatched.
            forall|pending: RangeSet|
                (pending.wf() && (forall|x: int|
                    #[trigger] pending.covers(x) <==> old(self).status.requested.covers(x) && !old(self).status.downloaded.covers(x)) && (#[trigger] seq_contained_from(
                    pending.ranges(),
                    0,
                )) >= Self::spec_desired_pending_bytes(
                    old(self).ping_time_ms as int,
                    old(self).stream_data_rate as int,
                    download_rate as int,
                )) ==> r@.len() == 0,
    {
        if self.number_of_open_requests >= MAX_PREFETCH_REQUESTS {
            return Vec::new();
        }
        let max_requests_to_send = MAX_PREFETCH_REQUESTS - self.number_of_open_requests;
        let ghost req0 = self.status.requested;
        let ghost downl0 = self.status.downloaded;
        let pending_set = self.status.requested.minus(&self.status.downloaded);
        let bytes_pending = pending_set.len();
        let desired_pending_bytes = self.desired_pending_bytes(download_rate);
        let ghost desired_spec = Self::spec_desired_pending_bytes(
            self.ping_time_ms as int,
            self.stream_data_rate as int,
            download_rate as int,
        );
        proof {
            // Any set with the pending coverage counts the same bytes as the
            // one computed here: the representation is canonical.
            assert forall|pending: RangeSet|
                (pending.wf() && (forall|x: int|
                    #[trigger] pending.covers(x) <==> req0.covers(x) && !downl0.covers(x)))
                    implies seq_contained_from(pending.ranges(), 0) == bytes_pending by {
                assert forall|x: int|
                    #[trigger] seq_covers(pending.ranges(), x) <==> seq_covers(
                        pending_set.ranges(),
                        x,
                    ) by {
                    assert(pending.covers(x) <==> (req0.covers(x) && !downl0.covers(x)));
                    assert(pending_set.covers(x) <==> (req0.covers(x) && !downl0.covers(x)));
                }
                lemma_same_coverage_same_length(pending.ranges(), pending_set.ranges(), 0);
            }
        }
        if bytes_pending < desired_pending_bytes {
            self.pre_fetch_more_data(desired_pending_bytes - bytes_pending, max_requests_to_send)
        } else {
            proof {
                // The already-pending bytes serve as the witness.
                assert(pending_set.wf());
                assert(seq_contained_from(pending_set.ranges(), 0) >= desired_pending_bytes);
            }
            Vec::new()
        }
    }

    /// Record one latency sample: keep the three most recent samples and
    /// re-estimate the round trip as the single sample, the mean of two, or
    /// the median of three.
    pub fn handle_response_time(&mut self, response_time_ms: usize)
        requires
            old(self).wf(),
            response_time_ms <= MAXIMUM_ASSUMED_PING_TIME_MS,
        ensures
            final(self).wf(),
            final(self).network_response_times_ms@ == (if old(self).network_response_times_ms@.len() < 3 {
                old(self).network_response_times_ms@.push(response_time_ms)
            } else {
                old(self).network_response_times_ms@.push(response_time_ms).subrange(1, 4)
            }),
            final(self).ping_time_ms == spec_ping_estimate(final(self).network_response_times_ms@),
            final(self).status == old(self).status,
            final(self).strategy == old(self).strategy,
            final(self).file_size == old(self).file_size,
            final(self).stream_data_rate == old(self).stream_data_rate,
            final(self).read_position == old(self).read_position,
            final(self).number_of_open_requests == old(self).number_of_open_requests,
            final(self).finished == old(self).finished,
    {
        self.network_response_times_ms.push(response_time_ms);
        // At most three samples existed before, so one removal suffices.
        if self.network_response_times_ms.len() > 3 {
            self.network_response_times_ms.remove(0);
        }
        let estimate: usize = if self.network_response_times_ms.len() == 1 {
            self.network_response_times_ms[0]
        } else if self.network_response_times_ms.len() == 2 {
            (self.network_response_times_ms[0] + self.network_response_times_ms[1]) / 2
        } else {
            let a = self.network_response_times_ms[0];
            let b = self.network_response_times_ms[1];
            let c = self.network_response_times_ms[2];
            if a <= b {
                if b <= c {
                    b
                } else if a <= c {
                    c
                } else {
                    a
                }
            } else {
                if a <= c {
                    a
                } else if b <= c {
                    c
                } else {
                    b
                }
            }
        };
        self.ping_time_ms = estimate;
    }

    /// Account for one received chunk written at `offset`: mark its bytes
    /// within the file downloaded (an over-delivering server may run past
    /// the file end; such bytes never count) and report whether the file is
    /// now fully covered.  On completion the engine is finished; the caller
    /// seeks the output to the start and hands it off, exactly once.
    pub fn handle_data(&mut self, offset: usize, data_len: usize) -> (complete: bool)
        requires
            old(self).wf(),
            !old(self).finished,
            offset + data_len <= usize::MAX,
        ensures
            final(self).wf(),
            forall|x: int|
                #[trigger] final(self).status.downloaded.covers(x) <==> old(self).status.downloaded.covers(x) || (offset <= x < offset + data_len && x < old(self).file_size),
            final(self).status.requested == old(self).status.requested,
            final(self).strategy == old(self).strategy,
            final(self).file_size == old(self).file_size,
            final(self).stream_data_rate == old(self).stream_data_rate,
            final(self).read_position == old(self).read_position,
            final(self).ping_time_ms == old(self).ping_time_ms,
            final(self).network_response_times_ms == old(self).network_response_times_ms,
            final(self).number_of_open_requests == old(self).number_of_open_requests,
            complete == (forall|x: int|
                0 <= x < old(self).file_size ==> #[trigger] final(self).status.downloaded.covers(
                    x,
                )),
            complete == (seq_contained_from(final(self).status.downloaded.ranges(), 0) >= old(self).file_size),
            final(self).finished == complete,
    {
        let clipped_len: usize = if offset >= self.file_size {
            0
        } else if data_len > self.file_size - offset {
            self.file_size - offset
        } else {
            data_len
        };
        if clipped_len > 0 {
            self.status.downloaded.add_range(&(Range { start: offset, length: clipped_len }));
        }
        let full = self.status.downloaded.contained_length_from_value(0) >= self.file_size;
        if full {
            self.finished = true;
        }
        proof {
            let d = self.status.downloaded.ranges();
            // Every stored range ends within the file.
            assert forall|k: int| 0 <= k < d.len() implies (#[trigger] d[k]).start + d[k].length
                <= self.file_size by {
                lemma_covers_from_index(d, k, d[k].start + d[k].length - 1);
                assert(self.status.downloaded.covers(d[k].start + d[k].length - 1));
            }
            // The byte count reaches the file size exactly when every byte of
            // the file is covered.
            if full {
                assert forall|x: int| 0 <= x < self.file_size implies
                    self.status.downloaded.covers(x) by {
                    if !self.status.downloaded.covers(x) {
                        lemma_gap_bounds_contained(d, 0, x, self.file_size as int);
                        assert(false);
                    }
                }
            } else {
                if forall|x: int|
                    0 <= x < self.file_size ==> #[trigger] self.status.downloaded.covers(x) {
                    assert forall|x: int| 0 <= x < self.file_size implies seq_covers(d, x) by {
                        assert(self.status.downloaded.covers(x));
                    }
                    lemma_covered_length_lower(d, 0, self.file_size as int);
                    assert(false);
                }
            }
        }
        full
    }

    /// React to one external command: `Close` ends the loop, `Fetch`
    /// requests a range, the mode commands swap the strategy, and
    /// `StreamMode` immediately re-triggers the prefetch heuristic.
    pub fn handle_stream_loader_command(
        &mut self,
        cmd: StreamLoaderCommand,
        download_rate: usize,
    ) -> (r: (ControlFlow, Vec<Dispatch>))
        requires
            old(self).wf(),
        ensures
            final(self).wf(),
            final(self).status.downloaded == old(self).status.downloaded,
            final(self).file_size == old(self).file_size,
            final(self).finished == old(self).finished,
            final(self).number_of_open_requests == sat_add(
                old(self).number_of_open_requests as int,
                r.1@.len() as int,
            ),
            forall|x: int|
                #[trigger] final(self).status.requested.covers(x) <==> old(self).status.requested.covers(x) || (exists|k: int|
                    0 <= k < r.1@.len() && (#[trigger] r.1@[k]).range.spec_contains(x)),
            forall|k: int, x: int|
                0 <= k < r.1@.len() && #[trigger] r.1@[k].range.spec_contains(x) ==> final(self).status.requested.covers(x) && !old(self).status.requested.covers(x) && !old(self).status.downloaded.covers(x),
            (r.0 == ControlFlow::Break) == (cmd is Close),
            // Switching to streaming runs the prefetch trigger at once: if it
            // dispatched nothing although a slot was free and bytes were
            // missing, the pending bytes already met the prefetch formula.
            (cmd is StreamMode && r.1@.len() == 0 && old(self).number_of_open_requests
                < MAX_PREFETCH_REQUESTS && (exists|x: int|
                0 <= x < old(self).file_size && !(#[trigger] old(self).status.requested.covers(x))
                    && !old(self).status.downloaded.covers(x))) ==> (exists|pending: RangeSet|
                pending.wf() && (forall|x: int|
                    #[trigger] pending.covers(x) <==> old(self).status.requested.covers(x) && !old(self).status.downloaded.covers(x)) && (seq_contained_from(pending.ranges(), 0)
                    >= Self::spec_desired_pending_bytes(
                    old(self).ping_time_ms as int,
                    old(self).stream_data_rate as int,
                    download_rate as int,
                ) || seq_contained_from(pending.ranges(), 0) >= usize::MAX)),
            cmd is Close ==> *final(self) == *old(self) && r.1@.len() == 0,
            cmd is RandomAccessMode ==> final(self).strategy == DownloadStrategy::RandomAccess
                && r.1@.len() == 0,
            cmd is StreamMode ==> final(self).strategy == DownloadStrategy::Streaming,
            !(cmd is RandomAccessMode) && !(cmd is StreamMode) ==> final(self).strategy == old(self).strategy,
            forall|req: Range|
                cmd == StreamLoaderCommand::Fetch(req) ==> (forall|x: int|
                    req.start <= x && x < req.start + req.length && x < old(self).file_size ==> (
                    #[trigger] final(self).status.requested.covers(x)) || old(self).status.downloaded.covers(x)),
    {
        match cmd {
            StreamLoaderCommand::Fetch(request) => {
                let d = self.download_range(request.start, request.length);
                (ControlFlow::Continue, d)
            },
            StreamLoaderCommand::RandomAccessMode => {
                self.strategy = DownloadStrategy::RandomAccess;
                (ControlFlow::Continue, Vec::new())
            },
            StreamLoaderCommand::StreamMode => {
                self.strategy = DownloadStrategy::Streaming;
                let d = self.trigger_preload(download_rate);
                (ControlFlow::Continue, d)
            },
            StreamLoaderCommand::Close => (ControlFlow::Break, Vec::new()),
        }
    }

    /// Account for one request-finished signal; under the streaming strategy
    /// this re-runs the prefetch heuristic, under random access it never
    /// dispatches anything.
    pub fn handle_download_finished(&mut self, download_rate: usize) -> (r: Vec<Dispatch>)
        requires
            old(self).wf(),
            old(self).number_of_open_requests >= 1,
        ensures
            final(self).wf(),
            same_config(*old(self), *final(self)),
            final(self).number_of_open_requests == sat_add(
                old(self).number_of_open_requests - 1,
                r@.len() as int,
            ),
            old(self).strategy != DownloadStrategy::Streaming ==> r@.len() == 0 && final(self).status.requested == old(self).status.requested,
            forall|x: int|
                #[trigger] final(self).status.requested.covers(x) <==> old(self).status.requested.covers(x) || (exists|k: int|
                    0 <= k < r@.len() && (#[trigger] r@[k]).range.spec_contains(x)),
            forall|k: int, x: int|
                0 <= k < r@.len() && #[trigger] r@[k].range.spec_contains(x) ==> !old(self).status.requested.covers(x) && !old(self).status.downloaded.covers(x),
            // Under streaming the prefetch trigger re-runs: if it dispatched
            // nothing although a slot was free and bytes were missing, the
            // pending bytes already met the prefetch formula.
            (old(self).strategy == DownloadStrategy::Streaming && r@.len() == 0 && old(self).number_of_open_requests - 1 < MAX_PREFETCH_REQUESTS && (exists|x: int|
                0 <= x < old(self).file_size && !(#[trigger] old(self).status.requested.covers(x))
                    && !old(self).status.downloaded.covers(x))) ==> (exists|pending: RangeSet|
                pending.wf() && (forall|x: int|
                    #[trigger] pending.covers(x) <==> old(self).status.requested.covers(x) && !old(self).status.downloaded.covers(x)) && (seq_contained_from(pending.ranges(), 0)
                    >= Self::spec_desired_pending_bytes(
                    old(self).ping_time_ms as int,
                    old(self).stream_data_rate as int,
                    download_rate as int,
                ) || seq_contained_from(pending.ranges(), 0) >= usize::MAX)),
    {
        self.number_of_open_requests = self.number_of_open_requests - 1;
        if self.strategy == DownloadStrategy::Streaming {
            self.trigger_preload(download_rate)
        } else {
            Vec::new()
        }
    }
}

/// The median of three values.
pub open spec fn spec_median3(a: int, b: int, c: int) -> int {
    if (a <= b && b <= c) || (c <= b && b <= a) {
        b
    } else if (b <= a && a <= c) || (c <= a && a <= b) {
        a
    } else {
        c
    }
}

/// The latency estimate over a window of one to three samples: the single
/// sample, the mean of the two, or the median of the three.
pub open spec fn spec_ping_estimate(w: Seq<usize>) -> int
    recommends
        1 <= w.len() <= 3,
{
    if w.len() == 1 {
        w[0] as int
    } else if w.len() == 2 {
        (w[0] + w[1]) / 2
    } else {
        spec_median3(w[0] as int, w[1] as int, w[2] as int)
    }
}

/// Law: once `downloaded` covers every byte of `[0, file_size)`, the
/// engine's completion check fires, so `handle_data` reports completion and
/// the event loop ends.
pub proof fn lemma_full_coverage_completes(downloaded: RangeSet, file_size: int)
    requires
        downloaded.wf(),
        0 <= file_size,
        forall|x: int| 0 <= x < file_size ==> #[trigger] downloaded.covers(x),
    ensures
        seq_contained_from(downloaded.ranges(), 0) >= file_size,
{
    assert forall|x: int| 0 <= x < file_size implies seq_covers(downloaded.ranges(), x) by {
        assert(downloaded.covers(x));
    }
    lemma_covered_length_lower(downloaded.ranges(), 0, file_size);
}

/// Law: a range kept inside `requested` never overlaps a newly dispatched
/// one, so no two in-flight requests ever cover the same byte.
pub proof fn lemma_no_overlap_with_in_flight(
    in_flight: Range,
    requested: RangeSet,
    dispatched: Seq<Dispatch>,
)
    requires
        forall|x: int| in_flight.spec_contains(x) ==> #[trigger] requested.covers(x),
        forall|k: int, x: int|
            0 <= k < dispatched.len() && #[trigger] dispatched[k].range.spec_contains(x)
                ==> !requested.covers(x),
    ensures
        forall|k: int, x: int|
            0 <= k < dispatched.len() ==> !(#[trigger] dispatched[k].range.spec_contains(x)
                && in_flight.spec_contains(x)),
{
}

/// Law: every dispatch list that carves the missing bytes out of a 4-byte
/// aligned window sits on 4-byte boundaries, as long as the `requested` and
/// `downloaded` bookkeeping is itself word-aligned.  This applies to the
/// lists `download_range` returns: its aligned window is
/// `[window_lo(offset), window_hi(offset, length, file_size))`.
///
/// The hypothesis is deliberate: the bookkeeping stays word-closed only
/// while received chunks and retracted tails fall on whole words.  A server
/// that delivers a partial word before failing leaves an unaligned boundary
/// behind, and the next dispatch over it is misaligned — the wire protocol
/// assumes word-sized deliveries, and the caller's fail-fast alignment check
/// is the backstop for a server that breaks that assumption.
pub proof fn lemma_dispatches_word_aligned(
    d: Seq<Dispatch>,
    requested: RangeSet,
    downloaded: RangeSet,
    wlo: int,
    whi: int,
)
    requires
        0 <= wlo,
        whi <= usize::MAX,
        wlo % 4 == 0,
        whi % 4 == 0,
        word_aligned(requested),
        word_aligned(downloaded),
        forall|k: int|
            0 <= k < d.len() ==> (#[trigger] d[k]).range.length > 0 && wlo <= d[k].range.start
                && d[k].range.start + d[k].range.length <= whi,
        forall|k1: int, k2: int|
            0 <= k1 < k2 < d.len() ==> (#[trigger] d[k1]).range.start + d[k1].range.length < (
            #[trigger] d[k2]).range.start,
        forall|k: int, x: int|
            0 <= k < d.len() && #[trigger] d[k].range.spec_contains(x) ==> !requested.covers(x)
                && !downloaded.covers(x),
        forall|x: int|
            wlo <= x < whi && !(#[trigger] requested.covers(x)) && !downloaded.covers(x) ==> (
            exists|k: int| 0 <= k < d.len() && (#[trigger] d[k]).range.spec_contains(x)),
    ensures
        forall|k: int|
            0 <= k < d.len() ==> (#[trigger] d[k]).range.start % 4 == 0 && d[k].range.length % 4
                == 0,
{
    let ranges = Seq::new(d.len(), |k: int| d[k].range);
    assert(seq_wf(ranges));
    assert forall|x: int| #[trigger] seq_covers(ranges, x) implies seq_covers(ranges, x - x % 4)
        && seq_covers(ranges, x - x % 4 + 1) && seq_covers(ranges, x - x % 4 + 2) && seq_covers(
        ranges,
        x - x % 4 + 3,
    ) by {
        lemma_covers_witness(ranges, x);
        let k = choose|k: int| 0 <= k < ranges.len() && #[trigger] ranges[k].spec_contains(x);
        assert(d[k].range.spec_contains(x));
        let w = x - x % 4;
        assert(wlo <= x < whi);
        assert(wlo <= w && w + 4 <= whi);
        assert forall|y: int| w <= y < w + 4 implies seq_covers(ranges, y) by {
            assert(wlo <= y < whi);
            if requested.covers(y) {
                lemma_word_closed_at(requested.ranges(), y);
                assert(y - y % 4 == w);
                assert(seq_covers(requested.ranges(), x));
                assert(requested.covers(x));
                assert(false);
            }
            if downloaded.covers(y) {
                lemma_word_closed_at(downloaded.ranges(), y);
                assert(y - y % 4 == w);
                assert(seq_covers(downloaded.ranges(), x));
                assert(downloaded.covers(x));
                assert(false);
            }
            let j = choose|j: int| 0 <= j < d.len() && (#[trigger] d[j]).range.spec_contains(y);
            assert(ranges[j].spec_contains(y));
            lemma_covers_from_index(ranges, j, y);
        }
        assert(seq_covers(ranges, w));
        assert(seq_covers(ranges, w + 1));
        assert(seq_covers(ranges, w + 2));
        assert(seq_covers(ranges, w + 3));
    }
    assert(word_closed(ranges)) by {
        reveal(word_closed);
    }
    lemma_word_closed_ranges_aligned(ranges);
    assert forall|k: int| 0 <= k < d.len() implies (#[trigger] d[k]).range.start % 4 == 0 && d[
        k
    ].range.length % 4 == 0 by {
        assert(ranges[k] == d[k].range);
        assert(ranges[k].start % 4 == 0 && ranges[k].length % 4 == 0);
    }
}

} // verus!
