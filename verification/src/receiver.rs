//! Bookkeeping of one in-flight range request.
//!
//! A receiver task drains the data channel of a single request.  The
//! decisions it makes per chunk live here as a verified state machine; the
//! caller performs the awaiting and forwards the produced events.

use vstd::prelude::*;
use crate::params::MAXIMUM_ASSUMED_PING_TIME_MS;
use crate::range_set::Range;

verus! {

/// A measured round-trip sample, clamped so that a single pathological
/// measurement cannot corrupt the estimate.
pub open spec fn spec_clamp_ping(ms: int) -> int {
    if ms > MAXIMUM_ASSUMED_PING_TIME_MS { MAXIMUM_ASSUMED_PING_TIME_MS as int } else { ms }
}

/// State of one in-flight range request.
pub struct RangeReceiver {
    /// Offset at which the next received chunk will be written.
    pub data_offset: usize,
    /// Requested bytes not yet received.
    pub request_length: usize,
    /// Whether the first chunk should yield a latency sample.
    pub measure_ping_time: bool,
}

/// What the caller must do after one received chunk.
pub struct ChunkOutcome {
    /// A clamped latency sample to post, if this chunk was the first one of
    /// a measured request.
    pub ping_sample_ms: Option<usize>,
    /// Absolute offset at which the chunk's bytes are written.
    pub write_offset: usize,
    /// Whether the request is now fully satisfied.
    pub done: bool,
}

impl RangeReceiver {
    /// The receiver's offsets stay within `usize` arithmetic.
    pub open spec fn wf(self) -> bool {
        self.data_offset + self.request_length <= usize::MAX
    }

    pub fn new(offset: usize, length: usize, measure_ping_time: bool) -> (r: RangeReceiver)
        requires
            offset + length <= usize::MAX,
        ensures
            r.wf(),
            r.data_offset == offset,
            r.request_length == length,
            r.measure_ping_time == measure_ping_time,
    {
        RangeReceiver { data_offset: offset, request_length: length, measure_ping_time }
    }

    /// Account for one received chunk of `chunk_len` bytes; `elapsed_ms` is
    /// the time since the request was sent.  Over-delivery clamps the
    /// remaining length to zero instead of failing.
    pub fn on_chunk(&mut self, chunk_len: usize, elapsed_ms: usize) -> (o: ChunkOutcome)
        requires
            old(self).wf(),
            old(self).data_offset + chunk_len <= usize::MAX,
        ensures
            final(self).wf(),
            o.write_offset == old(self).data_offset,
            o.ping_sample_ms == (if old(self).measure_ping_time {
                Some((spec_clamp_ping(elapsed_ms as int) as usize))
            } else {
                None::<usize>
            }),
            !final(self).measure_ping_time,
            final(self).data_offset == old(self).data_offset + chunk_len,
            final(self).request_length == (if chunk_len >= old(self).request_length {
                0usize
            } else {
                (old(self).request_length - chunk_len) as usize
            }),
            o.done == (final(self).request_length == 0),
    {
        let ping_sample_ms = if self.measure_ping_time {
            let clamped = if elapsed_ms > MAXIMUM_ASSUMED_PING_TIME_MS {
                MAXIMUM_ASSUMED_PING_TIME_MS
            } else {
                elapsed_ms
            };
            self.measure_ping_time = false;
            Some(clamped)
        } else {
            None
        };
        let write_offset = self.data_offset;
        self.data_offset = self.data_offset + chunk_len;
        if chunk_len >= self.request_length {
            // The server sent at least as much as requested: treat the
            // request as fully satisfied and ignore any excess.
            self.request_length = 0;
        } else {
            self.request_length = self.request_length - chunk_len;
        }
        ChunkOutcome { ping_sample_ms, write_offset, done: self.request_length == 0 }
    }

    /// The trailing sub-range that was requested but never delivered, if
    /// any; it must be retracted from the shared `requested` set so that it
    /// becomes eligible for a new request.
    pub fn unfulfilled(&self) -> (r: Option<Range>)
        requires
            self.wf(),
        ensures
            r == (if self.request_length > 0 {
                Some((Range { start: self.data_offset, length: self.request_length }))
            } else {
                None::<Range>
            }),
    {
        if self.request_length > 0 {
            Some(Range { start: self.data_offset, length: self.request_length })
        } else {
            None
        }
    }
}

} // verus!
