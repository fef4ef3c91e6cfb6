use vstd::prelude::*;

verus! {

/// The decision core of the byte-count progress observer: forward a
/// progress report at most once per interval, remember the latest figure,
/// and flush it with the terminal finish signal. The caller supplies the
/// clock readings and performs the actual reporting.
pub struct ProgressGate {
    pub interval_ms: u64,
    pub last_emit_ms: u64,
    pub latest_bytes: u64,
}

impl ProgressGate {
    /// A gate that reports at most once per `interval_ms`, with the clock
    /// starting at `now_ms`.
    pub fn new(interval_ms: u64, now_ms: u64) -> (r: ProgressGate)
        ensures
            r.interval_ms == interval_ms,
            r.last_emit_ms == now_ms,
            r.latest_bytes == 0,
    {
        ProgressGate { interval_ms, last_emit_ms: now_ms, latest_bytes: 0 }
    }

    /// Record a byte count at clock reading `now_ms`. Returns whether the
    /// caller should forward a report now: exactly when a full interval has
    /// passed since the last forwarded report. The figure is remembered
    /// either way, so nothing is lost by staying silent.
    pub fn note_bytes(&mut self, now_ms: u64, bytes: u64) -> (emit: bool)
        ensures
            emit == (now_ms - old(self).last_emit_ms > old(self).interval_ms && now_ms >= old(
                self,
            ).last_emit_ms),
            final(self).latest_bytes == bytes,
            final(self).interval_ms == old(self).interval_ms,
            emit ==> final(self).last_emit_ms == now_ms,
            !emit ==> final(self).last_emit_ms == old(self).last_emit_ms,
    {
        self.latest_bytes = bytes;
        if now_ms >= self.last_emit_ms && now_ms - self.last_emit_ms > self.interval_ms {
            self.last_emit_ms = now_ms;
            true
        } else {
            false
        }
    }

    /// The figure to flush together with the terminal finish signal: the
    /// latest recorded byte count, whether or not it was ever forwarded.
    pub fn finish(&self) -> (r: u64)
        ensures
            r == self.latest_bytes,
    {
        self.latest_bytes
    }
}

} // verus!
