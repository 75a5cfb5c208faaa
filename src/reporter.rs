//! The decisions of the metrics reporting pipeline: which notifications the
//! scheduler emits, which the worker turns into writes, how rows are
//! batched and how they are timestamped.

use vstd::prelude::*;
use vstd::string::StringExecFns;

verus! {

/// A notification that the simulation has reached virtual time `time_ns`;
/// `stop` marks the last one of a run.
#[derive(Clone, Copy, Debug, PartialEq, Eq, Structural)]
pub struct SimulationReachedTimeEvent {
    pub time_ns: i64,
    pub stop: bool,
}

/// The default least advance of virtual time between two notifications:
/// half a second.
pub const DEFAULT_REPORT_INTERVAL_NS: i64 = 500_000_000;

/// Whether the scheduler emits a notification at virtual time `now`, given
/// the time of the last one: always for the last event of a run, else when
/// none was emitted yet or `now` is at least `interval` past the last.
pub open spec fn report_due(last: Option<i64>, now: int, interval: int, stop: bool) -> bool {
    stop || match last {
        None => true,
        Some(t) => now >= t + interval,
    }
}

/// What the reporting worker does with one notification.
#[derive(Clone, Copy, Debug, PartialEq, Eq, Structural)]
pub struct ReportStep {
    /// Snapshot the registry and write it out, stamped at the notified time.
    pub write: bool,
    /// Stop after this notification.
    pub finish: bool,
}

/// The reporting worker's state: whether it has handled the last
/// notification of the run.
pub struct ReporterState {
    finished: bool,
}

impl ReporterState {
    /// Whether the last notification of the run has been handled.
    pub closed spec fn is_finished(&self) -> bool {
        self.finished
    }

    pub fn new() -> (r: Self)
        ensures
            !r.is_finished(),
    {
        ReporterState { finished: false }
    }

    /// Decides what to do with `event`: until the run's last notification
    /// has been handled, every notification is written out, and the one
    /// marked `stop` ends the worker.
    pub fn on_event(&mut self, event: SimulationReachedTimeEvent) -> (r: ReportStep)
        ensures
            !old(self).is_finished() ==> r == (ReportStep { write: true, finish: event.stop }),
            old(self).is_finished() ==> r == (ReportStep { write: false, finish: true }),
            final(self).is_finished() == (old(self).is_finished() || event.stop),
    {
        if self.finished {
            return ReportStep { write: false, finish: true };
        }
        self.finished = event.stop;
        ReportStep { write: true, finish: event.stop }
    }
}

/// The default number of rows in one write.
pub const DEFAULT_BATCH_SIZE: usize = 60;

/// Splits `n` rows into consecutive chunks of at most `batch_size` rows:
/// chunk `i` spans rows `i * batch_size` up to the next multiple or `n`.
pub fn batch_bounds(n: usize, batch_size: usize) -> (r: Vec<(usize, usize)>)
    requires
        batch_size > 0,
    ensures
        r@.len() == (n + batch_size - 1) / batch_size as int,
        forall|i: int|
            0 <= i < r@.len() ==> #[trigger] r@[i] == (
                (i * batch_size) as usize,
                if (i + 1) * batch_size <= n { ((i + 1) * batch_size) as usize } else { n },
            ),
{
    let mut out: Vec<(usize, usize)> = Vec::new();
    let mut start: usize = 0;
    assert(out@.len() * batch_size == 0);
    while start < n
        invariant
            batch_size > 0,
            start <= n,
            start as int == if out@.len() * batch_size <= n { out@.len() * batch_size } else { n as int },
            out@.len() == 0 || (out@.len() - 1) * batch_size < n,
            start < n ==> start as int == out@.len() * batch_size,
            forall|i: int|
                0 <= i < out@.len() ==> #[trigger] out@[i] == (
                    (i * batch_size) as usize,
                    if (i + 1) * batch_size <= n { ((i + 1) * batch_size) as usize } else { n },
                ),
        decreases n - start,
    {
        let ghost k = out@.len() as int;
        let end = if n - start >= batch_size { start + batch_size } else { n };
        proof {
            assert((k + 1) * batch_size == k * batch_size + batch_size) by (nonlinear_arith);
        }
        out.push((start, end));
        start = end;
    }
    proof {
        let k = out@.len() as int;
        let bs = batch_size as int;
        if k == 0 {
            assert(n == 0);
            assert((bs - 1) / bs == 0) by (nonlinear_arith)
                requires bs > 0;
        } else {
            assert(k * bs >= n);
            assert((n + bs - 1) / bs == k) by (nonlinear_arith)
                requires (k - 1) * bs < n <= k * bs, bs > 0;
        }
    }
    out
}

/// The wall-clock time, in whole milliseconds since the epoch, of virtual
/// time `since_start_ns` in a run that started `start_unix_nanos` after the
/// epoch. Virtual time is never negative.
pub fn system_time_millis(start_unix_nanos: u128, since_start_ns: i64) -> (r: u128)
    requires
        since_start_ns >= 0,
        start_unix_nanos + since_start_ns <= u128::MAX,
    ensures
        r == (start_unix_nanos + since_start_ns) / 1_000_000,
{
    (start_unix_nanos + since_start_ns as u128) / 1_000_000
}

/// The name of the measurement of a metric: `prefix` followed by `name`.
pub fn measurement(prefix: &str, name: &str) -> (r: String)
    ensures
        r@ == prefix@ + name@,
{
    String::from_str(prefix).concat(name)
}

} // verus!
