//! Frame metrics: a ring buffer of the last `N` frame durations with a
//! rolling sum, driving the average frame time readout.
//!
//! Durations are nanosecond counts. Only reading the clock is trusted; the
//! ring-buffer accounting is verified for every duration the clock can
//! return, with [`PerformanceMetrics::record_frame`] as the verified core
//! that [`PerformanceMetrics::next_frame`] feeds.

use vstd::prelude::*;

verus! {

/// `std::time::Instant`, kept only as an opaque anchor for the next
/// duration measurement.
#[verifier::external_type_specification]
#[verifier::external_body]
pub struct ExInstant(std::time::Instant);

/// Relies on `std::time::Instant::now`: an opaque monotonic timestamp.
/// Nothing can be promised of its value.
#[verifier::external_body]
fn now_instant() -> std::time::Instant {
    std::time::Instant::now()
}

/// Relies on `Instant::duration_since` (which returns a zero duration when
/// `later` is the earlier one, and never panics) and `Duration::as_nanos`;
/// the nanosecond count is truncated into `u64`. The value depends on the
/// clock, so nothing can be promised of it.
#[verifier::external_body]
fn nanos_between(earlier: &std::time::Instant, later: &std::time::Instant) -> u64 {
    later.duration_since(*earlier).as_nanos() as u64
}

/// Sum of the first `n` entries.
pub open spec fn sum_window(s: Seq<u64>, n: int) -> int
    decreases n,
{
    if n <= 0 {
        0
    } else {
        sum_window(s, n - 1) + s[n - 1]
    }
}

/// Sequences that agree on the first `n` entries have the same window sum.
proof fn lemma_sum_window_congruent(a: Seq<u64>, b: Seq<u64>, n: int)
    requires
        0 <= n <= a.len(),
        n <= b.len(),
        forall|i: int| 0 <= i < n ==> a[i] == b[i],
    ensures
        sum_window(a, n) == sum_window(b, n),
    decreases n,
{
    if n > 0 {
        lemma_sum_window_congruent(a, b, n - 1);
    }
}

/// Replacing entry `i` inside the window moves the sum by the difference.
proof fn lemma_sum_window_update(s: Seq<u64>, i: int, v: u64, n: int)
    requires
        0 <= i < n <= s.len(),
    ensures
        sum_window(s.update(i, v), n) == sum_window(s, n) - s[i] + v,
    decreases n,
{
    if i == n - 1 {
        lemma_sum_window_congruent(s.update(i, v), s, n - 1);
    } else {
        lemma_sum_window_update(s, i, v, n - 1);
    }
}

/// The window sum of `n` 64-bit entries is at most `n * u64::MAX`.
proof fn lemma_sum_window_bound(s: Seq<u64>, n: int)
    requires
        0 <= n <= s.len(),
    ensures
        0 <= sum_window(s, n) <= n * (u64::MAX as int),
    decreases n,
{
    if n > 0 {
        lemma_sum_window_bound(s, n - 1);
        assert(n * (u64::MAX as int) == (n - 1) * (u64::MAX as int) + u64::MAX as int)
            by (nonlinear_arith);
    }
}

/// Frame metrics over the last `N` frames.
pub struct PerformanceMetrics<const N: usize> {
    last_frame: Option<std::time::Instant>,
    curr_frame_time: u64,
    time_since_start: u128,
    frame_time_buffer: Vec<u64>,
    idx: usize,
    n_frames: usize,
    summed_frame_time: u128,
}

/// How one recorded duration `dt` advances the ring state: the current
/// frame time becomes `dt`, the total time grows by it (saturating), the
/// buffer takes `dt` at the write position which then advances cyclically,
/// the frame count grows until the buffer is full, and the rolling sum
/// gains `dt`, shedding the evicted entry once full.
pub closed spec fn record_rel<const N: usize>(
    pre: PerformanceMetrics<N>,
    post: PerformanceMetrics<N>,
    dt: u64,
) -> bool {
    &&& post.curr_frame_time == dt
    &&& post.time_since_start as int == if pre.time_since_start + dt <= u128::MAX {
        pre.time_since_start + dt
    } else {
        u128::MAX as int
    }
    &&& post.frame_time_buffer@ == pre.frame_time_buffer@.update(pre.idx as int, dt)
    &&& post.idx as int == (pre.idx + 1) % (N as int)
    &&& post.n_frames == if pre.n_frames < N {
        pre.n_frames + 1
    } else {
        pre.n_frames as int
    }
    &&& post.summed_frame_time as int == if pre.n_frames < N {
        pre.summed_frame_time + dt
    } else {
        pre.summed_frame_time + dt - pre.frame_time_buffer@[pre.idx as int]
    }
}

impl<const N: usize> PerformanceMetrics<N> {
    /// The buffer has its fixed size, the write position and frame count
    /// are in range (they coincide until the buffer first fills), and the
    /// rolling sum is exactly the sum of the recorded window.
    pub closed spec fn wf(self) -> bool {
        &&& N >= 1
        &&& self.frame_time_buffer@.len() == N as int
        &&& (self.idx as int) < N as int
        &&& self.n_frames <= N
        &&& (self.n_frames < N ==> self.idx == self.n_frames)
        &&& self.summed_frame_time as int == sum_window(
            self.frame_time_buffer@,
            self.n_frames as int,
        )
    }

    pub closed spec fn spec_n_frames(self) -> int {
        self.n_frames as int
    }

    pub closed spec fn spec_curr_frame_time(self) -> int {
        self.curr_frame_time as int
    }

    pub closed spec fn spec_summed_frame_time(self) -> int {
        self.summed_frame_time as int
    }

    pub closed spec fn spec_time_since_start(self) -> int {
        self.time_since_start as int
    }

    pub closed spec fn spec_paused(self) -> bool {
        self.last_frame is None
    }

    /// The ring buffer's recorded durations.
    pub closed spec fn spec_window(self) -> Seq<u64> {
        self.frame_time_buffer@
    }

    /// The ring buffer's next write position.
    pub closed spec fn spec_write_index(self) -> int {
        self.idx as int
    }

    /// The verified core of [`Self::next_frame`]: account one measured
    /// frame duration of `dt` nanoseconds.
    pub fn record_frame(&mut self, dt: u64)
        requires
            old(self).wf(),
        ensures
            final(self).wf(),
            record_rel(*old(self), *final(self), dt),
            final(self).spec_curr_frame_time() == dt,
            final(self).spec_n_frames() == if old(self).spec_n_frames() < N as int {
                old(self).spec_n_frames() + 1
            } else {
                old(self).spec_n_frames()
            },
            old(self).spec_n_frames() < N as int ==> final(self).spec_summed_frame_time() == old(
                self,
            ).spec_summed_frame_time() + dt,
            final(self).spec_paused() == old(self).spec_paused(),
    {
        self.curr_frame_time = dt;
        if self.time_since_start <= u128::MAX - (dt as u128) {
            self.time_since_start = self.time_since_start + (dt as u128);
        } else {
            self.time_since_start = u128::MAX;
        }
        proof {
            lemma_sum_window_bound(self.frame_time_buffer@, self.n_frames as int);
            assert((self.n_frames as int) * (u64::MAX as int) <= (N as int) * (u64::MAX as int))
                by (nonlinear_arith)
                requires
                    self.n_frames <= N,
            ;
            crate::geom::lemma_mul_magnitude(
                N as int,
                u64::MAX as int,
                usize::MAX as int,
                u64::MAX as int,
            );
        }
        self.summed_frame_time = self.summed_frame_time + (dt as u128);
        if self.n_frames < N {
            self.n_frames = self.n_frames + 1;
        } else {
            proof {
                lemma_sum_window_update(
                    self.frame_time_buffer@,
                    self.idx as int,
                    dt,
                    self.n_frames as int,
                );
                lemma_sum_window_bound(
                    self.frame_time_buffer@.update(self.idx as int, dt),
                    self.n_frames as int,
                );
            }
            self.summed_frame_time = self.summed_frame_time - (
            self.frame_time_buffer[self.idx] as u128);
        }
        let ghost buf_before = self.frame_time_buffer@;
        self.frame_time_buffer[self.idx] = dt;
        proof {
            if old(self).n_frames < N {
                lemma_sum_window_congruent(
                    buf_before,
                    self.frame_time_buffer@,
                    old(self).n_frames as int,
                );
            } else {
                lemma_sum_window_update(buf_before, self.idx as int, dt, self.n_frames as int);
            }
        }
        proof {
            if old(self).n_frames + 1 < N {
                vstd::arithmetic::div_mod::lemma_small_mod((old(self).idx + 1) as nat, N as nat);
            }
        }
        self.idx = (self.idx + 1) % N;
    }

    /// Advance to the next frame: the first call after a pause only anchors
    /// the clock; every later call measures the time since the previous
    /// call and records it. What was recorded is some duration the clock
    /// returned — every counter obeys [`record_rel`] for that value.
    pub fn next_frame(&mut self)
        requires
            old(self).wf(),
        ensures
            final(self).wf(),
            !final(self).spec_paused(),
            old(self).spec_paused() ==> final(self).wf() && final(self).spec_n_frames() == old(
                self,
            ).spec_n_frames() && final(self).spec_curr_frame_time() == old(
                self,
            ).spec_curr_frame_time() && final(self).spec_summed_frame_time() == old(
                self,
            ).spec_summed_frame_time() && final(self).spec_time_since_start() == old(
                self,
            ).spec_time_since_start() && final(self).spec_window() == old(self).spec_window()
                && final(self).spec_write_index() == old(self).spec_write_index(),
            !old(self).spec_paused() ==> exists|dt: u64|
                record_rel(*old(self), *final(self), dt),
            !old(self).spec_paused() ==> final(self).spec_n_frames() == if old(
                self,
            ).spec_n_frames() < N as int {
                old(self).spec_n_frames() + 1
            } else {
                old(self).spec_n_frames()
            },
    {
        match self.last_frame {
            None => {
                self.last_frame = Some(now_instant());
            },
            Some(last) => {
                let now = now_instant();
                let dt = nanos_between(&last, &now);
                self.last_frame = Some(now);
                self.record_frame(dt);
                proof {
                    assert(record_rel(*old(self), *self, dt));
                }
            },
        }
    }

    /// Forget the clock anchor; the next [`Self::next_frame`] only
    /// re-anchors instead of recording a huge pause as a frame.
    pub fn pause(&mut self)
        ensures
            final(self).spec_paused(),
            final(self).wf() == old(self).wf(),
            final(self).spec_n_frames() == old(self).spec_n_frames(),
            final(self).spec_curr_frame_time() == old(self).spec_curr_frame_time(),
            final(self).spec_summed_frame_time() == old(self).spec_summed_frame_time(),
            final(self).spec_time_since_start() == old(self).spec_time_since_start(),
            final(self).spec_window() == old(self).spec_window(),
            final(self).spec_write_index() == old(self).spec_write_index(),
    {
        self.last_frame = None;
    }

    /// Total recorded time since the first frame, in nanoseconds
    /// (saturating).
    pub fn time_since_start(&self) -> (r: u128)
        ensures
            r as int == self.spec_time_since_start(),
    {
        self.time_since_start
    }

    /// Average frame time over the recorded window, in nanoseconds; zero
    /// while nothing is recorded.
    pub fn avg_frame_time(&self) -> (r: u64)
        requires
            self.wf(),
        ensures
            r as int == if self.spec_n_frames() == 0 {
                0int
            } else {
                self.spec_summed_frame_time() / self.spec_n_frames()
            },
    {
        if self.n_frames == 0 {
            0
        } else {
            proof {
                lemma_sum_window_bound(self.frame_time_buffer@, self.n_frames as int);
                vstd::arithmetic::div_mod::lemma_div_is_ordered(
                    self.summed_frame_time as int,
                    (self.n_frames as int) * (u64::MAX as int),
                    self.n_frames as int,
                );
                vstd::arithmetic::div_mod::lemma_div_multiples_vanish(
                    u64::MAX as int,
                    self.n_frames as int,
                );
                vstd::arithmetic::div_mod::lemma_div_pos_is_pos(
                    self.summed_frame_time as int,
                    self.n_frames as int,
                );
            }
            (self.summed_frame_time / (self.n_frames as u128)) as u64
        }
    }

    /// Duration of the most recently recorded frame, in nanoseconds.
    pub fn curr_frame_time(&self) -> (r: u64)
        ensures
            r as int == self.spec_curr_frame_time(),
    {
        self.curr_frame_time
    }
}

impl<const N: usize> Default for PerformanceMetrics<N> {
    /// Fresh metrics: paused, with an empty window.
    fn default() -> (r: PerformanceMetrics<N>)
        ensures
            N >= 1 ==> r.wf(),
            r.spec_paused(),
            r.spec_n_frames() == 0,
            r.spec_curr_frame_time() == 0,
            r.spec_summed_frame_time() == 0,
            r.spec_time_since_start() == 0,
    {
        let mut buffer: Vec<u64> = Vec::new();
        let mut i: usize = 0;
        while i < N
            invariant
                i <= N,
                buffer@.len() == i,
            decreases N - i,
        {
            buffer.push(0);
            i = i + 1;
        }
        PerformanceMetrics {
            last_frame: None,
            curr_frame_time: 0,
            time_since_start: 0,
            frame_time_buffer: buffer,
            idx: 0,
            n_frames: 0,
            summed_frame_time: 0,
        }
    }
}

} // verus!
