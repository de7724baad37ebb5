//! The times of recent requests, kept in a ring buffer, and the long-running rate limit
//! that a client keeps to over them.
use vstd::prelude::*;
use ringbuf::traits::{Consumer, Observer, Producer, RingBuffer};
use crate::time::{utc_in_range, UtcTime};

verus! {

/// The number of request times a client keeps.
pub const REQ_TIMES_CAPACITY: usize = 500;

/// Below this many recorded requests a client never waits.
pub const RATE_WINDOW_MIN: usize = 50;

/// The request rate (per second, over the recorded window) above which a client waits.
pub const MAX_REQ_PER_SEC: u64 = 3;

/// How long a client waits, in milliseconds, when it is above the rate.
pub const HIT_MAX_REQ_PER_SEC_WAIT: u64 = 500;

/// The times of the latest requests, oldest first, in a `ringbuf::HeapRb`.
#[verifier::external_body]
pub struct RequestTimes {
    times: ringbuf::HeapRb<(i64, u32)>,
}

/// The times that a buffer holds, oldest first, each as seconds and nanoseconds.
pub uninterp spec fn request_times_held(times: RequestTimes) -> Seq<(i64, u32)>;

/// The capacity that a buffer was made with.
pub uninterp spec fn request_times_capacity(times: RequestTimes) -> nat;

/// A time as the buffer stores it.
pub open spec fn stamp_of(t: UtcTime) -> (i64, u32) {
    (t.secs, t.nanos)
}

/// A stored time.
pub open spec fn time_of(s: (i64, u32)) -> UtcTime {
    UtcTime { secs: s.0, nanos: s.1 }
}

/// The whole nanoseconds from `a` to `b`.
pub open spec fn nanos_between(a: UtcTime, b: UtcTime) -> int {
    (b.secs - a.secs) * 1_000_000_000 + (b.nanos - a.nanos)
}

/// The milliseconds from `a` to `b`, truncated toward zero, as chrono's
/// `(b - a).num_milliseconds()` gives them.
pub open spec fn millis_between(a: UtcTime, b: UtcTime) -> int {
    let n = nanos_between(a, b);
    if n >= 0 {
        n / 1_000_000
    } else {
        -((-n) / 1_000_000)
    }
}

impl RequestTimes {
    /// The times held, oldest first.
    pub open spec fn held(self) -> Seq<(i64, u32)> {
        request_times_held(self)
    }

    /// The capacity of the buffer.
    pub open spec fn cap(self) -> nat {
        request_times_capacity(self)
    }

    /// A buffer holds at most its capacity, which is at least the window below which no
    /// client waits, and only times in chrono's range.
    pub open spec fn well_formed(self) -> bool {
        &&& RATE_WINDOW_MIN <= self.cap() <= usize::MAX
        &&& self.held().len() <= self.cap()
        &&& forall|i: int| 0 <= i < self.held().len() ==> utc_in_range(#[trigger] time_of(self.held()[i]))
    }

    /// An empty ring buffer of the given capacity (`HeapRb::new`). Trusted: it holds nothing
    /// and has that capacity; `HeapRb::new` panics on a zero capacity, which `requires` rules
    /// out.
    #[verifier::external_body]
    fn with_capacity(capacity: usize) -> (r: Self)
        requires
            capacity > 0,
        ensures
            request_times_held(r) == Seq::<(i64, u32)>::empty(),
            request_times_capacity(r) == capacity,
    {
        RequestTimes { times: ringbuf::HeapRb::new(capacity) }
    }

    /// `Observer::occupied_len`. Trusted: the number of times held, which never exceeds the
    /// capacity.
    #[verifier::external_body]
    fn occupied_len(&self) -> (r: usize)
        ensures
            r == request_times_held(*self).len(),
            r <= request_times_capacity(*self),
    {
        self.times.occupied_len()
    }

    /// `Observer::capacity`. Trusted: the capacity the buffer was made with.
    #[verifier::external_body]
    fn capacity(&self) -> (r: usize)
        ensures
            r == request_times_capacity(*self),
    {
        self.times.capacity().get()
    }

    /// `Consumer::try_peek`. Trusted: the oldest time held, if any.
    #[verifier::external_body]
    fn oldest(&self) -> (r: Option<(i64, u32)>)
        ensures
            request_times_held(*self).len() == 0 ==> r is None,
            request_times_held(*self).len() > 0 ==> r == Some(request_times_held(*self)[0]),
    {
        match self.times.try_peek() {
            Some(t) => Some(*t),
            None => None,
        }
    }

    /// `Producer::try_push`. Trusted: appends the time unless the buffer is full, and says
    /// whether it did.
    #[verifier::external_body]
    fn try_push(&mut self, t: (i64, u32)) -> (r: bool)
        ensures
            request_times_capacity(*final(self)) == request_times_capacity(*old(self)),
            r == (request_times_held(*old(self)).len() < request_times_capacity(*old(self))),
            r ==> request_times_held(*final(self)) == request_times_held(*old(self)).push(t),
            !r ==> request_times_held(*final(self)) == request_times_held(*old(self)),
    {
        self.times.try_push(t).is_ok()
    }

    /// `RingBuffer::push_overwrite`. Trusted: appends the time, first dropping the oldest
    /// when the buffer is full.
    #[verifier::external_body]
    fn push_overwrite(&mut self, t: (i64, u32))
        ensures
            request_times_capacity(*final(self)) == request_times_capacity(*old(self)),
            request_times_held(*old(self)).len() < request_times_capacity(*old(self)) ==> request_times_held(*final(self)) == request_times_held(*old(self)).push(t),
            request_times_held(*old(self)).len() >= request_times_capacity(*old(self)) ==> request_times_held(*final(self)) == request_times_held(*old(self)).drop_first().push(t),
    {
        self.times.push_overwrite(t);
    }

    /// The empty buffer a client starts with.
    pub fn for_client() -> (r: Self)
        ensures
            r.well_formed(),
            r.held().len() == 0,
            r.cap() == REQ_TIMES_CAPACITY,
    {
        RequestTimes::with_capacity(REQ_TIMES_CAPACITY)
    }

    /// The number of request times held.
    pub fn len(&self) -> (r: usize)
        ensures
            r == self.held().len(),
    {
        self.occupied_len()
    }

    /// The requests and the milliseconds over which the average rate is taken at `now`:
    /// none on an empty buffer; below the window, the requests held over the time since the
    /// oldest; at or above it, the capacity over that time. The time is at least 1 ms.
    pub open spec fn rate_fraction_spec(self, now: UtcTime) -> Option<(nat, int)> {
        let n = self.held().len();
        if n == 0 {
            None
        } else {
            let ms = millis_between(time_of(self.held()[0]), now);
            let den = if ms < 1 { 1 } else { ms };
            if n < RATE_WINDOW_MIN {
                Some((n, den))
            } else {
                Some((self.cap(), den))
            }
        }
    }

    /// Whether at `now` a client must wait before its request: it has recorded at least the
    /// window, and the capacity over the time since the oldest exceeds the rate limit.
    pub open spec fn must_wait_spec(self, now: UtcTime) -> bool {
        self.held().len() >= RATE_WINDOW_MIN && match self.rate_fraction_spec(now) {
            Some((num, den)) => num * 1000 > MAX_REQ_PER_SEC * den,
            None => false,
        }
    }

    /// See `rate_fraction_spec`.
    pub fn rate_fraction(&self, now: UtcTime) -> (r: Option<(usize, i64)>)
        requires
            self.well_formed(),
            utc_in_range(now),
        ensures
            match (r, self.rate_fraction_spec(now)) {
                (Some((a, b)), Some((x, y))) => a == x && b == y,
                (None, None) => true,
                _ => false,
            },
    {
        let n = self.occupied_len();
        match self.oldest() {
            None => None,
            Some(first) => {
                proof {
                    assert(utc_in_range(time_of(self.held()[0])));
                }
                let ms = millis_between_exec(UtcTime { secs: first.0, nanos: first.1 }, now);
                let den = if ms < 1 { 1 } else { ms };
                if n < RATE_WINDOW_MIN {
                    Some((n, den))
                } else {
                    Some((self.capacity(), den))
                }
            },
        }
    }

    /// The number of requests held and the milliseconds since the oldest, when there is one.
    pub fn span(&self, now: UtcTime) -> (r: Option<(usize, i64)>)
        requires
            self.well_formed(),
            utc_in_range(now),
        ensures
            self.held().len() == 0 ==> r is None,
            self.held().len() > 0 ==> (r matches Some((n, ms)) && n == self.held().len()
                && ms == millis_between(time_of(self.held()[0]), now)),
    {
        let n = self.occupied_len();
        match self.oldest() {
            None => None,
            Some(first) => {
                proof {
                    assert(utc_in_range(time_of(self.held()[0])));
                }
                Some((n, millis_between_exec(UtcTime { secs: first.0, nanos: first.1 }, now)))
            },
        }
    }
}

/// What a client does about a request under the long-running rate limit.
#[derive(Debug, Clone, Copy, PartialEq, Eq)]
pub enum RateLimitStep {
    /// Below the window: the request time has been recorded.
    Recorded,
    /// At or above the window and within the rate: go ahead, then record the time.
    Proceed,
    /// Above the rate: wait, then record the time.
    Wait,
}

/// See `millis_between`.
pub fn millis_between_exec(a: UtcTime, b: UtcTime) -> (r: i64)
    requires
        utc_in_range(a),
        utc_in_range(b),
    ensures
        r == millis_between(a, b),
{
    let n: i128 = (b.secs as i128 - a.secs as i128) * 1_000_000_000 + (b.nanos as i128 - a.nanos as i128);
    if n >= 0 {
        (n / 1_000_000) as i64
    } else {
        -(((-n) / 1_000_000) as i64)
    }
}

/// Takes the first step of the rate limit for a request at `now`: below the window, records
/// the time; otherwise says whether to wait, recording nothing.
pub fn rate_limit_step(times: &mut RequestTimes, now: UtcTime) -> (r: RateLimitStep)
    requires
        old(times).well_formed(),
        utc_in_range(now),
    ensures
        final(times).well_formed(),
        final(times).cap() == old(times).cap(),
        old(times).held().len() < RATE_WINDOW_MIN ==> r == RateLimitStep::Recorded
            && final(times).held() == old(times).held().push(stamp_of(now)),
        old(times).held().len() >= RATE_WINDOW_MIN ==> final(times).held() == old(times).held()
            && (r == RateLimitStep::Wait) == old(times).must_wait_spec(now)
            && r != RateLimitStep::Recorded,
        old(times).held().len() >= RATE_WINDOW_MIN ==> ({
            let ms = millis_between(time_of(old(times).held()[0]), now);
            (r == RateLimitStep::Wait) <==> old(times).cap() * 1000 > MAX_REQ_PER_SEC * (if ms < 1 {
                1
            } else {
                ms
            })
        }),
{
    let n = times.len();
    if n < RATE_WINDOW_MIN {
        let pushed = times.try_push((now.secs, now.nanos));
        proof {
            assert forall|i: int| 0 <= i < times.held().len() implies utc_in_range(#[trigger] time_of(times.held()[i])) by {
                if i < old(times).held().len() {
                    assert(times.held()[i] == old(times).held()[i]);
                }
            }
        }
        RateLimitStep::Recorded
    } else {
        match times.rate_fraction(now) {
            Some((num, den)) => {
                let limit: i128 = MAX_REQ_PER_SEC as i128;
                assert(limit == 3);
                if (num as i128) * 1000 > limit * (den as i128) {
                    RateLimitStep::Wait
                } else {
                    RateLimitStep::Proceed
                }
            },
            None => RateLimitStep::Proceed,
        }
    }
}

/// Once the window is recorded, a client waits exactly when the capacity, spread over the
/// milliseconds since the oldest time held (at least one), is above the rate limit per second:
/// how many times are held, and whether the buffer is full, does not enter into it.
pub proof fn lemma_wait_exactly_above_rate(times: RequestTimes, now: UtcTime)
    requires
        times.held().len() >= RATE_WINDOW_MIN,
    ensures
        ({
            let ms = millis_between(time_of(times.held()[0]), now);
            times.must_wait_spec(now) <==> times.cap() * 1000 > MAX_REQ_PER_SEC * (if ms < 1 {
                1
            } else {
                ms
            })
        }),
{
}

/// Records a request made at `now` after a `Proceed` or a `Wait`, dropping the oldest time
/// when the buffer is full.
pub fn record_request_time(times: &mut RequestTimes, now: UtcTime)
    requires
        old(times).well_formed(),
        utc_in_range(now),
    ensures
        final(times).well_formed(),
        final(times).cap() == old(times).cap(),
        old(times).held().len() < old(times).cap() ==> final(times).held() == old(times).held().push(stamp_of(now)),
        old(times).held().len() >= old(times).cap() ==> final(times).held() == old(times).held().drop_first().push(stamp_of(now)),
{
    times.push_overwrite((now.secs, now.nanos));
    proof {
        let o = old(times).held();
        assert forall|i: int| 0 <= i < times.held().len() implies utc_in_range(#[trigger] time_of(times.held()[i])) by {
            if o.len() < old(times).cap() {
                if i < o.len() {
                    assert(times.held()[i] == o[i]);
                }
            } else {
                if i < o.len() - 1 {
                    assert(times.held()[i] == o[i + 1]);
                }
            }
        }
    }
}

} // verus!
