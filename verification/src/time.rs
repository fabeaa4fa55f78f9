//! Plain-value models of elapsed time (`TimeSpan`) and of a point in time
//! (`Timestamp`), with the arithmetic the scanner and the reports need.
use vstd::prelude::*;

verus! {

pub open spec fn nanos_per_sec() -> int {
    1_000_000_000
}

/// A length of time: whole seconds and a sub-second part in nanoseconds.
#[derive(Debug, Clone, Copy, PartialEq, Eq, Structural)]
pub struct TimeSpan {
    pub secs: u64,
    pub nanos: u32,
}

impl TimeSpan {
    /// The sub-second part is below one second.
    pub open spec fn wf(self) -> bool {
        self.nanos < 1_000_000_000
    }

    /// The length in nanoseconds.
    pub open spec fn total(self) -> int {
        self.secs * nanos_per_sec() + self.nanos
    }

    /// A span of whole seconds.
    pub fn from_secs(secs: u64) -> (r: TimeSpan)
        ensures
            r.secs == secs,
            r.nanos == 0,
            r.wf(),
    {
        TimeSpan { secs, nanos: 0 }
    }

    /// The whole seconds of the span.
    pub fn as_secs(&self) -> (r: u64)
        ensures
            r == self.secs,
    {
        self.secs
    }

    /// Whether this span is at least as long as `other`.
    pub fn at_least(&self, other: &TimeSpan) -> (r: bool)
        ensures
            r == (self.secs > other.secs || (self.secs == other.secs && self.nanos >= other.nanos)),
            self.wf() && other.wf() ==> r == (self.total() >= other.total()),
    {
        proof {
            if self.wf() && other.wf() {
                lemma_span_order(*self, *other);
            }
        }
        self.secs > other.secs || (self.secs == other.secs && self.nanos >= other.nanos)
    }
}

proof fn lemma_span_order(a: TimeSpan, b: TimeSpan)
    requires
        a.wf(),
        b.wf(),
    ensures
        (a.secs > b.secs || (a.secs == b.secs && a.nanos >= b.nanos)) == (a.total() >= b.total()),
{
    if a.secs > b.secs {
        assert(a.secs * nanos_per_sec() >= (b.secs + 1) * nanos_per_sec()) by (nonlinear_arith)
            requires
                a.secs >= b.secs + 1,
        ;
    } else if a.secs < b.secs {
        assert(b.secs * nanos_per_sec() >= (a.secs + 1) * nanos_per_sec()) by (nonlinear_arith)
            requires
                b.secs >= a.secs + 1,
        ;
    }
}

/// A point in time: seconds relative to the Unix epoch (negative before it) and
/// a sub-second part in nanoseconds that always counts forward.
#[derive(Debug, Clone, Copy, PartialEq, Eq, Structural)]
pub struct Timestamp {
    pub secs: i64,
    pub nanos: u32,
}

impl Timestamp {
    pub open spec fn wf(self) -> bool {
        self.nanos < 1_000_000_000
    }

    /// Nanoseconds since the epoch.
    pub open spec fn total(self) -> int {
        self.secs * nanos_per_sec() + self.nanos
    }

    /// The Unix epoch.
    pub fn epoch() -> (r: Timestamp)
        ensures
            r.total() == 0,
            r.wf(),
    {
        Timestamp { secs: 0, nanos: 0 }
    }

    /// The time elapsed from `earlier` to `self`; `None` when `earlier` is later.
    pub fn duration_since(&self, earlier: &Timestamp) -> (r: Option<TimeSpan>)
        requires
            self.wf(),
            earlier.wf(),
        ensures
            r is Some <==> self.total() >= earlier.total(),
            r matches Some(d) ==> d.wf() && d.total() == self.total() - earlier.total(),
    {
        if self.secs < earlier.secs || (self.secs == earlier.secs && self.nanos < earlier.nanos) {
            return None;
        }
        let diff: i128 = (self.secs as i128) - (earlier.secs as i128);
        if self.nanos >= earlier.nanos {
            let d = TimeSpan { secs: diff as u64, nanos: self.nanos - earlier.nanos };
            assert(d.total() == self.total() - earlier.total()) by (nonlinear_arith)
                requires
                    d.secs == diff,
                    diff == self.secs - earlier.secs,
                    d.nanos == self.nanos - earlier.nanos,
            ;
            Some(d)
        } else {
            let d = TimeSpan { secs: (diff - 1) as u64, nanos: self.nanos + 1_000_000_000 - earlier.nanos };
            assert(d.total() == self.total() - earlier.total()) by (nonlinear_arith)
                requires
                    d.secs == diff - 1,
                    diff == self.secs - earlier.secs,
                    d.nanos == self.nanos + 1_000_000_000 - earlier.nanos,
            ;
            Some(d)
        }
    }

    /// The point `span` before `self`; `None` when its seconds would fall below `i64::MIN`.
    pub fn checked_sub(&self, span: &TimeSpan) -> (r: Option<Timestamp>)
        requires
            self.wf(),
            span.wf(),
        ensures
            r is Some <==> self.total() - span.total() >= (i64::MIN as int) * nanos_per_sec(),
            r matches Some(t) ==> t.wf() && t.total() == self.total() - span.total(),
    {
        let s: i128 = (self.secs as i128) - (span.secs as i128);
        if self.nanos >= span.nanos {
            if s < i64::MIN as i128 {
                assert(self.total() - span.total() < (i64::MIN as int) * nanos_per_sec()) by (nonlinear_arith)
                    requires
                        s == self.secs - span.secs,
                        s < i64::MIN,
                        self.nanos < 1_000_000_000,
                        span.nanos <= self.nanos,
                ;
                return None;
            }
            let t = Timestamp { secs: s as i64, nanos: self.nanos - span.nanos };
            assert(t.total() == self.total() - span.total()
                && self.total() - span.total() >= (i64::MIN as int) * nanos_per_sec()) by (nonlinear_arith)
                requires
                    t.secs == s,
                    s == self.secs - span.secs,
                    s >= i64::MIN,
                    t.nanos == self.nanos - span.nanos,
            ;
            Some(t)
        } else {
            if s - 1 < i64::MIN as i128 {
                assert(self.total() - span.total() < (i64::MIN as int) * nanos_per_sec()) by (nonlinear_arith)
                    requires
                        s == self.secs - span.secs,
                        s - 1 < i64::MIN,
                        self.nanos < span.nanos,
                ;
                return None;
            }
            let t = Timestamp { secs: (s - 1) as i64, nanos: self.nanos + 1_000_000_000 - span.nanos };
            assert(t.total() == self.total() - span.total()
                && self.total() - span.total() >= (i64::MIN as int) * nanos_per_sec()) by (nonlinear_arith)
                requires
                    t.secs == s - 1,
                    s == self.secs - span.secs,
                    s - 1 >= i64::MIN,
                    span.nanos < 1_000_000_000,
                    t.nanos == self.nanos + 1_000_000_000 - span.nanos,
            ;
            Some(t)
        }
    }

    /// The later of two points in time.
    pub fn later(&self, other: &Timestamp) -> (r: Timestamp)
        ensures
            r == *self || r == *other,
            self.wf() && other.wf() ==> r.total() >= self.total() && r.total() >= other.total(),
    {
        if other.secs > self.secs || (other.secs == self.secs && other.nanos > self.nanos) {
            *other
        } else {
            *self
        }
    }

    /// The position of an offset from the epoch: after it for `Ok`, before it for `Err`.
    pub fn from_epoch_offset(offset: Result<TimeSpan, TimeSpan>) -> (r: Timestamp)
        requires
            match offset {
                Ok(d) => d.wf(),
                Err(d) => d.wf(),
            },
        ensures
            r.wf(),
            match offset {
                Ok(d) => d.secs <= i64::MAX ==> r.total() == d.total(),
                Err(d) => d.secs < i64::MAX ==> r.total() == -d.total(),
            },
    {
        match offset {
            Ok(d) => {
                if d.secs > i64::MAX as u64 {
                    Timestamp { secs: i64::MAX, nanos: 999_999_999 }
                } else {
                    Timestamp { secs: d.secs as i64, nanos: d.nanos }
                }
            },
            Err(d) => {
                if d.secs >= i64::MAX as u64 {
                    Timestamp { secs: i64::MIN, nanos: 0 }
                } else if d.nanos == 0 {
                    Timestamp { secs: -(d.secs as i64), nanos: 0 }
                } else {
                    let t = Timestamp { secs: -(d.secs as i64) - 1, nanos: 1_000_000_000 - d.nanos };
                    assert(t.total() == -d.total()) by (nonlinear_arith)
                        requires
                            t.secs == -(d.secs as int) - 1,
                            t.nanos == 1_000_000_000 - d.nanos,
                    ;
                    t
                }
            },
        }
    }
}

/// The system clock's offset from the Unix epoch (std's `SystemTime::now` and
/// `SystemTime::duration_since(UNIX_EPOCH)`): `Ok` after the epoch, `Err` before it.
/// Nothing is claimed of the value but that the sub-second parts are below one second.
#[verifier::external_body]
fn clock_offset() -> (r: Result<TimeSpan, TimeSpan>)
    ensures
        match r {
            Ok(d) => d.wf(),
            Err(d) => d.wf(),
        },
{
    match std::time::SystemTime::now().duration_since(std::time::UNIX_EPOCH) {
        Ok(d) => Ok(TimeSpan { secs: d.as_secs(), nanos: d.subsec_nanos() }),
        Err(e) => Err(TimeSpan { secs: e.duration().as_secs(), nanos: e.duration().subsec_nanos() }),
    }
}

/// The current time.
pub fn now() -> (r: Timestamp)
    ensures
        r.wf(),
{
    Timestamp::from_epoch_offset(clock_offset())
}

} // verus!
