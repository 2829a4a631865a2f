//! Time sources.

use vstd::prelude::*;

verus! {

/// `std::time::SystemTime`, a point on the wall clock.
#[verifier::external_type_specification]
#[verifier::external_body]
pub struct ExSystemTime(std::time::SystemTime);

/// `std::time::SystemTimeError`, the failure of a wall-clock difference.
#[verifier::external_type_specification]
#[verifier::external_body]
pub struct ExSystemTimeError(std::time::SystemTimeError);

/// `std::time::Instant`, a point on the monotonic clock.
#[verifier::external_type_specification]
#[verifier::external_body]
pub struct ExInstant(std::time::Instant);

/// `SystemTime::now` reads the wall clock: any value may come back.
pub assume_specification[ std::time::SystemTime::now ]() -> std::time::SystemTime
;

/// `SystemTime::duration_since` gives the span from `earlier`, or an error if
/// `earlier` is later. Spans are opaque, so nothing is claimed of the result.
pub assume_specification[ std::time::SystemTime::duration_since ](
    this: &std::time::SystemTime,
    earlier: std::time::SystemTime,
) -> core::result::Result<std::time::Duration, std::time::SystemTimeError>
;

/// `Duration::as_secs` gives the whole seconds of a span, which is opaque here.
pub assume_specification[ std::time::Duration::as_secs ](this: &std::time::Duration) -> u64
;

/// `Duration::as_millis` gives the whole milliseconds of a span, which is
/// opaque here.
pub assume_specification[ std::time::Duration::as_millis ](this: &std::time::Duration) -> u128
;

/// `Instant::now` reads the monotonic clock: any value may come back.
pub assume_specification[ std::time::Instant::now ]() -> std::time::Instant
;

/// `Instant::elapsed` gives the span since the instant: any value may come back.
pub assume_specification[ std::time::Instant::elapsed ](
    this: &std::time::Instant,
) -> std::time::Duration
;

/// The constant `std::time::UNIX_EPOCH`, an opaque point in time.
#[verifier::external_body]
fn unix_epoch() -> std::time::SystemTime {
    std::time::UNIX_EPOCH
}

/// `span` may be what `SystemTime::duration_since` says of a reading of the
/// wall clock and the Unix epoch.
pub closed spec fn since_epoch(
    span: core::result::Result<std::time::Duration, std::time::SystemTimeError>,
) -> bool {
    exists|now: std::time::SystemTime, epoch: std::time::SystemTime|
        {
            &&& #[trigger] call_ensures(std::time::SystemTime::now, (), now)
            &&& call_ensures(unix_epoch, (), epoch)
            &&& #[trigger] call_ensures(
                std::time::SystemTime::duration_since,
                (&now, epoch),
                span,
            )
        }
}

/// The span from the Unix epoch to now, as the wall clock has it.
fn span_since_epoch() -> (r: core::result::Result<
    std::time::Duration,
    std::time::SystemTimeError,
>)
    ensures
        since_epoch(r),
{
    let now = std::time::SystemTime::now();
    let epoch = unix_epoch();
    let span = now.duration_since(epoch);
    assert(call_ensures(std::time::SystemTime::now, (), now));
    assert(call_ensures(std::time::SystemTime::duration_since, (&now, epoch), span));
    span
}

/// `r` may be a reading of the wall clock in seconds: the whole seconds, as
/// `Duration::as_secs` gives them, since the Unix epoch, or 0 before it.
pub open spec fn seconds_read(r: u64) -> bool {
    exists|span: core::result::Result<std::time::Duration, std::time::SystemTimeError>|
        #[trigger] since_epoch(span) && match span {
            Ok(d) => call_ensures(std::time::Duration::as_secs, (&d,), r),
            Err(_) => r == 0,
        }
}

/// Seconds since the Unix epoch, or 0 before it. The clock decides the value.
pub fn unix_seconds_now() -> (r: u64)
    ensures
        seconds_read(r),
{
    match span_since_epoch() {
        Ok(d) => d.as_secs(),
        Err(_) => 0,
    }
}

/// The low 64 bits of a number.
pub open spec fn low_bits(n: u128) -> u64 {
    (n % 0x1_0000_0000_0000_0000) as u64
}

/// The low 64 bits of a number.
pub(crate) fn keep_low_bits(n: u128) -> (r: u64)
    ensures
        r == low_bits(n),
{
    assert(n as u64 == (n % 0x1_0000_0000_0000_0000) as u64) by (bit_vector);
    n as u64
}

/// `r` may be a reading of the wall clock in milliseconds: the whole
/// milliseconds, as `Duration::as_millis` gives them and cut to 64 bits, since
/// the Unix epoch, or 0 before it.
pub open spec fn millis_read(r: u64) -> bool {
    exists|span: core::result::Result<std::time::Duration, std::time::SystemTimeError>|
        #[trigger] since_epoch(span) && match span {
            Ok(d) => exists|ms: u128| #[trigger]
                call_ensures(std::time::Duration::as_millis, (&d,), ms) && r == low_bits(ms),
            Err(_) => r == 0,
        }
}

/// Milliseconds since the Unix epoch, or 0 before it. The clock decides the value.
pub fn unix_millis_now() -> (r: u64)
    ensures
        millis_read(r),
{
    match span_since_epoch() {
        Ok(d) => {
            let ms: u128 = d.as_millis();
            keep_low_bits(ms)
        },
        Err(_) => 0,
    }
}

/// A source of the current time, in the unit that its user expects.
pub trait Clock {
    /// The values that a reading may give.
    spec fn may_read(&self, now: u64) -> bool;

    /// The current time.
    fn read_time(&self) -> (now: u64)
        ensures
            self.may_read(now),
    ;
}

/// The wall clock in seconds.
#[derive(Debug, Clone, Copy)]
pub struct SystemSeconds;

impl Clock for SystemSeconds {
    open spec fn may_read(&self, now: u64) -> bool {
        seconds_read(now)
    }

    fn read_time(&self) -> (now: u64) {
        unix_seconds_now()
    }
}

/// The wall clock in milliseconds.
#[derive(Debug, Clone, Copy)]
pub struct SystemMillis;

impl Clock for SystemMillis {
    open spec fn may_read(&self, now: u64) -> bool {
        millis_read(now)
    }

    fn read_time(&self) -> (now: u64) {
        unix_millis_now()
    }
}

/// A clock that calls a function.
pub struct FnClock<F: Fn() -> u64> {
    read: F,
}

impl<F: Fn() -> u64> FnClock<F> {
    #[verifier::type_invariant]
    spec fn callable(self) -> bool {
        call_requires(self.read, ())
    }

    /// The function that is called.
    pub closed spec fn source(self) -> F {
        self.read
    }

    /// A clock that reads `read`.
    pub fn new(read: F) -> (r: Self)
        requires
            call_requires(read, ()),
        ensures
            r.source() == read,
    {
        FnClock { read }
    }
}

impl<F: Fn() -> u64> Clock for FnClock<F> {
    open spec fn may_read(&self, now: u64) -> bool {
        call_ensures(self.source(), (), now)
    }

    fn read_time(&self) -> (now: u64) {
        proof {
            use_type_invariant(self);
        }
        (self.read)()
    }
}

/// A clock of seconds reads the whole seconds since the epoch, one of milliseconds the
/// whole milliseconds, kept to 64 bits; before the epoch both read 0.
pub proof fn law_clocks_count_from_the_epoch(r: u64, n: u128)
    ensures
        low_bits(n) == n % 0x1_0000_0000_0000_0000,
        n < 0x1_0000_0000_0000_0000 ==> low_bits(n) == n,
        seconds_read(r) <==> exists|
            span: core::result::Result<std::time::Duration, std::time::SystemTimeError>,
        |
            #[trigger] since_epoch(span) && match span {
                Ok(d) => call_ensures(std::time::Duration::as_secs, (&d,), r),
                Err(_) => r == 0,
            },
        millis_read(r) <==> exists|
            span: core::result::Result<std::time::Duration, std::time::SystemTimeError>,
        |
            #[trigger] since_epoch(span) && match span {
                Ok(d) => exists|ms: u128| #[trigger]
                    call_ensures(std::time::Duration::as_millis, (&d,), ms) && r == low_bits(ms),
                Err(_) => r == 0,
            },
{
}

/// Each clock reads in its own unit, and one made of a function reads what the function
/// gives.
pub proof fn law_clocks_read_their_unit<F: Fn() -> u64>(
    seconds: SystemSeconds,
    millis: SystemMillis,
    f: FnClock<F>,
    now: u64,
)
    ensures
        seconds.may_read(now) <==> seconds_read(now),
        millis.may_read(now) <==> millis_read(now),
        f.may_read(now) <==> call_ensures(f.source(), (), now),
{
}

} // verus!
