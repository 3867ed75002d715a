//! The parts of the measuring harness that decide: when a time budget is
//! used up, when progress is due to be reported, and how quantities scale.

use std::time::Duration;
use std::time::Instant;
use vstd::prelude::*;

verus! {

/// A point on the monotonic clock of the standard library. Nothing is
/// known of what it holds.
#[verifier::external_type_specification]
#[verifier::external_body]
pub struct ExInstant(std::time::Instant);

/// Calls `Instant::now`. The result depends on the clock, so the contract
/// says nothing of it.
#[verifier::external_body]
fn instant_now() -> Instant {
    Instant::now()
}

/// Calls `Instant::elapsed`. The result depends on the clock, so the
/// contract says nothing of it.
#[verifier::external_body]
fn instant_elapsed(start: &Instant) -> Duration {
    start.elapsed()
}

/// Calls `Duration::as_nanos`, the whole number of nanoseconds in `d`.
#[verifier::external_body]
fn duration_as_nanos(d: &Duration) -> u128 {
    d.as_nanos()
}

/// Calls `Duration::from_nanos`.
#[verifier::external_body]
fn duration_from_nanos(nanos: u64) -> Duration {
    Duration::from_nanos(nanos)
}

/// Calls `Instant::checked_add`, which gives nothing where the sum cannot
/// be represented.
#[verifier::external_body]
fn instant_checked_add(start: &Instant, d: Duration) -> Option<Instant> {
    start.checked_add(d)
}

/// Nanoseconds in a minute.
pub const NANOS_PER_MINUTE: u128 = 60_000_000_000;

/// Nanoseconds in a year of 365 days.
pub const NANOS_PER_YEAR: u64 = 31_536_000_000_000_000;

/// In what a measured quantity is counted.
#[derive(Debug, Clone, Copy, PartialEq, Eq, Structural)]
pub enum Unit {
    Bytes,
    Milliseconds,
}

impl Unit {
    /// The factor between one prefix and the next.
    pub open spec fn spec_scale(&self) -> usize {
        match self {
            Unit::Bytes => 1024usize,
            Unit::Milliseconds => 1000usize,
        }
    }

    /// How many prefixes the unit has.
    pub open spec fn spec_prefixes(&self) -> usize {
        match self {
            Unit::Bytes => 6usize,
            Unit::Milliseconds => 4usize,
        }
    }

    /// The factor between one prefix and the next: 1024 for bytes, 1000
    /// for time.
    pub fn scale(&self) -> (s: usize)
        ensures
            s == self.spec_scale(),
    {
        match self {
            Unit::Bytes => 1024,
            Unit::Milliseconds => 1000,
        }
    }

    /// How many prefixes the unit has: none to peta for bytes, nano to none
    /// for time.
    pub fn prefixes(&self) -> (n: usize)
        ensures
            n == self.spec_prefixes(),
    {
        match self {
            Unit::Bytes => 6,
            Unit::Milliseconds => 4,
        }
    }

    /// How often `value` can be divided by the scale before it falls below
    /// the scale or the prefixes run out: the number of the prefix to show
    /// it with.
    pub fn prefix_of(&self, value: u64) -> (step: usize)
        ensures
            step < self.spec_prefixes(),
            step == spec_prefix_of(
                value as nat,
                self.spec_scale() as nat,
                (self.spec_prefixes() - 1) as nat,
            ),
    {
        let scale = self.scale() as u64;
        let last = self.prefixes() - 1;
        let mut rest = value;
        let mut step: usize = 0;
        while rest >= scale && step < last
            invariant
                step <= last,
                last < 6,
                scale >= 1000,
                spec_prefix_of(value as nat, scale as nat, last as nat) == step + spec_prefix_of(
                    rest as nat,
                    scale as nat,
                    (last - step) as nat,
                ),
            decreases last - step,
        {
            rest = rest / scale;
            step = step + 1;
        }
        step
    }
}

/// How often `value` can be divided by `scale` before it falls below
/// `scale`, at most `most` times.
pub open spec fn spec_prefix_of(value: nat, scale: nat, most: nat) -> nat
    decreases most,
{
    if most == 0 || value < scale || scale == 0 {
        0
    } else {
        1 + spec_prefix_of(value / scale, scale, (most - 1) as nat)
    }
}

/// Whether a budget of `dead_line` is used up after `elapsed`.
pub fn is_expired(elapsed: u128, dead_line: u128) -> (r: bool)
    ensures
        r == (elapsed >= dead_line),
{
    elapsed >= dead_line
}

/// Whether progress is due to be reported when the count of trials goes
/// from `before` to `after`: the time since the last report has reached the
/// interval, or the trials are done, or the count has entered another
/// stretch of `interval` trials.
pub open spec fn spec_notice_due(
    since_notice: u128,
    notice_interval: u128,
    before: usize,
    after: usize,
    max_trials: usize,
    interval: usize,
) -> bool {
    since_notice >= notice_interval || after >= max_trials || (before != 0 && after / interval
        != before / interval)
}

/// Whether progress is due to be reported.
pub fn notice_due(
    since_notice: u128,
    notice_interval: u128,
    before: usize,
    after: usize,
    max_trials: usize,
    interval: usize,
) -> (r: bool)
    requires
        interval != 0 || before == 0 || after >= max_trials,
    ensures
        r == spec_notice_due(since_notice, notice_interval, before, after, max_trials, interval),
{
    since_notice >= notice_interval || after >= max_trials || (before != 0 && after / interval
        != before / interval)
}

/// The time that all `max_trials` trials take if each takes as long as the
/// `current` trials so far took on average, in nanoseconds, capped at the
/// greatest 64-bit number.
pub open spec fn spec_estimate(elapsed: u128, current: usize, max_trials: usize) -> nat {
    let total = (elapsed as nat / current as nat) * max_trials as nat;
    if total > u64::MAX {
        u64::MAX as nat
    } else {
        total
    }
}

/// The estimated time for all trials, in nanoseconds.
pub fn estimate_nanos(elapsed: u128, current: usize, max_trials: usize) -> (r: u64)
    requires
        current > 0,
    ensures
        r == spec_estimate(elapsed, current, max_trials),
{
    let average = elapsed / (current as u128);
    match average.checked_mul(max_trials as u128) {
        Some(total) => if total > u64::MAX as u128 {
            u64::MAX
        } else {
            total as u64
        },
        None => {
            assert(average * max_trials > u64::MAX);
            u64::MAX
        },
    }
}

/// From when the end of the trials is reckoned, and how many nanoseconds
/// lie between.
#[derive(Debug, Clone, Copy, PartialEq, Eq, Structural)]
pub enum Span {
    FromNow { nanos: u64 },
    FromStart { nanos: u64 },
}

/// The end of the trials: a year from now while no trial is done, else
/// the estimate for all trials, reckoned from the start.
pub open spec fn spec_span(elapsed: u128, current: usize, max_trials: usize) -> Span {
    if current == 0 {
        Span::FromNow { nanos: NANOS_PER_YEAR }
    } else {
        Span::FromStart { nanos: spec_estimate(elapsed, current, max_trials) as u64 }
    }
}

/// The end of the trials, `elapsed` nanoseconds after the start and with
/// `current` of `max_trials` trials done.
pub fn span_to_end(elapsed: u128, current: usize, max_trials: usize) -> (span: Span)
    ensures
        span == spec_span(elapsed, current, max_trials),
{
    if current == 0 {
        Span::FromNow { nanos: NANOS_PER_YEAR }
    } else {
        Span::FromStart { nanos: estimate_nanos(elapsed, current, max_trials) }
    }
}

/// How the expected end is shown: with the day where it is not today,
/// without seconds where it is an hour or more away.
#[derive(Debug, Clone, Copy, PartialEq, Eq, Structural)]
pub enum Stamp {
    DayAndMinute,
    Minute,
    Second,
}

/// How the expected end is shown, `hours` being the whole hours until then.
pub fn stamp_of(same_day: bool, hours: i64) -> (stamp: Stamp)
    ensures
        stamp == if !same_day {
            Stamp::DayAndMinute
        } else if hours >= 1 {
            Stamp::Minute
        } else {
            Stamp::Second
        },
{
    if !same_day {
        Stamp::DayAndMinute
    } else if hours >= 1 {
        Stamp::Minute
    } else {
        Stamp::Second
    }
}

/// A time left, in the two greatest units that it fills.
#[derive(Debug, Clone, Copy, PartialEq, Eq, Structural)]
pub enum TimeLeft {
    Hours { hours: i64, minutes: i64 },
    Minutes { minutes: i64, seconds: i64 },
    Seconds { seconds: i64 },
}

/// A time of `secs` seconds in hours and minutes from an hour on, in
/// minutes and seconds from a minute on, else in seconds. Of a time that
/// is past, the seconds beyond the whole minutes are shown, with their
/// sign.
pub open spec fn spec_time_left(secs: i64) -> TimeLeft {
    if secs >= 3600 {
        TimeLeft::Hours { hours: (secs / 3600) as i64, minutes: ((secs % 3600) / 60) as i64 }
    } else if secs >= 60 {
        TimeLeft::Minutes { minutes: (secs / 60) as i64, seconds: (secs % 60) as i64 }
    } else if secs >= 0 {
        TimeLeft::Seconds { seconds: secs }
    } else {
        TimeLeft::Seconds { seconds: (-((-secs) % 60)) as i64 }
    }
}

/// A time of `secs` seconds in the two greatest units that it fills.
pub fn time_left(secs: i64) -> (left: TimeLeft)
    ensures
        left == spec_time_left(secs),
{
    if secs >= 3600 {
        let whole = secs as u64;
        TimeLeft::Hours { hours: (whole / 3600) as i64, minutes: ((whole % 3600) / 60) as i64 }
    } else if secs >= 60 {
        let whole = secs as u64;
        TimeLeft::Minutes { minutes: (whole / 60) as i64, seconds: (whole % 60) as i64 }
    } else if secs >= 0 {
        TimeLeft::Seconds { seconds: secs }
    } else {
        let past: u64 = if secs == i64::MIN {
            0x8000_0000_0000_0000
        } else {
            (-secs) as u64
        };
        TimeLeft::Seconds { seconds: -((past % 60) as i64) }
    }
}

/// Watches a time budget and a number of trials, and says when a report
/// on the progress is due.
pub struct ExpirationTimer {
    start: Instant,
    dead_line: u128,
    last_noticed: Instant,
    notice_interval: u128,
    max_trials: usize,
    current: usize,
    interval: usize,
}

impl ExpirationTimer {
    /// The time budget in nanoseconds.
    pub closed spec fn dead_line(&self) -> u128 {
        self.dead_line
    }

    /// The longest time between two reports, in nanoseconds.
    pub closed spec fn notice_interval(&self) -> u128 {
        self.notice_interval
    }

    /// The number of trials planned.
    pub closed spec fn max_trials(&self) -> usize {
        self.max_trials
    }

    /// The number of trials carried out.
    pub closed spec fn current(&self) -> usize {
        self.current
    }

    /// The number of trials between two reports.
    pub closed spec fn interval(&self) -> usize {
        self.interval
    }

    /// A timer that starts now, with a budget of `dead_line`, a report at
    /// least every `minutes` minutes and every `max_trials / div` trials.
    /// The budget is the whole number of nanoseconds in `dead_line`.
    pub fn new(dead_line: Duration, minutes: usize, max_trials: usize, div: usize) -> (t: Self)
        requires
            div > 0,
        ensures
            t.notice_interval() == minutes * NANOS_PER_MINUTE,
            t.max_trials() == max_trials,
            t.current() == 0,
            t.interval() == max_trials / div,
    {
        Self::with_budget(duration_as_nanos(&dead_line), minutes, max_trials, div)
    }

    /// A timer that starts now, with a budget of `nanos` nanoseconds, a
    /// report at least every `minutes` minutes and every `max_trials / div`
    /// trials.
    pub fn with_budget(nanos: u128, minutes: usize, max_trials: usize, div: usize) -> (t: Self)
        requires
            div > 0,
        ensures
            t.dead_line() == nanos,
            t.notice_interval() == minutes * NANOS_PER_MINUTE,
            t.max_trials() == max_trials,
            t.current() == 0,
            t.interval() == max_trials / div,
    {
        let start = instant_now();
        let last_noticed = start;
        let notice_interval = (minutes as u128) * NANOS_PER_MINUTE;
        ExpirationTimer {
            start,
            dead_line: nanos,
            last_noticed,
            notice_interval,
            max_trials,
            current: 0,
            interval: max_trials / div,
        }
    }

    /// Whether the budget is used up. The answer depends on the clock; for
    /// a given reading of it, `is_expired` says what it is. A budget of
    /// nothing is used up at any time.
    pub fn expired(&self) -> (r: bool)
        ensures
            self.dead_line() == 0 ==> r,
    {
        let elapsed = duration_as_nanos(&instant_elapsed(&self.start));
        is_expired(elapsed, self.dead_line)
    }

    /// The time since the timer started.
    pub fn elapsed(&self) -> Duration {
        instant_elapsed(&self.start)
    }

    /// When all trials will be done at the pace so far: the point of the
    /// clock that `span_to_end` names for the time elapsed, or the point
    /// that it is reckoned from where the other cannot be represented.
    pub fn estimated_end_time(&self) -> Instant {
        let elapsed = duration_as_nanos(&instant_elapsed(&self.start));
        match span_to_end(elapsed, self.current, self.max_trials) {
            Span::FromNow { nanos } => {
                let now = instant_now();
                match instant_checked_add(&now, duration_from_nanos(nanos)) {
                    Some(end) => end,
                    None => now,
                }
            },
            Span::FromStart { nanos } => {
                match instant_checked_add(&self.start, duration_from_nanos(nanos)) {
                    Some(end) => end,
                    None => self.start,
                }
            },
        }
    }

    /// Counts `amount` more trials and says whether a report is due, as
    /// `notice_due` decides for the time since the last report; if so, the
    /// time of the last report becomes now.
    pub fn carried_out(&mut self, amount: usize) -> (r: bool)
        requires
            old(self).current() + amount <= usize::MAX,
            old(self).interval() != 0 || old(self).current() == 0 || old(self).current() + amount
                >= old(self).max_trials(),
        ensures
            final(self).current() == old(self).current() + amount,
            final(self).max_trials() == old(self).max_trials(),
            final(self).interval() == old(self).interval(),
            final(self).dead_line() == old(self).dead_line(),
            final(self).notice_interval() == old(self).notice_interval(),
            final(self).current() >= final(self).max_trials() ==> r,
            old(self).current() != 0 && old(self).interval() != 0 && final(self).current() / old(
                self,
            ).interval() != old(self).current() / old(self).interval() ==> r,
            old(self).notice_interval() == 0 ==> r,
    {
        let before = self.current;
        self.current = self.current + amount;
        let since_notice = duration_as_nanos(&instant_elapsed(&self.last_noticed));
        if notice_due(
            since_notice,
            self.notice_interval,
            before,
            self.current,
            self.max_trials,
            self.interval,
        ) {
            self.last_noticed = instant_now();
            true
        } else {
            false
        }
    }
}

} // verus!
