//! The 100-nanosecond-tick timestamp: ticks counted from a fixed epoch that
//! precedes the Unix epoch by 621,355,968,000,000,000 ticks. The calendar
//! itself is chrono's; this module only converts between ticks and Unix
//! seconds and nanoseconds.

use vstd::prelude::*;
use chrono::TimeZone;

verus! {

pub const EPOCH_TICKS: i64 = 621_355_968_000_000_000;

pub const TICKS_PER_SECOND: i64 = 10_000_000;

/// A tick count that survives the decode formula unchanged: at or after the
/// Unix epoch, or a whole number of seconds before it.
pub open spec fn ticks_wf(ticks: i64) -> bool {
    ticks >= EPOCH_TICKS || (EPOCH_TICKS - ticks) % (TICKS_PER_SECOND as int) == 0
}

/// The Unix seconds a tick count decodes to (rounding toward zero, as the
/// reference formula does).
pub open spec fn spec_ticks_seconds(ticks: i64) -> int {
    if ticks >= EPOCH_TICKS {
        (ticks - EPOCH_TICKS) / (TICKS_PER_SECOND as int)
    } else {
        -((EPOCH_TICKS - ticks) / (TICKS_PER_SECOND as int))
    }
}

/// The sub-second nanoseconds a tick count decodes to.
pub open spec fn spec_ticks_nanos(ticks: i64) -> int {
    if ticks >= EPOCH_TICKS {
        ((ticks - EPOCH_TICKS) % (TICKS_PER_SECOND as int)) * 100
    } else {
        0
    }
}

/// The tick count of a Unix instant, nanoseconds truncated to the tick.
pub open spec fn spec_unix_ticks(secs: int, nanos: int) -> int {
    EPOCH_TICKS + secs * (TICKS_PER_SECOND as int) + nanos / 100
}

/// The instants this type can hold: sub-second precision only at or after the
/// Unix epoch, and a tick count that fits its field.
pub open spec fn spec_unix_ok(secs: int, nanos: int) -> bool {
    &&& nanos < 1_000_000_000
    &&& (secs >= 0 || nanos < 100)
    &&& i64::MIN <= spec_unix_ticks(secs, nanos) <= i64::MAX
}

/// Relies on chrono's `Utc.timestamp_opt` (via `DateTime::from_timestamp`):
/// a seconds-and-nanoseconds pair names a single civil instant exactly when
/// the seconds lie in chrono's calendar range and the nanoseconds are below
/// one second, or name a leap second below two; two thousand million
/// nanoseconds and above never name one.
#[verifier::external_body]
fn civil_time_exists(secs: i64, nanos: u32) -> (r: bool)
    ensures
        (-1_000_000_000_000 <= secs <= 1_000_000_000_000 && nanos < 1_000_000_000) ==> r,
        nanos >= 2_000_000_000 ==> !r,
{
    chrono::Utc.timestamp_opt(secs, nanos).single().is_some()
}

/// Relies on chrono's `Utc::now` for the current instant; nothing is assumed
/// of the value.
#[verifier::external_body]
fn now_unix() -> (r: (i64, u32)) {
    let t = chrono::Utc::now();
    (t.timestamp(), t.timestamp_subsec_nanos())
}

/// A replay timestamp: a civil instant held at the format's own resolution of
/// one tick (100 nanoseconds).
#[derive(Debug, Clone, Copy, PartialEq, Eq, Structural)]
pub struct UtcTime {
    ticks: i64,
}

impl View for UtcTime {
    type V = i64;

    closed spec fn view(&self) -> i64 {
        self.ticks
    }
}

impl UtcTime {
    /// Every held tick count survives the decode formula unchanged.
    #[verifier::type_invariant]
    pub closed spec fn wf(self) -> bool {
        ticks_wf(self@)
    }

    /// The Unix epoch itself.
    pub fn unix_epoch() -> (r: UtcTime)
        ensures
            r@ == EPOCH_TICKS,
    {
        UtcTime { ticks: EPOCH_TICKS }
    }

    /// Wraps a raw tick count; `None` when the count would not survive a
    /// decode (a fraction of a second before the Unix epoch).
    pub fn from_ticks(ticks: i64) -> (r: Option<UtcTime>)
        ensures
            r matches Some(t) ==> t@ == ticks,
            r is None <==> !ticks_wf(ticks),
    {
        if ticks >= EPOCH_TICKS {
            Some(UtcTime { ticks })
        } else {
            let diff: i128 = (EPOCH_TICKS as i128) - (ticks as i128);
            if diff % (TICKS_PER_SECOND as i128) == 0 {
                Some(UtcTime { ticks })
            } else {
                None
            }
        }
    }

    /// The raw tick count.
    pub fn ticks(&self) -> (r: i64)
        ensures
            r == self@,
            ticks_wf(self@),
    {
        proof {
            use_type_invariant(self);
        }
        self.ticks
    }

    /// The instant for a Unix time; nanoseconds are truncated to the tick.
    /// `None` for what the type cannot hold: two thousand million
    /// nanoseconds or more, sub-second precision before the Unix epoch, or a
    /// tick count out of range.
    pub fn from_unix(secs: i64, nanos: u32) -> (r: Option<UtcTime>)
        ensures
            r matches Some(t) ==> t@ == spec_unix_ticks(secs as int, nanos as int),
            r is Some <==> spec_unix_ok(secs as int, nanos as int),
    {
        if nanos >= 1_000_000_000 {
            return None;
        }
        if secs < 0 && nanos >= 100 {
            return None;
        }
        proof {
            assert((-0x8000_0000_0000_0000) * 10_000_000 <= (secs as int) * 10_000_000
                <= 0x7fff_ffff_ffff_ffff * 10_000_000) by (nonlinear_arith)
                requires
                    -0x8000_0000_0000_0000 <= secs <= 0x7fff_ffff_ffff_ffff,
            ;
        }
        let t128: i128 = (EPOCH_TICKS as i128) + (secs as i128) * (TICKS_PER_SECOND as i128) + ((
        nanos / 100) as i128);
        if t128 < -0x8000_0000_0000_0000i128 || t128 > 0x7fff_ffff_ffff_ffffi128 {
            return None;
        }
        let ticks: i64 = t128 as i64;
        proof {
            assert(ticks == spec_unix_ticks(secs as int, nanos as int));
            if secs >= 0 {
                assert(secs * (TICKS_PER_SECOND as int) >= 0) by (nonlinear_arith)
                    requires
                        secs >= 0,
                ;
                assert(ticks >= EPOCH_TICKS);
            } else {
                assert(nanos / 100 == 0);
                assert((EPOCH_TICKS - ticks) == (-secs) * (TICKS_PER_SECOND as int))
                    by (nonlinear_arith)
                    requires
                        ticks == EPOCH_TICKS + secs * (TICKS_PER_SECOND as int) + 0,
                ;
                assert(((-secs) * (TICKS_PER_SECOND as int)) % (TICKS_PER_SECOND as int) == 0) by {
                    vstd::arithmetic::div_mod::lemma_mod_multiples_basic(
                        -secs,
                        TICKS_PER_SECOND as int,
                    );
                }
            }
        }
        Some(UtcTime { ticks })
    }

    /// The Unix seconds this instant decodes to.
    pub fn unix_seconds(&self) -> (r: i64)
        ensures
            r == spec_ticks_seconds(self@),
    {
        proof {
            use_type_invariant(self);
        }
        if self.ticks >= EPOCH_TICKS {
            (self.ticks - EPOCH_TICKS) / TICKS_PER_SECOND
        } else {
            let diff: i128 = (EPOCH_TICKS as i128) - (self.ticks as i128);
            let q: i128 = diff / (TICKS_PER_SECOND as i128);
            proof {
                assert(q <= diff);
                assert(q >= 0);
            }
            -(q as i64)
        }
    }

    /// The sub-second nanoseconds this instant decodes to.
    pub fn subsec_nanos(&self) -> (r: u32)
        ensures
            r == spec_ticks_nanos(self@),
    {
        proof {
            use_type_invariant(self);
        }
        if self.ticks >= EPOCH_TICKS {
            let rem: i64 = (self.ticks - EPOCH_TICKS) % TICKS_PER_SECOND;
            (rem as u32) * 100
        } else {
            0
        }
    }

    /// The current time, at tick resolution; the epoch if the clock hands
    /// back an instant the type cannot hold.
    pub fn now() -> (r: UtcTime) {
        let (secs, nanos) = now_unix();
        match UtcTime::from_unix(secs, nanos) {
            Some(t) => t,
            None => UtcTime::unix_epoch(),
        }
    }
}

/// Encoding the decoded parts of a well-formed tick count gives the count
/// back: the 100-nanosecond resolution and the whole-second rule before the
/// epoch make the decode lossless.
pub proof fn lemma_ticks_round_trip(ticks: i64)
    requires
        ticks_wf(ticks),
    ensures
        spec_unix_ticks(spec_ticks_seconds(ticks), spec_ticks_nanos(ticks)) == ticks,
        0 <= spec_ticks_nanos(ticks) < 1_000_000_000,
        spec_unix_ok(spec_ticks_seconds(ticks), spec_ticks_nanos(ticks)),
{
    let p = TICKS_PER_SECOND as int;
    if ticks >= EPOCH_TICKS {
        let d = ticks - EPOCH_TICKS;
        vstd::arithmetic::div_mod::lemma_fundamental_div_mod(d, p);
        assert(0 <= d % p < p) by {
            vstd::arithmetic::div_mod::lemma_mod_bound(d, p);
        }
        assert((d % p) * 100 / 100 == d % p) by {
            vstd::arithmetic::div_mod::lemma_div_multiples_vanish(d % p, 100);
            assert((d % p) * 100 == 100 * (d % p)) by (nonlinear_arith);
        }
        assert(d / p >= 0) by {
            vstd::arithmetic::div_mod::lemma_div_pos_is_pos(d, p);
        }
        assert((d / p) * p == p * (d / p)) by (nonlinear_arith);
    } else {
        let d = EPOCH_TICKS - ticks;
        assert(d % p == 0);
        vstd::arithmetic::div_mod::lemma_fundamental_div_mod(d, p);
        assert(d / p >= 0) by {
            vstd::arithmetic::div_mod::lemma_div_pos_is_pos(d, p);
        }
        assert((-(d / p)) * p == -(p * (d / p))) by (nonlinear_arith);
    }
}

/// The chrono check, for the record decoder.
pub(crate) fn civil_time_exists_pub(secs: i64, nanos: u32) -> (r: bool)
    ensures
        (-1_000_000_000_000 <= secs <= 1_000_000_000_000 && nanos < 1_000_000_000) ==> r,
        nanos >= 2_000_000_000 ==> !r,
{
    civil_time_exists(secs, nanos)
}

} // verus!
