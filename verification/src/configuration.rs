use vstd::prelude::*;

use crate::error::ReplicationError;
use crate::fingerprint::Fingerprint;
use crate::hashing::{hash_bytes, push_bytes, push_u64_le, u64_le_bytes, xxh3_of};

verus! {

/// Nanoseconds in one millisecond: timestamps count milliseconds, interval
/// durations count nanoseconds.
pub const NANOS_PER_MILLI: u64 = 1_000_000;

/// The replication parameters shared by all replicas of one storage.
///
/// - `interval_duration`: width of one interval, in nanoseconds;
/// - `sub_intervals`: partitions per interval;
/// - `hot_era_size`: number of intervals in the hot era;
/// - `warm_era_size`: number of intervals in the warm era;
/// - `propagation_delay`: lag applied before closing an interval, in
///   milliseconds.
#[derive(Clone, Copy, Debug, PartialEq, Eq, Structural)]
pub struct ReplicaConfig {
    pub interval_duration: u64,
    pub sub_intervals: u32,
    pub hot_era_size: u64,
    pub warm_era_size: u64,
    pub propagation_delay: u64,
}

impl ReplicaConfig {
    /// Both divisors are positive and the hot era holds at least the last
    /// elapsed interval itself.
    pub open spec fn wf(self) -> bool {
        &&& self.interval_duration >= 1
        &&& self.sub_intervals >= 1
        &&& self.hot_era_size >= 1
    }
}

/// The canonical byte serialization of a configuration: storage key bytes,
/// prefix bytes if present, then every numeric parameter in declaration order,
/// little-endian, each widened to eight bytes.
pub open spec fn configuration_bytes(
    key: Seq<u8>,
    prefix: Option<Seq<u8>>,
    rc: ReplicaConfig,
) -> Seq<u8> {
    key + (match prefix {
        Some(p) => p,
        None => Seq::empty(),
    }) + u64_le_bytes(rc.interval_duration) + u64_le_bytes(rc.sub_intervals as u64) + u64_le_bytes(
        rc.hot_era_size,
    ) + u64_le_bytes(rc.warm_era_size) + u64_le_bytes(rc.propagation_delay)
}

/// The stable fingerprint of a configuration: the xxh3 hash of its canonical
/// byte serialization.
pub open spec fn configuration_fingerprint(
    key: Seq<u8>,
    prefix: Option<Seq<u8>>,
    rc: ReplicaConfig,
) -> Fingerprint {
    Fingerprint { value: xxh3_of(configuration_bytes(key, prefix, rc)) }
}

/// The configuration of one replicated storage: where it listens, the prefix
/// stripped from stored keys, the shared replication parameters, and the
/// fingerprint that replicas compare before aligning.
#[derive(Debug, Clone)]
pub struct Configuration {
    pub storage_key_expr: Vec<u8>,
    pub prefix: Option<Vec<u8>>,
    pub replica_config: ReplicaConfig,
    pub fingerprint: Fingerprint,
}

impl Configuration {
    /// The cached fingerprint is the one derived from the fields.
    pub open spec fn wf(self) -> bool {
        &&& self.replica_config.wf()
        &&& self.fingerprint == configuration_fingerprint(
            self.storage_key_expr@,
            self.prefix.deep_view(),
            self.replica_config,
        )
    }

    /// Builds a configuration and computes its fingerprint.
    pub fn new(
        storage_key_expr: Vec<u8>,
        prefix: Option<Vec<u8>>,
        replica_config: ReplicaConfig,
    ) -> (r: Configuration)
        requires
            replica_config.wf(),
        ensures
            r.storage_key_expr == storage_key_expr,
            r.prefix == prefix,
            r.replica_config == replica_config,
            r.wf(),
    {
        let mut buf: Vec<u8> = Vec::new();
        push_bytes(&mut buf, &storage_key_expr);
        match &prefix {
            Some(p) => push_bytes(&mut buf, p),
            None => (),
        }
        push_u64_le(&mut buf, replica_config.interval_duration);
        push_u64_le(&mut buf, replica_config.sub_intervals as u64);
        push_u64_le(&mut buf, replica_config.hot_era_size);
        push_u64_le(&mut buf, replica_config.warm_era_size);
        push_u64_le(&mut buf, replica_config.propagation_delay);
        proof {
            assert(buf@ =~= configuration_bytes(
                storage_key_expr@,
                prefix.deep_view(),
                replica_config,
            ));
        }
        let value = hash_bytes(&buf);
        Configuration {
            storage_key_expr,
            prefix,
            replica_config,
            fingerprint: Fingerprint { value },
        }
    }

    /// Returns the configuration fingerprint.
    pub fn fingerprint(&self) -> (r: Fingerprint)
        ensures
            r == self.fingerprint,
    {
        self.fingerprint
    }

    /// A time value can be classified when its position in nanoseconds still
    /// fits in sixty-four bits.
    pub open spec fn spec_in_bound(self, time: u64) -> bool {
        time * NANOS_PER_MILLI <= u64::MAX
    }

    /// The interval a time value falls in.
    pub open spec fn spec_interval_of(self, time: u64) -> u64 {
        ((time * NANOS_PER_MILLI) / (self.replica_config.interval_duration as int)) as u64
    }

    /// The sub-interval a time value falls in, always below `sub_intervals`.
    pub open spec fn spec_sub_interval_of(self, time: u64) -> u64 {
        (((time * NANOS_PER_MILLI) % (self.replica_config.interval_duration as int)) * (
        self.replica_config.sub_intervals as int) / (self.replica_config.interval_duration as int))
            as u64
    }

    /// Classifies a timestamp into its interval and sub-interval.
    ///
    /// Fails with `OutOfBound` when the timestamp lies so far in the future
    /// that its position in nanoseconds does not fit in sixty-four bits.
    pub fn get_time_classification(&self, time: u64) -> (r: Result<(u64, u64), ReplicationError>)
        requires
            self.wf(),
        ensures
            match r {
                Ok((idx, sub)) => {
                    &&& self.spec_in_bound(time)
                    &&& idx == self.spec_interval_of(time)
                    &&& sub == self.spec_sub_interval_of(time)
                    &&& sub < self.replica_config.sub_intervals
                },
                Err(e) => {
                    &&& e == ReplicationError::OutOfBound
                    &&& !self.spec_in_bound(time)
                },
            },
    {
        if time > u64::MAX / NANOS_PER_MILLI {
            return Err(ReplicationError::OutOfBound);
        }
        let time_ns = time * NANOS_PER_MILLI;
        let duration = self.replica_config.interval_duration;
        let idx = time_ns / duration;
        let rem = time_ns % duration;
        let subs = self.replica_config.sub_intervals;
        proof {
            lemma_mul_bound(rem as int, subs as int, u64::MAX as int, u32::MAX as int);
            lemma_scaled_div_below(rem as int, subs as int, duration as int);
        }
        let scaled: u128 = (rem as u128) * (subs as u128);
        let sub = (scaled / (duration as u128)) as u64;
        Ok((idx, sub))
    }

    /// The first interval of the hot era whose last interval is `upper`:
    /// `upper - hot_era_size + 1`, saturating at zero.
    pub open spec fn spec_hot_era_lower_bound(self, upper: u64) -> u64 {
        if upper >= self.replica_config.hot_era_size - 1 {
            (upper - (self.replica_config.hot_era_size - 1)) as u64
        } else {
            0
        }
    }

    /// The first interval of the warm era: the hot era's lower bound minus
    /// `warm_era_size`, saturating at zero.
    pub open spec fn spec_warm_era_lower_bound(self, upper: u64) -> u64 {
        if self.spec_hot_era_lower_bound(upper) >= self.replica_config.warm_era_size {
            (self.spec_hot_era_lower_bound(upper) - self.replica_config.warm_era_size) as u64
        } else {
            0
        }
    }

    pub fn hot_era_lower_bound(&self, upper: u64) -> (r: u64)
        requires
            self.wf(),
        ensures
            r == self.spec_hot_era_lower_bound(upper),
    {
        let size = self.replica_config.hot_era_size;
        if upper >= size - 1 {
            upper - (size - 1)
        } else {
            0
        }
    }

    pub fn warm_era_lower_bound(&self, upper: u64) -> (r: u64)
        requires
            self.wf(),
        ensures
            r == self.spec_warm_era_lower_bound(upper),
    {
        let hot_lower = self.hot_era_lower_bound(upper);
        let size = self.replica_config.warm_era_size;
        if hot_lower >= size {
            hot_lower - size
        } else {
            0
        }
    }

    /// The last interval that has fully elapsed: the current time, pushed back
    /// by the propagation delay, classified. Before the epoch the answer is
    /// the very first interval.
    ///
    /// Fails with `OutOfBound` when even the pushed-back time cannot be
    /// classified.
    pub fn last_elapsed_interval(&self) -> (r: Result<u64, ReplicationError>)
        requires
            self.wf(),
        ensures
            match r {
                Ok(idx) => exists|t: u64|
                    self.spec_in_bound(t) && idx == self.spec_interval_of(t),
                Err(e) => e == ReplicationError::OutOfBound,
            },
    {
        let now = now_millis();
        let adjusted = if now >= self.replica_config.propagation_delay {
            now - self.replica_config.propagation_delay
        } else {
            0
        };
        match self.get_time_classification(adjusted) {
            Ok((idx, _sub)) => {
                proof {
                    let t = adjusted;
                    assert(self.spec_in_bound(t) && idx == self.spec_interval_of(t));
                }
                Ok(idx)
            },
            Err(e) => Err(e),
        }
    }
}

/// Scaling a remainder below `d` by `s` and dividing by `d` stays below `s`.
proof fn lemma_scaled_div_below(rem: int, s: int, d: int)
    by (nonlinear_arith)
    requires
        0 <= rem < d,
        0 < s,
    ensures
        0 <= rem * s / d < s,
{
}

/// The product of two bounded non-negative values is bounded by the product
/// of the bounds.
proof fn lemma_mul_bound(a: int, b: int, amax: int, bmax: int)
    by (nonlinear_arith)
    requires
        0 <= a <= amax,
        0 <= b <= bmax,
    ensures
        a * b <= amax * bmax,
{
}

/// Relies on `std::time::SystemTime::now`: the current wall-clock time, in
/// milliseconds since the UNIX epoch. Nothing is promised of the value: it
/// depends on the clock of the host.
#[verifier::external_body]
fn now_millis() -> (r: u64)
{
    match std::time::SystemTime::now().duration_since(std::time::UNIX_EPOCH) {
        Ok(elapsed) => elapsed.as_millis() as u64,
        Err(_) => 0,
    }
}

} // verus!
