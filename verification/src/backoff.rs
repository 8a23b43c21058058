//! Reconnecting with a delay that doubles up to a cap.

use vstd::arithmetic::power2::{
    lemma2_to64, lemma_pow2_adds, lemma_pow2_pos, lemma_pow2_strictly_increases, lemma_pow2_unfold,
    pow2,
};
use vstd::prelude::*;

verus! {

/// Nanoseconds per millisecond.
pub const NANOS_PER_MILLI: u128 = 1_000_000;

/// Nanoseconds per second.
pub const NANOS_PER_SEC: u128 = 1_000_000_000;

/// The longest span: as many seconds as a 64-bit counter counts, and one
/// nanosecond less than another.
pub const LONGEST: u128 = 18_446_744_073_709_551_615_999_999_999;

/// A span of time, to the nanosecond, up to `LONGEST`.
#[derive(Clone, Copy, Debug, PartialEq, Eq, Structural)]
pub struct Duration {
    nanos: u128,
}

impl View for Duration {
    type V = nat;

    /// The nanoseconds.
    closed spec fn view(&self) -> nat {
        self.nanos as nat
    }
}

pub open spec fn lesser_span(a: nat, b: nat) -> nat {
    if a <= b {
        a
    } else {
        b
    }
}

impl Duration {
    #[verifier::type_invariant]
    spec fn in_range(self) -> bool {
        self.nanos <= LONGEST
    }

    pub fn from_millis(millis: u64) -> (r: Self)
        ensures
            r@ == millis as nat * NANOS_PER_MILLI as nat,
    {
        Duration { nanos: millis as u128 * NANOS_PER_MILLI }
    }

    pub fn from_secs(secs: u64) -> (r: Self)
        ensures
            r@ == secs as nat * NANOS_PER_SEC as nat,
    {
        Duration { nanos: secs as u128 * NANOS_PER_SEC }
    }

    /// A span of whole seconds and some nanoseconds more.
    pub fn new(secs: u64, nanos: u32) -> (r: Self)
        requires
            nanos < NANOS_PER_SEC,
        ensures
            r@ == secs as nat * NANOS_PER_SEC as nat + nanos as nat,
    {
        Duration { nanos: secs as u128 * NANOS_PER_SEC + nanos as u128 }
    }

    pub fn as_nanos(&self) -> (r: u128)
        ensures
            r == self@,
            r <= LONGEST,
    {
        proof {
            use_type_invariant(self);
        }
        self.nanos
    }

    /// Whole seconds.
    pub fn as_secs(&self) -> (r: u64)
        ensures
            r == self@ / NANOS_PER_SEC as nat,
    {
        proof {
            use_type_invariant(self);
        }
        (self.nanos / NANOS_PER_SEC) as u64
    }

    /// Nanoseconds beyond the whole seconds.
    pub fn subsec_nanos(&self) -> (r: u32)
        ensures
            r == self@ % NANOS_PER_SEC as nat,
            r < NANOS_PER_SEC,
    {
        (self.nanos % NANOS_PER_SEC) as u32
    }

    /// So many times the span, or the longest one.
    pub fn saturating_mul(self, times: u32) -> (r: Self)
        ensures
            r@ == lesser_span(self@ * times as nat, LONGEST as nat),
    {
        proof {
            use_type_invariant(&self);
            assert(self.nanos * times <= LONGEST * 0xFFFF_FFFF) by (nonlinear_arith)
                requires
                    self.nanos <= LONGEST,
                    times <= 0xFFFF_FFFF,
            ;
        }
        let product: u128 = self.nanos * times as u128;
        if product <= LONGEST {
            Duration { nanos: product }
        } else {
            Duration { nanos: LONGEST }
        }
    }

    /// The shorter one.
    pub fn min(self, other: Duration) -> (r: Self)
        ensures
            r@ == lesser_span(self@, other@),
    {
        if self.nanos <= other.nanos {
            self
        } else {
            other
        }
    }

    /// The longer one.
    pub fn max(self, other: Duration) -> (r: Self)
        ensures
            r@ == (if self@ <= other@ { other@ } else { self@ }),
    {
        if self.nanos <= other.nanos {
            other
        } else {
            self
        }
    }

    /// Half the span, rounded down.
    pub fn half(self) -> (r: Self)
        ensures
            r@ == self@ / 2,
    {
        proof {
            use_type_invariant(&self);
        }
        Duration { nanos: self.nanos / 2 }
    }

    /// Whether this span is the longer one.
    pub fn exceeds(&self, other: &Duration) -> (r: bool)
        ensures
            r == (self@ > other@),
    {
        self.nanos > other.nanos
    }
}

/// How a reconnect loop backs off: from `base`, doubling, up to `max`.
///
/// The default, a quarter of a second doubling up to thirty seconds, reaches
/// its cap after seven attempts and settles at two attempts a minute, which is
/// well below each venue's documented limit for a single stream.
#[derive(Clone, Copy, Debug, PartialEq, Eq, Structural)]
pub struct BackoffConfig {
    pub base: Duration,
    pub max: Duration,
}

impl BackoffConfig {
    pub fn build(&self) -> (r: ExponentialBackoff)
        ensures
            r.base() == self.base,
            r.max() == self.max,
            r.attempt() == 0,
    {
        ExponentialBackoff::new(self.base, self.max)
    }
}

impl Default for BackoffConfig {
    fn default() -> (r: Self)
        ensures
            r.base@ == 250 * NANOS_PER_MILLI,
            r.max@ == 30 * NANOS_PER_SEC,
    {
        BackoffConfig { base: Duration::from_millis(250), max: Duration::from_secs(30) }
    }
}

/// The delay before the attempt with this number, counted from 0: the base
/// doubled once per attempt, and never above the cap.
pub open spec fn delay(base: nat, max: nat, attempt: nat) -> nat {
    lesser_span(base * pow2(attempt), max)
}

/// Exponential backoff with a cap. Reset on every successful connect; each
/// reconnect loop owns one.
pub struct ExponentialBackoff {
    attempt: u32,
    base: Duration,
    max: Duration,
}

impl ExponentialBackoff {
    /// Attempts since the last reset.
    pub closed spec fn attempt(&self) -> nat {
        self.attempt as nat
    }

    pub closed spec fn base(&self) -> Duration {
        self.base
    }

    pub closed spec fn max(&self) -> Duration {
        self.max
    }

    pub fn new(base: Duration, max: Duration) -> (r: Self)
        ensures
            r.base() == base,
            r.max() == max,
            r.attempt() == 0,
    {
        ExponentialBackoff { attempt: 0, base, max }
    }

    pub fn reset(&mut self)
        ensures
            final(self).attempt() == 0,
            final(self).base() == old(self).base(),
            final(self).max() == old(self).max(),
    {
        self.attempt = 0;
    }

    /// The delay before the next attempt. The attempts are counted up to the
    /// last number that fits: any base that grows at all is at the cap by then.
    pub fn next_delay(&mut self) -> (r: Duration)
        ensures
            r@ == delay(old(self).base()@, old(self).max()@, old(self).attempt()),
            final(self).attempt() == lesser_span(old(self).attempt() + 1, u32::MAX as nat),
            final(self).base() == old(self).base(),
            final(self).max() == old(self).max(),
    {
        let max: Duration = self.max;
        let mut span: Duration = self.base.min(max);
        let mut i: u32 = 0;
        let ghost base = self.base@;
        proof {
            use_type_invariant(&max);
            lemma2_to64();
            assert(base * pow2(0) == base) by (nonlinear_arith)
                requires
                    pow2(0) == 1,
            ;
        }
        while i < self.attempt && max.exceeds(&span) && span.as_nanos() > 0
            invariant
                i <= self.attempt,
                max@ <= LONGEST,
                span@ == delay(base, max@, i as nat),
            decreases self.attempt - i,
        {
            proof {
                lemma_pow2_unfold((i + 1) as nat);
                let p = pow2(i as nat);
                assert(base * (2 * p) == 2 * (base * p)) by (nonlinear_arith);
            }
            span = span.saturating_mul(2).min(max);
            i += 1;
        }
        proof {
            let attempt = self.attempt as nat;
            if i < attempt {
                lemma_pow2_strictly_increases(i as nat, attempt);
                lemma_pow2_pos(i as nat);
                let (p, q) = (pow2(i as nat), pow2(attempt));
                assert(base * p <= base * q) by (nonlinear_arith)
                    requires
                        p <= q,
                ;
                if span@ == 0 {
                    assert(base * p == 0 || max@ == 0);
                    assert(base * p == 0 ==> base * q == 0) by (nonlinear_arith)
                        requires
                            p > 0,
                    ;
                }
            }
        }
        if self.attempt < u32::MAX {
            self.attempt = self.attempt + 1;
        }
        span
    }
}

impl Default for ExponentialBackoff {
    fn default() -> (r: Self)
        ensures
            r.base()@ == 250 * NANOS_PER_MILLI,
            r.max()@ == 30 * NANOS_PER_SEC,
            r.attempt() == 0,
    {
        BackoffConfig::default().build()
    }
}

/// The delays start at the base, never go above the cap, and never become
/// shorter from one attempt to a later one.
pub proof fn law_delays_grow_to_the_cap(base: nat, max: nat, earlier: nat, later: nat)
    requires
        earlier <= later,
    ensures
        delay(base, max, 0) == lesser_span(base, max),
        delay(base, max, later) <= max,
        delay(base, max, earlier) <= delay(base, max, later),
{
    lemma2_to64();
    assert(base * pow2(0) == base) by (nonlinear_arith)
        requires
            pow2(0) == 1,
    ;
    if earlier < later {
        lemma_pow2_strictly_increases(earlier, later);
    }
    assert(base * pow2(earlier) <= base * pow2(later)) by (nonlinear_arith)
        requires
            pow2(earlier) <= pow2(later),
    ;
}

/// Each delay is twice the one before it, as long as it stays within the cap.
pub proof fn law_delay_doubles(base: nat, max: nat, attempt: nat)
    requires
        delay(base, max, attempt + 1) < max,
    ensures
        delay(base, max, attempt + 1) == 2 * delay(base, max, attempt),
{
    lemma_pow2_unfold(attempt + 1);
    let p = pow2(attempt);
    assert(base * (2 * p) == 2 * (base * p)) by (nonlinear_arith);
}

/// A base that is not nothing reaches any cap, and stays at it: from the 95th
/// attempt on at the latest, since no span is longer than that many doublings
/// of a nanosecond.
pub proof fn law_a_positive_base_reaches_the_cap(base: nat, max: nat, attempt: nat)
    requires
        base > 0,
        max <= LONGEST,
        attempt >= 94,
    ensures
        delay(base, max, attempt) == max,
{
    lemma2_to64();
    lemma_pow2_adds(64, 30);
    if attempt > 94 {
        lemma_pow2_strictly_increases(94, attempt);
    }
    assert(LONGEST <= pow2(64) * pow2(30)) by (nonlinear_arith)
        requires
            pow2(64) == 0x1_0000_0000_0000_0000,
            pow2(30) == 0x4000_0000,
    ;
    assert(pow2(attempt) <= base * pow2(attempt)) by (nonlinear_arith)
        requires
            base >= 1,
    ;
}

} // verus!
