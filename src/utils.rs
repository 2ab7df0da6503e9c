//! The retry envelope around remote calls: capped exponential backoff with a
//! bounded number of retries. The caller runs the operation and sleeps; the
//! decisions are made here.
use vstd::prelude::*;

verus! {

/// `b` to the power `e`.
pub open spec fn power(b: nat, e: nat) -> nat
    decreases e,
{
    if e == 0 {
        1
    } else {
        b * power(b, (e - 1) as nat)
    }
}

pub open spec fn min_nat(a: nat, b: nat) -> nat {
    if a <= b {
        a
    } else {
        b
    }
}

/// Limits of the retry envelope: at most `retry_max` retries, the `n`-th
/// after a wait of `min(wait_max, wait_base^n)` seconds.
#[derive(Debug, Clone, Copy, PartialEq, Eq, Structural)]
pub struct RetryPolicy {
    pub retry_max: u32,
    pub wait_base: u32,
    pub wait_max: u32,
}

/// What to do after a failed attempt.
#[derive(Debug, Clone, Copy, PartialEq, Eq, Structural)]
pub enum RetryStep {
    /// Sleep this many seconds, then call the operation again.
    Wait(u32),
    /// Return the error of the last attempt.
    GiveUp,
}

/// The wait before retry number `n`.
pub open spec fn wait_spec(p: RetryPolicy, n: nat) -> nat {
    min_nat(p.wait_max as nat, power(p.wait_base as nat, n))
}

/// `min(cap, base^exp)`, computed without overflow.
pub fn capped_pow(base: u32, exp: u32, cap: u32) -> (r: u32)
    ensures
        r == min_nat(cap as nat, power(base as nat, exp as nat)),
{
    let limit: u64 = cap as u64 + 1;
    let mut acc: u64 = 1;
    let mut i: u32 = 0;
    while i < exp
        invariant
            i <= exp,
            limit == cap + 1,
            acc == min_nat(power(base as nat, i as nat), limit as nat),
        decreases exp - i,
    {
        let ghost p = power(base as nat, i as nat);
        assert(acc * base <= limit * base) by (nonlinear_arith)
            requires
                acc <= limit,
        ;
        assert(limit * base <= 0x1_0000_0000u64 * 0xffff_ffffu64) by (nonlinear_arith)
            requires
                limit <= 0x1_0000_0000u64,
                base <= 0xffff_ffffu64,
        ;
        let prod = acc * base as u64;
        let ghost a0 = acc;
        acc = if prod < limit { prod } else { limit };
        proof {
            assert(power(base as nat, (i + 1) as nat) == base * p);
            if p <= limit {
                assert(prod == base * p) by (nonlinear_arith)
                    requires
                        prod == a0 * base,
                        a0 == p,
                ;
            } else if base >= 1 {
                assert(base * p >= p) by (nonlinear_arith)
                    requires
                        base >= 1,
                ;
                assert(prod >= limit) by (nonlinear_arith)
                    requires
                        prod == limit * base,
                        base >= 1,
                ;
            } else {
                assert(base * p == 0);
            }
        }
        i = i + 1;
    }
    if acc < cap as u64 {
        acc as u32
    } else {
        cap
    }
}

impl RetryPolicy {
    /// The envelope every remote call is wrapped in: ten retries, waiting
    /// one second each at first and five at most.
    pub fn standard() -> (r: RetryPolicy)
        ensures
            r == (RetryPolicy { retry_max: 10, wait_base: 1, wait_max: 5 }),
    {
        RetryPolicy { retry_max: 10, wait_base: 1, wait_max: 5 }
    }

    /// The decision after a failed attempt when `retry` retries have
    /// already been made: give up once `retry_max` retries are spent, else
    /// wait before retry number `retry + 1`.
    pub fn after_failure(&self, retry: u32) -> (r: RetryStep)
        ensures
            retry >= self.retry_max ==> r == RetryStep::GiveUp,
            retry < self.retry_max ==> r == RetryStep::Wait(wait_spec(*self, (retry + 1) as nat) as u32),
    {
        if retry >= self.retry_max {
            RetryStep::GiveUp
        } else {
            RetryStep::Wait(capped_pow(self.wait_base, retry + 1, self.wait_max))
        }
    }
}

/// Outcome of the envelope when the attempts succeed or fail as `results`
/// says, in order, with `retry` retries already made: whether it returns a
/// success, and how many attempts it makes; `None` if `results` runs out.
pub open spec fn envelope(p: RetryPolicy, results: Seq<bool>, retry: nat) -> Option<(bool, nat)>
    decreases results.len(),
{
    if results.len() == 0 {
        None
    } else if results[0] {
        Some((true, 1))
    } else if retry >= p.retry_max {
        Some((false, 1))
    } else {
        match envelope(p, results.drop_first(), retry + 1) {
            Some((ok, calls)) => Some((ok, calls + 1)),
            None => None,
        }
    }
}

/// An operation that fails `k` times and then succeeds, with `k` at most
/// `retry_max`, ends in success after `k + 1` attempts; one that always
/// fails ends in its last error after exactly `retry_max` retries.
pub proof fn lemma_envelope(p: RetryPolicy, k: nat, n: nat)
    requires
        n > p.retry_max,
    ensures
        k <= p.retry_max ==> envelope(p, Seq::new(k, |i: int| false).push(true), 0) == Some(
            (true, k + 1),
        ),
        envelope(p, Seq::new(n, |i: int| false), 0) == Some((false, (p.retry_max + 1) as nat)),
{
    if k <= p.retry_max {
        lemma_envelope_from(p, k, 0, true);
    }
    lemma_envelope_from(p, p.retry_max as nat, 0, false);
    assert(Seq::new(n, |i: int| false) =~= Seq::new(p.retry_max as nat, |i: int| false).push(false)
        + Seq::new((n - p.retry_max - 1) as nat, |i: int| false));
    lemma_envelope_prefix(p, Seq::new(p.retry_max as nat, |i: int| false).push(false), Seq::new((n - p.retry_max - 1) as nat, |i: int| false), 0);
}

proof fn lemma_envelope_from(p: RetryPolicy, k: nat, retry: nat, last: bool)
    requires
        retry + k <= p.retry_max,
        last || retry + k == p.retry_max,
    ensures
        envelope(p, Seq::new(k, |i: int| false).push(last), retry) == Some((last, k + 1)),
    decreases k,
{
    let s = Seq::new(k, |i: int| false).push(last);
    if k > 0 {
        assert(s.drop_first() =~= Seq::new((k - 1) as nat, |i: int| false).push(last));
        lemma_envelope_from(p, (k - 1) as nat, retry + 1, last);
    }
}

proof fn lemma_envelope_prefix(p: RetryPolicy, a: Seq<bool>, b: Seq<bool>, retry: nat)
    requires
        envelope(p, a, retry) is Some,
    ensures
        envelope(p, a + b, retry) == envelope(p, a, retry),
    decreases a.len(),
{
    if a.len() > 0 && !a[0] && retry < p.retry_max {
        assert((a + b).drop_first() =~= a.drop_first() + b);
        lemma_envelope_prefix(p, a.drop_first(), b, retry + 1);
    }
}

} // verus!
