//! A noise-tolerance threshold: a ratio in [0, 1] against which observed
//! fractions of traces are compared.

use vstd::prelude::*;

verus! {

/// A threshold ratio `num / den` with `0 <= num <= den` and `den > 0`,
/// so the ratio always lies in [0, 1].
#[derive(Clone, Copy, Debug)]
pub struct Threshold {
    pub num: u64,
    pub den: u64,
}

impl Threshold {
    /// The threshold is a well-formed ratio in [0, 1].
    pub open spec fn wf(self) -> bool {
        0 < self.den && self.num <= self.den
    }

    /// The ratio `count / total` is at least this threshold.
    /// Stated over the cross products so that no division is needed.
    pub open spec fn spec_le_ratio(self, count: nat, total: nat) -> bool {
        self.num * total <= count * self.den
    }

    /// Builds the threshold `num / den`; rejects ratios outside [0, 1].
    pub fn new(num: u64, den: u64) -> (r: Option<Threshold>)
        ensures
            match r {
                Some(t) => t.wf() && t.num == num && t.den == den,
                None => den == 0 || num > den,
            },
    {
        if den > 0 && num <= den {
            Some(Threshold { num, den })
        } else {
            None
        }
    }

    /// The exact threshold 1: a condition must hold in every qualifying trace.
    pub fn exact() -> (r: Threshold)
        ensures
            r.wf(),
            r.num == 1 && r.den == 1,
    {
        Threshold { num: 1, den: 1 }
    }

    /// Decides whether `count / total` reaches the threshold.
    pub fn le_ratio(&self, count: usize, total: usize) -> (r: bool)
        ensures
            r == self.spec_le_ratio(count as nat, total as nat),
    {
        let a: u128 = self.num as u128;
        let b: u128 = total as u128;
        let c: u128 = count as u128;
        let d: u128 = self.den as u128;
        proof {
            let m: u128 = u64::MAX as u128;
            assert(a * b <= m * m && c * d <= m * m) by (nonlinear_arith)
                requires
                    a <= m,
                    b <= m,
                    c <= m,
                    d <= m,
            ;
        }
        a * b <= c * d
    }

    /// One threshold is at most another, as ratios.
    pub open spec fn spec_le(self, other: Threshold) -> bool {
        self.num * other.den <= other.num * self.den
    }

    /// A ratio that reaches the larger of two thresholds reaches the smaller.
    pub proof fn lemma_le_ratio_monotone(t1: Threshold, t2: Threshold, count: nat, total: nat)
        requires
            t1.wf(),
            t2.wf(),
            t1.spec_le(t2),
            t2.spec_le_ratio(count, total),
        ensures
            t1.spec_le_ratio(count, total),
    {
        assert(t1.num * total * t2.den <= count * t1.den * t2.den) by (nonlinear_arith)
            requires
                t1.num * t2.den <= t2.num * t1.den,
                t2.num * total <= count * t2.den,
                0 < t1.den,
                0 < t2.den,
        ;
        assert(t1.num * total <= count * t1.den) by (nonlinear_arith)
            requires
                t1.num * total * t2.den <= count * t1.den * t2.den,
                0 < t2.den,
        ;
    }
}

} // verus!
