use vstd::prelude::*;

use crate::graph::HintFn;

verus! {

/// A hint that divides its first operand by a fixed divisor, rounding down.
/// With a divisor of zero, or no operands, it produces zero.
#[derive(Clone)]
pub struct DivHint {
    pub divisor: u32,
}

impl HintFn for DivHint {
    open spec fn hint_value(&self, vals: Seq<u32>) -> u32 {
        if vals.len() == 0 || self.divisor == 0 {
            0
        } else {
            vals[0] / self.divisor
        }
    }

    fn apply(&self, vals: &[u32]) -> (r: u32) {
        if vals.len() == 0 || self.divisor == 0 {
            0
        } else {
            vals[0] / self.divisor
        }
    }
}

/// The integer square root: the largest `r` with `r * r <= n`, reached by
/// walking up from zero.
pub open spec fn isqrt(n: nat) -> nat
    decreases n,
{
    if n == 0 {
        0
    } else {
        let p = isqrt((n - 1) as nat);
        if (p + 1) * (p + 1) <= n {
            p + 1
        } else {
            p
        }
    }
}

/// `isqrt(n)` squares to at most `n`, and the next integer squares past it.
pub proof fn lemma_isqrt_bracket(n: nat)
    ensures
        isqrt(n) * isqrt(n) <= n,
        n < (isqrt(n) + 1) * (isqrt(n) + 1),
    decreases n,
{
    if n == 0 {
        assert(isqrt(n) == 0);
        assert(n < (isqrt(n) + 1) * (isqrt(n) + 1)) by (nonlinear_arith)
            requires
                isqrt(n) == 0,
                n == 0,
        ;
    } else {
        lemma_isqrt_bracket((n - 1) as nat);
        let p = isqrt((n - 1) as nat);
        if (p + 1) * (p + 1) <= n {
            assert(isqrt(n) == p + 1);
            assert((p + 1) * (p + 1) < (p + 2) * (p + 2)) by (nonlinear_arith);
            assert(n - 1 < (p + 1) * (p + 1));
            assert(n < (p + 2) * (p + 2));
            assert(n < (isqrt(n) + 1) * (isqrt(n) + 1)) by (nonlinear_arith)
                requires
                    isqrt(n) == p + 1,
                    n < (p + 2) * (p + 2),
            ;
        } else {
            assert(isqrt(n) == p);
            assert(n < (isqrt(n) + 1) * (isqrt(n) + 1)) by (nonlinear_arith)
                requires
                    isqrt(n) == p,
                    !((p + 1) * (p + 1) <= n),
            ;
        }
    }
}

/// Any `r` bracketed by the squares around `n` is its integer square root.
pub proof fn lemma_isqrt_unique(n: nat, r: nat)
    requires
        r * r <= n,
        n < (r + 1) * (r + 1),
    ensures
        r == isqrt(n),
{
    lemma_isqrt_bracket(n);
    let s = isqrt(n);
    if r < s {
        assert((r + 1) * (r + 1) <= s * s) by (nonlinear_arith)
            requires
                r + 1 <= s,
        ;
        assert(false);
    }
    if s < r {
        assert((s + 1) * (s + 1) <= r * r) by (nonlinear_arith)
            requires
                s + 1 <= r,
        ;
        assert(false);
    }
}

/// A hint that takes the integer square root of its first operand, rounding
/// down. With no operands it produces zero.
#[derive(Clone)]
pub struct SqrtHint;

impl HintFn for SqrtHint {
    open spec fn hint_value(&self, vals: Seq<u32>) -> u32 {
        if vals.len() == 0 {
            0
        } else {
            isqrt(vals[0] as nat) as u32
        }
    }

    fn apply(&self, vals: &[u32]) -> (r: u32) {
        if vals.len() == 0 {
            0
        } else {
            let v = vals[0];
            let mut r: u32 = 0;
            let mut sq: u64 = 0;
            while sq + 2 * (r as u64) + 1 <= v as u64
                invariant
                    r < 0x10000,
                    sq == r as nat * r as nat,
                    r as nat * r as nat <= v as nat,
                decreases 0x10000 - r,
            {
                proof {
                    assert((r + 1) * (r + 1) == r * r + 2 * r + 1) by (nonlinear_arith);
                    assert(r + 1 < 0x10000) by (nonlinear_arith)
                        requires
                            (r + 1) * (r + 1) <= v,
                            v < 0x1_0000_0000,
                    ;
                }
                sq = sq + 2 * (r as u64) + 1;
                r = r + 1;
            }
            proof {
                assert((r + 1) * (r + 1) == r * r + 2 * r + 1) by (nonlinear_arith);
                lemma_isqrt_unique(v as nat, r as nat);
            }
            r
        }
    }
}

} // verus!
