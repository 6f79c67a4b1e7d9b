//! Shared simulated-annealing machinery: an integer-scaled temperature
//! schedule (multiplicative or additive cooling) and the Metropolis
//! acceptance draw, whose probability `exp(-delta/temp)` is approximated
//! in fixed point by `(1 - delta/(64*temp))^64`.

use vstd::prelude::*;

use crate::rng::rand_below;

verus! {

/// Fixed-point scale for acceptance probabilities.
pub const PROB_SCALE: u64 = 0x40000000;

/// Largest starting temperature the schedule accepts.
pub const MAX_TEMP: u64 = 0x7fffffff;

/// The cooling schedule: either multiplicative (`temp` becomes
/// `temp * alpha_num / alpha_den`) or additive (`temp` loses `alpha_num`,
/// stopping at zero).
#[derive(Clone, Copy, Debug)]
pub struct Cooling {
    pub exponential: bool,
    pub alpha_num: u64,
    pub alpha_den: u64,
}

impl Cooling {
    /// A schedule that actually cools: the multiplicative factor is a
    /// proper fraction, the additive step is at least one.
    pub open spec fn wf(&self) -> bool {
        if self.exponential {
            0 < self.alpha_num < self.alpha_den <= 0xffffffff
        } else {
            self.alpha_num >= 1
        }
    }

    /// The temperature after one cooling step.
    pub open spec fn spec_next(&self, temp: int) -> int {
        if self.exponential {
            temp * (self.alpha_num as int) / (self.alpha_den as int)
        } else {
            if temp >= self.alpha_num {
                temp - self.alpha_num
            } else {
                0
            }
        }
    }

    /// Cooling strictly lowers any positive temperature and never goes
    /// negative.
    pub proof fn lemma_cools(&self, temp: int)
        requires
            self.wf(),
            temp >= 1,
        ensures
            0 <= self.spec_next(temp) < temp,
    {
        if self.exponential {
            let num = self.alpha_num as int;
            let den = self.alpha_den as int;
            assert(temp * num < den * temp) by (nonlinear_arith)
                requires
                    0 < num < den,
                    temp >= 1,
            ;
            vstd::arithmetic::div_mod::lemma_multiply_divide_lt(temp * num, den, temp);
            assert(0 <= temp * num) by (nonlinear_arith)
                requires
                    0 <= num,
                    0 <= temp,
            ;
            vstd::arithmetic::div_mod::lemma_div_pos_is_pos(temp * num, den);
        }
    }

    /// One cooling step.
    pub fn next(&self, temp: u64) -> (r: u64)
        requires
            self.wf(),
            temp <= MAX_TEMP,
        ensures
            r as int == self.spec_next(temp as int),
            r <= temp,
    {
        if self.exponential {
            proof {
                assert((temp as int) * (self.alpha_num as int) <= MAX_TEMP * 0xffffffff)
                    by (nonlinear_arith)
                    requires
                        0 <= (temp as int) <= MAX_TEMP,
                        0 <= (self.alpha_num as int) <= 0xffffffff,
                ;
                if temp >= 1 {
                    self.lemma_cools(temp as int);
                } else {
                    assert((temp as int) * (self.alpha_num as int) == 0) by (nonlinear_arith)
                        requires
                            temp as int == 0,
                    ;
                }
            }
            let prod = (temp as u128) * (self.alpha_num as u128);
            let r = (prod / (self.alpha_den as u128)) as u64;
            r
        } else {
            if temp >= self.alpha_num {
                temp - self.alpha_num
            } else {
                0
            }
        }
    }
}

/// `k` fixed-point squarings of the scaled probability `p`.
pub open spec fn spec_metropolis_sq(p: int, k: int) -> int
    decreases k,
{
    if k <= 0 {
        p
    } else {
        let q = spec_metropolis_sq(p, k - 1);
        q * q / (PROB_SCALE as int)
    }
}

/// Squaring keeps a scaled probability inside `[0, PROB_SCALE]`.
pub proof fn lemma_metropolis_sq_bounds(p: int, k: int)
    requires
        0 <= p <= PROB_SCALE,
        0 <= k,
    ensures
        0 <= spec_metropolis_sq(p, k) <= PROB_SCALE,
    decreases k,
{
    if k > 0 {
        lemma_metropolis_sq_bounds(p, k - 1);
        let q = spec_metropolis_sq(p, k - 1);
        let s = PROB_SCALE as int;
        assert(0 <= q * q <= s * s) by (nonlinear_arith)
            requires
                0 <= q <= s,
        ;
        vstd::arithmetic::div_mod::lemma_div_pos_is_pos(q * q, s);
        vstd::arithmetic::div_mod::lemma_div_is_ordered(q * q, s * s, s);
        vstd::arithmetic::div_mod::lemma_div_by_multiple(s, s);
    }
}

/// The scaled acceptance probability for a worsening move of size
/// `delta` at temperature `temp`: zero at temperature zero or when the
/// move is at least 64 temperatures large, else the 64th power of
/// `1 - delta/(64*temp)` in fixed point.
pub open spec fn spec_metropolis_threshold(delta: int, temp: int) -> int {
    if temp <= 0 {
        0
    } else {
        let x = delta * (PROB_SCALE as int) / (64 * temp);
        if x >= PROB_SCALE {
            0
        } else {
            spec_metropolis_sq(PROB_SCALE - x, 6)
        }
    }
}

/// Computes the scaled acceptance probability.
pub fn metropolis_threshold(delta: i64, temp: u64) -> (r: u64)
    requires
        delta >= 0,
        temp <= MAX_TEMP,
    ensures
        r as int == spec_metropolis_threshold(delta as int, temp as int),
        r <= PROB_SCALE,
{
    if temp == 0 {
        return 0;
    }
    proof {
        assert(0 <= (delta as int) * (PROB_SCALE as int) <= 0x8000000000000000 * 0x40000000)
            by (nonlinear_arith)
            requires
                0 <= (delta as int) <= 0x8000000000000000,
        ;
    }
    let x128 = (delta as u128) * (PROB_SCALE as u128) / (64 * (temp as u128));
    proof {
        vstd::arithmetic::div_mod::lemma_div_pos_is_pos(
            (delta as int) * (PROB_SCALE as int),
            64 * (temp as int),
        );
    }
    if x128 >= (PROB_SCALE as u128) {
        return 0;
    }
    let x = x128 as u64;
    let p0 = PROB_SCALE - x;
    let mut q = p0;
    let mut k: usize = 0;
    while k < 6
        invariant
            k <= 6,
            p0 <= PROB_SCALE,
            q as int == spec_metropolis_sq(p0 as int, k as int),
            q <= PROB_SCALE,
        decreases 6 - k,
    {
        proof {
            lemma_metropolis_sq_bounds(p0 as int, k as int);
            lemma_metropolis_sq_bounds(p0 as int, k + 1);
            let qi = q as int;
            let s = PROB_SCALE as int;
            assert(0 <= qi * qi <= s * s) by (nonlinear_arith)
                requires
                    0 <= qi <= s,
            ;
        }
        q = (((q as u128) * (q as u128)) / (PROB_SCALE as u128)) as u64;
        k = k + 1;
    }
    q
}

/// One Metropolis draw: accepts a worsening move of size `delta` at
/// temperature `temp` with probability about `exp(-delta/temp)`; a move
/// is accepted only when the computed threshold is positive, so at
/// temperature zero nothing is accepted.
pub fn metropolis_accept(delta: i64, temp: u64) -> (r: bool)
    requires
        delta >= 0,
        temp <= MAX_TEMP,
    ensures
        r ==> spec_metropolis_threshold(delta as int, temp as int) > 0,
        temp == 0 ==> !r,
{
    let th = metropolis_threshold(delta, temp);
    if th == 0 {
        false
    } else {
        rand_below(PROB_SCALE) < th
    }
}

} // verus!
