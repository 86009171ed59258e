use vstd::prelude::*;
use crate::PROB_SCALE;

verus! {

/// `k` successive fixed-point squarings of `e`, in the scale of `PROB_SCALE`.
pub open spec fn sq_iter(e: int, k: nat) -> int
    decreases k,
{
    if k == 0 {
        e
    } else {
        sq_iter((e * e) / (PROB_SCALE as int), (k - 1) as nat)
    }
}

/// Base of the fixed-point exponential: a quadratic approximation of
/// e^(-(m / 65536) / PROB_SCALE), scaled by PROB_SCALE.
pub open spec fn exp_base(m: int) -> int {
    let z = m / 65536;
    PROB_SCALE - z + (z * z) / (2 * (PROB_SCALE as int))
}

/// e^(-m / PROB_SCALE) scaled by PROB_SCALE, as the implementation computes
/// it: the base approximation squared 16 times, zero once the argument is so
/// large that the result would round to zero anyway.
pub open spec fn exp_neg_spec(m: int) -> int {
    if m > 20000000 {
        0
    } else {
        sq_iter(exp_base(m), 16)
    }
}

/// E / (1 + E) in fixed point, for E given scaled by PROB_SCALE.
pub open spec fn half_sig(e: int) -> int {
    (e * (PROB_SCALE as int)) / ((PROB_SCALE as int) + e)
}

/// The fixed-point logistic function sigma(x) = 1 / (1 + e^(-x)), scaled by
/// PROB_SCALE on both axes: exactly what `sigmoid_q` returns.
pub open spec fn sigmoid_spec(x: int) -> int {
    if x >= 0 {
        PROB_SCALE - half_sig(exp_neg_spec(x))
    } else {
        half_sig(exp_neg_spec(-x))
    }
}

/// Squaring a value at the scale keeps it at the scale.
proof fn lemma_sq_iter_scale(k: nat)
    ensures
        sq_iter(PROB_SCALE as int, k) == PROB_SCALE as int,
    decreases k,
{
    if k > 0 {
        assert((PROB_SCALE as int) * (PROB_SCALE as int) / (PROB_SCALE as int)
            == PROB_SCALE as int);
        lemma_sq_iter_scale((k - 1) as nat);
    }
}

/// Fixed-point e^(-m / PROB_SCALE), scaled by PROB_SCALE.
fn exp_neg_q(m: u64) -> (r: u32)
    ensures
        r as int == exp_neg_spec(m as int),
        r <= PROB_SCALE,
        m == 0 ==> r == PROB_SCALE,
{
    if m > 20000000 {
        return 0;
    }
    let z: u64 = m / 65536;
    assert(z <= 305);
    assert(z * z <= 93025) by (nonlinear_arith)
        requires
            z <= 305,
    ;
    let zz: u64 = (z * z) / (2 * (PROB_SCALE as u64));
    assert(z * z < 2000000);
    assert(zz == 0) by {
        vstd::arithmetic::div_mod::lemma_basic_div((z * z) as int, 2000000);
    };
    let mut e: u64 = (PROB_SCALE as u64) - z + zz;
    assert(e as int == exp_base(m as int));
    let mut j: u64 = 0;
    while j < 16
        invariant
            j <= 16,
            e <= PROB_SCALE,
            sq_iter(e as int, (16 - j) as nat) == sq_iter(exp_base(m as int), 16),
        decreases 16 - j,
    {
        assert(e * e <= 1000000000000) by (nonlinear_arith)
            requires
                e <= 1000000,
        ;
        let e2: u64 = (e * e) / (PROB_SCALE as u64);
        assert(e2 <= PROB_SCALE) by (nonlinear_arith)
            requires
                e <= 1000000,
                e2 == (e * e) / 1000000,
        ;
        proof {
            assert(sq_iter(e as int, (16 - j) as nat) == sq_iter(e2 as int, (16 - (j + 1)) as nat));
        }
        e = e2;
        j = j + 1;
    }
    proof {
        if m == 0 {
            assert(exp_base(0) == PROB_SCALE as int);
            lemma_sq_iter_scale(16);
        }
    }
    e as u32
}

/// The fixed-point logistic applied to a logit `x` scaled by PROB_SCALE.
/// The result is a probability in 0 ..= PROB_SCALE; it sits on the positive
/// half exactly when the logit does.
pub fn sigmoid_q(x: i64) -> (r: u32)
    ensures
        r as int == sigmoid_spec(x as int),
        r <= PROB_SCALE,
        x >= 0 ==> r >= PROB_SCALE / 2,
        x <= 0 ==> r <= PROB_SCALE / 2,
        x == 0 ==> r == PROB_SCALE / 2,
{
    if x > 20000000 {
        assert(half_sig(0) == 0);
        return PROB_SCALE;
    }
    if x < -20000000 {
        assert(half_sig(0) == 0);
        return 0;
    }
    if x >= 0 {
        let e = exp_neg_q(x as u64);
        let num: u64 = (e as u64) * (PROB_SCALE as u64);
        let den: u64 = (PROB_SCALE as u64) + (e as u64);
        let h: u64 = num / den;
        assert(h <= 500000) by (nonlinear_arith)
            requires
                e <= 1000000,
                h == ((e as u64) * 1000000) / (1000000 + (e as u64)),
        ;
        proof {
            if x == 0 {
                assert(e == PROB_SCALE);
                assert(h == 500000);
            }
        }
        PROB_SCALE - (h as u32)
    } else {
        let m: u64 = (-x) as u64;
        let e = exp_neg_q(m);
        let num: u64 = (e as u64) * (PROB_SCALE as u64);
        let den: u64 = (PROB_SCALE as u64) + (e as u64);
        let h: u64 = num / den;
        assert(h <= 500000) by (nonlinear_arith)
            requires
                e <= 1000000,
                h == ((e as u64) * 1000000) / (1000000 + (e as u64)),
        ;
        h as u32
    }
}

} // verus!
