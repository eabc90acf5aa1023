//! Pool sizing arithmetic: how many fixed-capacity draw-call slots a
//! sequence of per-key instance counts demands.

use vstd::prelude::*;

verus! {

use vstd::arithmetic::div_mod::{
    lemma_fundamental_div_mod,
    lemma_fundamental_div_mod_converse_div,
    lemma_mod_division_less_than_divisor,
    lemma_div_nonincreasing,
};

/// How many slots of capacity `cap` hold `count` instances: the ceiling
/// of `count / cap`.
pub open spec fn ceil_div(count: int, cap: int) -> int
    recommends
        0 <= count,
        1 <= cap,
{
    (count + cap - 1) / cap
}

/// The arithmetic facts about `ceil_div` the engine rests on: it is the
/// least slot count whose combined capacity covers `count`, it is zero
/// exactly on zero demand, and it never exceeds `count`.
pub proof fn lemma_ceil_div_props(count: int, cap: int)
    requires
        0 <= count,
        1 <= cap,
    ensures
        ceil_div(count, cap) == count / cap + if count % cap == 0 { 0int } else { 1int },
        count == 0 ==> ceil_div(count, cap) == 0,
        count > 0 ==> 1 <= ceil_div(count, cap) <= count,
        cap * ceil_div(count, cap) >= count,
        cap * (ceil_div(count, cap) - 1) < count,
{
    let q: int = count / cap;
    let r: int = count % cap;
    lemma_fundamental_div_mod(count, cap);
    lemma_mod_division_less_than_divisor(count, cap);
    assert(count == cap * q + r);
    if r == 0 {
        assert(count + cap - 1 == q * cap + (cap - 1)) by (nonlinear_arith)
            requires count == cap * q + r, r == 0;
        lemma_fundamental_div_mod_converse_div(count + cap - 1, cap, q, cap - 1);
        assert(ceil_div(count, cap) == q);
        assert(cap * q >= count);
        assert(cap * (q - 1) == count - cap) by (nonlinear_arith)
            requires count == cap * q;
        if count > 0 {
            lemma_div_nonincreasing(count, cap);
            assert(q >= 1) by (nonlinear_arith)
                requires count == cap * q, count > 0, cap >= 1;
        }
    } else {
        assert(count + cap - 1 == (q + 1) * cap + (r - 1)) by (nonlinear_arith)
            requires count == cap * q + r;
        lemma_fundamental_div_mod_converse_div(count + cap - 1, cap, q + 1, r - 1);
        assert(ceil_div(count, cap) == q + 1);
        assert(cap * (q + 1) == count - r + cap) by (nonlinear_arith)
            requires count == cap * q + r;
        assert(cap * ((q + 1) - 1) == count - r) by (nonlinear_arith)
            requires count == cap * q + r;
        assert(q >= 0) by (nonlinear_arith)
            requires count == cap * q + r, 0 <= r < cap, count >= 0, cap >= 1;
        assert(q + 1 <= count) by (nonlinear_arith)
            requires count == cap * q + r, q >= 0, r >= 1, cap >= 1;
    }
}

/// Computes `ceil(count / cap)` without overflow.
pub fn slots_for_count(count: usize, cap: usize) -> (r: usize)
    requires
        cap >= 1,
    ensures
        r == ceil_div(count as int, cap as int),
        r <= count,
        count > 0 ==> r >= 1,
        count == 0 ==> r == 0,
{
    proof {
        lemma_ceil_div_props(count as int, cap as int);
    }
    if count == 0 {
        0
    } else {
        let q: usize = (count - 1) / cap;
        proof {
            lemma_fundamental_div_mod(count - 1, cap as int);
            lemma_mod_division_less_than_divisor(count - 1, cap as int);
            let r0: int = (count - 1) % (cap as int);
            assert((count + cap - 1) as int == (q + 1) * (cap as int) + r0) by (nonlinear_arith)
                requires
                    count - 1 == (cap as int) * q + r0,
                    q == (count - 1) as int / (cap as int);
            lemma_fundamental_div_mod_converse_div(
                (count + cap - 1) as int,
                cap as int,
                q + 1,
                r0,
            );
            lemma_div_nonincreasing(count - 1, cap as int);
        }
        q + 1
    }
}

} // verus!
