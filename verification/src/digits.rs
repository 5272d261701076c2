//! Positional notation: which digit a number has at which place.

use vstd::arithmetic::div_mod::lemma_div_denominator;
use vstd::arithmetic::power::{lemma_pow0, lemma_pow_positive, pow};
use vstd::prelude::*;

verus! {

/// Dividing by the base moves every digit one place down.
pub proof fn lemma_next_place(n: int, base: int, place: nat)
    requires
        n >= 0,
        base > 1,
    ensures
        n / base / pow(base, place) == n / pow(base, place + 1),
        n / pow(base, 0) == n,
{
    lemma_pow_positive(base, place);
    lemma_pow0(base);
    assert(pow(base, place + 1) == base * pow(base, place)) by {
        reveal(pow);
    }
    lemma_div_denominator(n, base, pow(base, place));
}

/// A number without its last digit has one place less.
pub proof fn lemma_fewer_places(n: int, base: int, places: nat)
    requires
        n >= 0,
        base > 1,
    ensures
        n / base < pow(base, places) <==> n < pow(base, places + 1),
{
    let p = pow(base, places);
    assert(pow(base, places + 1) == base * p) by {
        reveal(pow);
    }
    assert(n / base < p <==> n < base * p) by (nonlinear_arith)
        requires
            base > 1,
            n >= 0,
    ;
}

/// Powers of a base grow.
pub proof fn lemma_more_places(base: int, few: nat, many: nat)
    requires
        base > 1,
        few <= many,
    ensures
        1 <= pow(base, few) <= pow(base, many),
    decreases many - few,
{
    lemma_pow_positive(base, few);
    if few < many {
        lemma_more_places(base, few + 1, many);
        let p = pow(base, few);
        assert(pow(base, few + 1) == base * p) by {
            reveal(pow);
        }
        assert(p <= base * p) by (nonlinear_arith)
            requires
                base > 1,
                p > 0,
        ;
    }
}

/// A number has zeros at the places above its last one.
pub proof fn lemma_zero_place(n: int, base: int, places: nat, place: nat)
    requires
        0 <= n < pow(base, places),
        base > 1,
        places <= place,
    ensures
        n / pow(base, place) == 0,
{
    lemma_more_places(base, places, place);
    let p = pow(base, place);
    assert(n / p == 0) by (nonlinear_arith)
        requires
            0 <= n < p,
    ;
}

} // verus!
