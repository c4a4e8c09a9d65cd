//! Multiplication by small signed integers, by doubling and adding.
use vstd::prelude::*;

use crate::algebra::residue::{
    cong, lemma_cong_add, lemma_cong_mul, lemma_cong_neg, lemma_reduce, lemma_reduced, order,
};
use crate::curve::{Element, GtElement, G1, G2};

verus! {

/// The size of a coefficient.
fn magnitude_of(coefficient: i64) -> (magnitude: u64)
    ensures
        magnitude == (if coefficient < 0 {
            -coefficient
        } else {
            coefficient as int
        }),
{
    if coefficient >= 0 {
        coefficient as u64
    } else if coefficient == i64::MIN {
        0x8000_0000_0000_0000
    } else {
        (-coefficient) as u64
    }
}

/// What is left to add up: the result so far and the rest of the doublings.
proof fn lemma_double_step(result: int, base: int, rest: int, doubled: int, next: int, value: int)
    requires
        cong(result + base * rest, value),
        rest >= 0,
        cong(doubled, 2 * base),
        cong(
            next,
            if rest % 2 == 1 {
                result + base
            } else {
                result
            },
        ),
    ensures
        cong(next + doubled * (rest / 2), value),
{
    let half = rest / 2;
    let kept = if rest % 2 == 1 {
        result + base
    } else {
        result
    };
    lemma_cong_mul(doubled, 2 * base, half, half);
    lemma_cong_add(next, kept, doubled * half, (2 * base) * half);
    assert((2 * base) * half == base * (2 * half)) by (nonlinear_arith);
    if rest % 2 == 1 {
        assert(base * rest == base * (2 * half) + base) by (nonlinear_arith)
            requires
                rest == 2 * half + 1,
        ;
    }
}

/// A small signed multiple of an element.
pub fn mul_group_signed_small<E: Element>(value: E, coefficient: i64) -> (result: E)
    ensures
        result@ == (value@ * coefficient) % order(),
{
    let mut rest: u64 = magnitude_of(coefficient);
    let ghost size = rest as int;
    let ghost total = value@ * size;
    let mut base = value;
    let mut result = E::zero();
    while rest != 0
        invariant
            cong(result@ + base@ * rest, total),
        decreases rest,
    {
        let ghost (r, b, n) = (result@, base@, rest as int);
        proof {
            lemma_reduce(r + b);
            lemma_reduce(b + b);
        }
        if rest % 2 == 1 {
            result = result.plus(base);
        }
        base = base.plus(base);
        proof {
            lemma_double_step(r, b, n, base@, result@, total);
        }
        rest = rest / 2;
    }
    proof {
        assert(base@ * 0 == 0);
        result.lemma_range();
        lemma_reduced(result@);
    }
    if coefficient < 0 {
        proof {
            lemma_cong_neg(result@, total);
            assert(-(value@ * size) == value@ * coefficient) by (nonlinear_arith)
                requires
                    size == -coefficient,
            ;
        }
        E::zero().minus(result)
    } else {
        result
    }
}

/// A small signed multiple of a target-group element.
pub fn mul_gt_signed_small(value: GtElement, coefficient: i64) -> (result: GtElement)
    ensures
        result@ == (value@ * coefficient) % order(),
{
    let mut rest: u64 = magnitude_of(coefficient);
    let ghost size = rest as int;
    let ghost total = value@ * size;
    let mut base = value;
    let mut result = GtElement::zero();
    while rest != 0
        invariant
            cong(result@ + base@ * rest, total),
        decreases rest,
    {
        let ghost (r, b, n) = (result@, base@, rest as int);
        proof {
            lemma_reduce(r + b);
            lemma_reduce(2 * b);
        }
        if rest % 2 == 1 {
            result = result.plus(base);
        }
        base = base.double();
        proof {
            lemma_double_step(r, b, n, base@, result@, total);
        }
        rest = rest / 2;
    }
    proof {
        assert(base@ * 0 == 0);
        result.lemma_range();
        lemma_reduced(result@);
    }
    if coefficient < 0 {
        proof {
            lemma_cong_neg(result@, total);
            assert(-(value@ * size) == value@ * coefficient) by (nonlinear_arith)
                requires
                    size == -coefficient,
            ;
        }
        result.negate()
    } else {
        result
    }
}

/// Elements with a way to take small signed multiples.
pub trait SmallMultiple: Element {
    /// A small signed multiple.
    fn times_small(self, coefficient: i64) -> (result: Self)
        ensures
            result@ == (self@ * coefficient) % order(),
    ;
}

impl SmallMultiple for G1 {
    fn times_small(self, coefficient: i64) -> (result: Self) {
        mul_group_signed_small(self, coefficient)
    }
}

impl SmallMultiple for G2 {
    fn times_small(self, coefficient: i64) -> (result: Self) {
        mul_group_signed_small(self, coefficient)
    }
}

impl SmallMultiple for GtElement {
    fn times_small(self, coefficient: i64) -> (result: Self) {
        mul_gt_signed_small(self, coefficient)
    }
}

} // verus!
