//! Residues modulo the prime order of the BLS12-381 groups.
use vstd::arithmetic::div_mod::{
    lemma_add_mod_noop, lemma_mod_bound, lemma_mod_multiples_vanish, lemma_mod_twice,
    lemma_mul_mod_noop, lemma_small_mod, lemma_sub_mod_noop,
};
use vstd::arithmetic::power::pow;
use vstd::prelude::*;

verus! {

/// The order of the scalar field and of the three groups.
#[verifier::opaque]
pub open spec fn order() -> int {
    0x73eda753299d7d483339d80809a1d805int * 0x10000000000000000 * 0x10000000000000000
        + 0x53bda402fffe5bfeffffffff00000001
}

/// Whether two integers are the same residue modulo `order()`.
pub open spec fn cong(a: int, b: int) -> bool {
    a % order() == b % order()
}

/// Whether a residue has a multiplicative inverse.
pub open spec fn is_unit(a: int) -> bool {
    exists|b: int| #[trigger] cong(a * b, 1)
}

/// The inverse of a unit, as the representative in `0..order()`.
pub open spec fn inv(a: int) -> int {
    (choose|b: int| #[trigger] cong(a * b, 1)) % order()
}

pub proof fn lemma_order()
    ensures
        order() > 0x1_0000_0000_0000_0000,
        order() % 2 == 1,
{
    reveal(order);
}

/// A residue lies in `0..order()`, and is congruent to what it was reduced from.
pub proof fn lemma_reduce(a: int)
    ensures
        0 <= a % order() < order(),
        cong(a % order(), a),
{
    lemma_order();
    lemma_mod_bound(a, order());
    lemma_mod_twice(a, order());
}

/// Integers in `0..order()` are their own residues.
pub proof fn lemma_reduced(a: int)
    requires
        0 <= a < order(),
    ensures
        a % order() == a,
{
    lemma_small_mod(a as nat, order() as nat);
}

pub proof fn lemma_cong_add(a: int, b: int, c: int, d: int)
    requires
        cong(a, b),
        cong(c, d),
    ensures
        cong(a + c, b + d),
{
    lemma_order();
    lemma_add_mod_noop(a, c, order());
    lemma_add_mod_noop(b, d, order());
}

pub proof fn lemma_cong_sub(a: int, b: int, c: int, d: int)
    requires
        cong(a, b),
        cong(c, d),
    ensures
        cong(a - c, b - d),
{
    lemma_order();
    lemma_sub_mod_noop(a, c, order());
    lemma_sub_mod_noop(b, d, order());
}

pub proof fn lemma_cong_mul(a: int, b: int, c: int, d: int)
    requires
        cong(a, b),
        cong(c, d),
    ensures
        cong(a * c, b * d),
{
    lemma_order();
    lemma_mul_mod_noop(a, c, order());
    lemma_mul_mod_noop(b, d, order());
}

pub proof fn lemma_cong_neg(a: int, b: int)
    requires
        cong(a, b),
    ensures
        cong(-a, -b),
{
    lemma_cong_sub(0, 0, a, b);
}

pub proof fn lemma_cong_pow(a: int, b: int, e: nat)
    requires
        cong(a, b),
    ensures
        cong(pow(a, e), pow(b, e)),
    decreases e,
{
    reveal(pow);
    if e > 0 {
        lemma_cong_pow(a, b, (e - 1) as nat);
        lemma_cong_mul(a, b, pow(a, (e - 1) as nat), pow(b, (e - 1) as nat));
    }
}

/// Adding a multiple of the order keeps the residue.
pub proof fn lemma_cong_multiple(a: int, k: int)
    ensures
        cong(a + k * order(), a),
        cong(k * order(), 0),
{
    lemma_order();
    lemma_mod_multiples_vanish(k, a, order());
    lemma_mod_multiples_vanish(k, 0, order());
    assert(order() * k == k * order()) by (nonlinear_arith);
}

/// Congruence through a difference.
pub proof fn lemma_cong_diff(a: int, b: int)
    ensures
        cong(a, b) <==> cong(a - b, 0),
{
    if cong(a, b) {
        lemma_cong_sub(a, b, b, b);
    }
    if cong(a - b, 0) {
        lemma_cong_add(a - b, 0, b, b);
    }
}

pub proof fn lemma_one()
    ensures
        1int % order() == 1,
        0int % order() == 0,
        !cong(1, 0),
{
    lemma_order();
    lemma_reduced(1);
    lemma_reduced(0);
}

pub proof fn lemma_inv(a: int)
    requires
        is_unit(a),
    ensures
        cong(a * inv(a), 1),
        cong(inv(a) * a, 1),
        0 <= inv(a) < order(),
{
    let b = choose|b: int| #[trigger] cong(a * b, 1);
    lemma_reduce(b);
    lemma_cong_mul(a, a, b % order(), b);
    assert(a * inv(a) == inv(a) * a) by (nonlinear_arith);
}

/// A witness fixes the inverse.
pub proof fn lemma_inv_unique(a: int, b: int)
    requires
        cong(a * b, 1),
    ensures
        is_unit(a),
        cong(inv(a), b),
        inv(a) == b % order(),
        !cong(a, 0),
{
    lemma_inv(a);
    let i = inv(a);
    // i == i * (a * b) == (i * a) * b == b
    lemma_cong_mul(i, i, a * b, 1);
    lemma_cong_mul(i * a, 1, b, b);
    assert(i * (a * b) == (i * a) * b) by (nonlinear_arith);
    assert(i * 1 == i && 1 * b == b);
    lemma_reduced(i);
    if cong(a, 0) {
        lemma_cong_mul(a, 0, b, b);
        assert(0 * b == 0);
        lemma_one();
    }
}

/// A unit can be cancelled.
pub proof fn lemma_cancel(u: int, a: int, b: int)
    requires
        is_unit(u),
        cong(u * a, u * b),
    ensures
        cong(a, b),
{
    lemma_inv(u);
    let i = inv(u);
    lemma_cong_mul(i, i, u * a, u * b);
    assert(i * (u * a) == (i * u) * a) by (nonlinear_arith);
    assert(i * (u * b) == (i * u) * b) by (nonlinear_arith);
    lemma_cong_mul(i * u, 1, a, a);
    lemma_cong_mul(i * u, 1, b, b);
    assert(1 * a == a && 1 * b == b);
}

pub proof fn lemma_unit_mul(a: int, b: int)
    requires
        is_unit(a),
        is_unit(b),
    ensures
        is_unit(a * b),
        cong(inv(a * b), inv(a) * inv(b)),
{
    lemma_inv(a);
    lemma_inv(b);
    lemma_cong_mul(a * inv(a), 1, b * inv(b), 1);
    assert((a * inv(a)) * (b * inv(b)) == (a * b) * (inv(a) * inv(b))) by (nonlinear_arith);
    lemma_inv_unique(a * b, inv(a) * inv(b));
}

/// A factor of a unit is a unit.
pub proof fn lemma_unit_factor(a: int, b: int)
    requires
        is_unit(a * b),
    ensures
        is_unit(a),
        is_unit(b),
{
    lemma_inv(a * b);
    let i = inv(a * b);
    assert((a * b) * i == a * (b * i)) by (nonlinear_arith);
    assert((a * b) * i == b * (a * i)) by (nonlinear_arith);
    assert(cong(a * (b * i), 1));
    assert(cong(b * (a * i), 1));
}

pub proof fn lemma_unit_cong(a: int, b: int)
    requires
        is_unit(a),
        cong(a, b),
    ensures
        is_unit(b),
        inv(b) == inv(a),
{
    lemma_inv(a);
    lemma_cong_mul(a, b, inv(a), inv(a));
    lemma_inv_unique(b, inv(a));
    lemma_reduced(inv(a));
}

pub proof fn lemma_unit_neg(a: int)
    requires
        is_unit(a),
    ensures
        is_unit(-a),
        cong(inv(-a), -inv(a)),
{
    lemma_inv(a);
    assert((-a) * (-inv(a)) == a * inv(a)) by (nonlinear_arith);
    lemma_inv_unique(-a, -inv(a));
}

/// Powers of a unit are units.
pub proof fn lemma_unit_pow(a: int, e: nat)
    requires
        is_unit(a),
    ensures
        is_unit(pow(a, e)),
    decreases e,
{
    reveal(pow);
    if e == 0 {
        assert(cong(1int * 1int, 1));
        assert(is_unit(pow(a, e)));
    } else {
        lemma_unit_pow(a, (e - 1) as nat);
        lemma_unit_mul(a, pow(a, (e - 1) as nat));
    }
}

pub proof fn lemma_pow_one(e: nat)
    ensures
        pow(1, e) == 1,
    decreases e,
{
    reveal(pow);
    if e > 0 {
        lemma_pow_one((e - 1) as nat);
    }
}

/// Powers of a number and of its inverse cancel.
pub proof fn lemma_pow_inverse(a: int, b: int, e: nat)
    requires
        cong(a * b, 1),
    ensures
        cong(pow(a, e) * pow(b, e), 1),
    decreases e,
{
    reveal(pow);
    if e > 0 {
        let c = pow(a, (e - 1) as nat);
        let d = pow(b, (e - 1) as nat);
        lemma_pow_inverse(a, b, (e - 1) as nat);
        lemma_cong_mul(a * b, 1, c * d, 1);
        assert((a * b) * (c * d) == (a * c) * (b * d)) by (nonlinear_arith);
    }
}

/// Reducing the operands of a sum, a difference or a product changes nothing.
pub proof fn lemma_reduce_ops(a: int, b: int)
    ensures
        (a % order() + b % order()) % order() == (a + b) % order(),
        (a % order() - b % order()) % order() == (a - b) % order(),
        ((a % order()) * (b % order())) % order() == (a * b) % order(),
{
    lemma_reduce(a);
    lemma_reduce(b);
    lemma_cong_add(a % order(), a, b % order(), b);
    lemma_cong_sub(a % order(), a, b % order(), b);
    lemma_cong_mul(a % order(), a, b % order(), b);
}

} // verus!
