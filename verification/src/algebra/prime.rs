//! Prime numbers, and how to tell one.
//!
//! A number is prime where the powers of some base take so many values modulo it that none
//! of its smaller divisors has room for them (Pocklington's criterion).
use vstd::arithmetic::div_mod::{
    lemma_fundamental_div_mod, lemma_fundamental_div_mod_converse, lemma_mod_bound,
    lemma_mod_multiples_vanish, lemma_mul_mod_noop, lemma_mul_mod_noop_general, lemma_small_mod,
};
use vstd::arithmetic::power::{
    lemma_pow0, lemma_pow1, lemma_pow_adds, lemma_pow_multiplies, lemma_pow_positive, pow,
};
use vstd::prelude::*;

verus! {

/// Whether `d` divides `n`.
pub open spec fn divides(d: int, n: int) -> bool {
    n % d == 0
}

/// Whether a number has no divisors but one and itself.
pub open spec fn is_prime(n: int) -> bool {
    &&& 2 <= n
    &&& forall|d: int| 1 < d < n ==> !#[trigger] divides(d, n)
}

/// Whether the power of a base leaves a rest modulo a number.
pub open spec fn raised(n: int, base: int, exponent: int, rest: int) -> bool {
    &&& 0 <= exponent
    &&& pow(base, exponent as nat) % n == rest
}

/// A multiple is divided, and what is divided is a multiple.
pub proof fn lemma_divides(d: int, n: int)
    requires
        d > 0,
    ensures
        divides(d, n) <==> n == d * (n / d),
{
    lemma_fundamental_div_mod(n, d);
}

pub proof fn lemma_multiple(d: int, k: int)
    requires
        d > 0,
    ensures
        divides(d, d * k),
        divides(d, k * d),
        (d * k) / d == k,
{
    assert(d * k == k * d) by (nonlinear_arith);
    lemma_fundamental_div_mod_converse(d * k, d, k, 0);
}

/// A divisor of a divisor divides.
proof fn lemma_divides_through(c: int, d: int, n: int)
    requires
        c > 0,
        d > 0,
        divides(c, d),
        divides(d, n),
    ensures
        divides(c, n),
{
    lemma_divides(c, d);
    lemma_divides(d, n);
    let (x, y) = (d / c, n / d);
    assert((c * x) * y == c * (x * y)) by (nonlinear_arith);
    lemma_multiple(c, x * y);
}

/// Factors can be reduced.
proof fn lemma_rest_of_product(a: int, b: int, n: int)
    requires
        n > 0,
    ensures
        (a * b) % n == ((a % n) * (b % n)) % n,
        (a * b) % n == ((a % n) * b) % n,
{
    lemma_mul_mod_noop(a, b, n);
    lemma_mul_mod_noop_general(a, b, n);
}

/// What is modulo a number is so modulo its divisors.
proof fn lemma_rest_through(a: int, n: int, p: int)
    requires
        p > 1,
        n > 1,
        divides(p, n),
        a % n == 1,
    ensures
        a % p == 1,
{
    lemma_fundamental_div_mod(a, n);
    lemma_divides(p, n);
    let (k, m) = (a / n, n / p);
    assert((p * m) * k == p * (m * k)) by (nonlinear_arith);
    lemma_mod_multiples_vanish(m * k, 1, p);
    lemma_small_mod(1, p as nat);
}

/// A prime that divides a product but not its first factor, given by its rest, divides
/// the second.
proof fn lemma_euclid_rest(q: int, a: int, b: int)
    requires
        is_prime(q),
        0 < a < q,
        divides(q, a * b),
    ensures
        divides(q, b),
    decreases a,
{
    if a > 1 {
        let (k, r) = (q / a, q % a);
        assert(!divides(a, q));
        lemma_fundamental_div_mod(q, a);
        lemma_mod_bound(q, a);
        lemma_divides(q, a * b);
        let m = (a * b) / q;
        assert(r * b == q * (b - k * m)) by (nonlinear_arith)
            requires
                q == a * k + r,
                a * b == q * m,
        ;
        lemma_multiple(q, b - k * m);
        lemma_euclid_rest(q, r, b);
    } else {
        assert(1 * b == b);
    }
}

/// A prime that divides a product divides one of its factors.
pub proof fn lemma_euclid(q: int, a: int, b: int)
    requires
        is_prime(q),
        divides(q, a * b),
    ensures
        divides(q, a) || divides(q, b),
{
    lemma_mod_bound(a, q);
    if a % q != 0 {
        lemma_rest_of_product(a, b, q);
        lemma_euclid_rest(q, a % q, b);
    }
}

/// What is not a multiple of a prime has an inverse modulo it.
pub proof fn lemma_prime_inverse(q: int, a: int) -> (b: int)
    requires
        is_prime(q),
        0 < a < q,
    ensures
        (a * b) % q == 1,
    decreases a,
{
    if a == 1 {
        lemma_small_mod(1, q as nat);
        1
    } else {
        let (k, r) = (q / a, q % a);
        assert(!divides(a, q));
        lemma_fundamental_div_mod(q, a);
        lemma_mod_bound(q, a);
        let c = lemma_prime_inverse(q, r);
        let b = -(k * c);
        assert(a * b == q * (-c) + r * c) by (nonlinear_arith)
            requires
                q == a * k + r,
                b == -(k * c),
        ;
        lemma_mod_multiples_vanish(-c, r * c, q);
        b
    }
}

/// A power of a prime that divides a product, one factor of which the prime does not divide,
/// divides the other.
pub proof fn lemma_prime_power(q: int, e: nat, d: int, t: int)
    requires
        is_prime(q),
        !divides(q, t),
        divides(pow(q, e), d * t),
    ensures
        divides(pow(q, e), d),
    decreases e,
{
    lemma_pow0(q);
    if e > 0 {
        let rest = pow(q, (e - 1) as nat);
        lemma_pow_positive(q, (e - 1) as nat);
        lemma_pow_positive(q, e);
        lemma_pow1(q);
        lemma_pow_adds(q, 1, (e - 1) as nat);
        lemma_multiple(q, rest);
        lemma_divides_through(q, pow(q, e), d * t);
        lemma_euclid(q, d, t);
        lemma_divides(q, d);
        let c = d / q;
        lemma_divides(pow(q, e), d * t);
        let m = (d * t) / pow(q, e);
        assert(c * t == rest * m) by (nonlinear_arith)
            requires
                d == q * c,
                d * t == (q * rest) * m,
                q > 0,
        ;
        lemma_multiple(rest, m);
        lemma_prime_power(q, (e - 1) as nat, c, t);
        lemma_divides(rest, c);
        let f = c / rest;
        assert(q * (rest * f) == (q * rest) * f) by (nonlinear_arith);
        lemma_multiple(pow(q, e), f);
    } else {
        assert(d % 1 == 0);
    }
}

/// Coprime divisors divide together.
pub proof fn lemma_joint(f: int, q: int, e: nat, d: int)
    requires
        is_prime(q),
        f > 0,
        !divides(q, f),
        divides(f, d),
        divides(pow(q, e), d),
    ensures
        divides(f * pow(q, e), d),
{
    lemma_divides(f, d);
    let c = d / f;
    lemma_pow_positive(q, e);
    let g = pow(q, e);
    assert(f * c == c * f) by (nonlinear_arith);
    lemma_prime_power(q, e, c, f);
    lemma_divides(g, c);
    let k = c / g;
    assert(f * (g * k) == (f * g) * k) by (nonlinear_arith);
    assert(f * g > 0) by (nonlinear_arith)
        requires
            f > 0,
            g > 0,
    ;
    lemma_multiple(f * g, k);
}

/// Whether `d` is the least positive exponent that takes the base to one.
pub open spec fn is_exponent(a: int, p: int, d: int) -> bool {
    &&& 0 < d
    &&& raised(p, a, d, 1)
    &&& forall|k: int| 0 < k < d ==> !#[trigger] raised(p, a, k, 1)
}

proof fn lemma_least(a: int, p: int, m: int, k: int) -> (d: int)
    requires
        0 < k <= m,
        raised(p, a, m, 1),
        forall|j: int| 0 < j < k ==> !#[trigger] raised(p, a, j, 1),
    ensures
        is_exponent(a, p, d),
    decreases m - k,
{
    if raised(p, a, k, 1) {
        k
    } else {
        lemma_least(a, p, m, k + 1)
    }
}

/// The rest of a sum of exponents.
proof fn lemma_rest_of_sum(a: int, p: int, i: int, j: int)
    requires
        p > 1,
        0 <= i,
        0 <= j,
    ensures
        pow(a, (i + j) as nat) % p == ((pow(a, i as nat) % p) * (pow(a, j as nat) % p)) % p,
{
    lemma_pow_adds(a, i as nat, j as nat);
    lemma_rest_of_product(pow(a, i as nat), pow(a, j as nat), p);
}

/// A power that is one stays so.
proof fn lemma_ones(a: int, p: int, d: int, k: nat)
    requires
        p > 1,
        raised(p, a, d, 1),
    ensures
        d * k >= 0,
        raised(p, a, d * k, 1),
    decreases k,
{
    lemma_small_mod(1, p as nat);
    if k == 0 {
        lemma_pow0(a);
        assert(d * 0 == 0);
    } else {
        lemma_ones(a, p, d, (k - 1) as nat);
        assert(d * k == d * (k - 1) + d) by (nonlinear_arith);
        lemma_rest_of_sum(a, p, d * (k - 1), d);
    }
}

/// The least exponent divides all others.
proof fn lemma_exponent_divides(a: int, p: int, d: int, m: int)
    requires
        p > 1,
        is_exponent(a, p, d),
        raised(p, a, m, 1),
    ensures
        divides(d, m),
{
    let (k, r) = (m / d, m % d);
    lemma_fundamental_div_mod(m, d);
    lemma_mod_bound(m, d);
    assert(k >= 0) by (nonlinear_arith)
        requires
            m == d * k + r,
            r < d,
            0 <= m,
            0 < d,
    ;
    lemma_ones(a, p, d, k as nat);
    lemma_rest_of_sum(a, p, d * k, r);
    let rest = pow(a, r as nat) % p;
    lemma_mod_bound(pow(a, r as nat), p);
    assert(1 * rest == rest);
    lemma_small_mod(rest as nat, p as nat);
    if r > 0 {
        assert(!raised(p, a, r, 1));
    }
}

/// There is no room for more powers than there are residues but zero.
proof fn lemma_exponent_bound(a: int, p: int, d: int)
    requires
        p > 1,
        is_exponent(a, p, d),
    ensures
        d < p,
{
    let rests = Seq::new(d as nat, |i: int| pow(a, i as nat) % p);
    assert forall|i: int, j: int| 0 <= i < d && 0 <= j < d && i < j implies rests[i]
        != rests[j] by {
        if rests[i] == rests[j] {
            lemma_rest_of_sum(a, p, i, d - j);
            lemma_rest_of_sum(a, p, j, d - j);
            assert(raised(p, a, i + (d - j), 1));
        }
    }
    assert(rests.no_duplicates());
    rests.unique_seq_to_set();
    let range = vstd::set_lib::set_int_range(1, p);
    vstd::set_lib::lemma_int_range(1, p);
    assert forall|x: int| #[trigger] rests.to_set().contains(x) implies range.contains(x) by {
        let i = rests.index_of(x);
        lemma_mod_bound(pow(a, i as nat), p);
        if x == 0 {
            lemma_rest_of_sum(a, p, i, d - i);
            assert(0 * (pow(a, (d - i) as nat) % p) == 0);
            lemma_small_mod(0, p as nat);
        }
    }
    vstd::set_lib::lemma_len_subset(rests.to_set(), range);
}

/// Whether the power of `a` with the exponent `(n - 1) / q` is apart from one modulo every
/// divisor of `n`: what it is more than one has an inverse.
pub open spec fn stays_apart(n: int, a: int, q: int) -> bool {
    exists|rest: int, inverse: int|
        #![trigger raised(n, a, (n - 1) / q, rest), (rest - 1) * inverse]
        raised(n, a, (n - 1) / q, rest) && ((rest - 1) * inverse) % n == 1
}

/// A power of a prime that divides `n - 1` divides the least exponent modulo a divisor
/// of `n`, where the power of `a` with the exponent `(n - 1) / q` stays apart from one.
proof fn lemma_exponent_multiple(n: int, a: int, p: int, d: int, q: int, e: nat)
    requires
        n > 1,
        p > 1,
        divides(p, n),
        is_exponent(a, p, d),
        raised(n, a, n - 1, 1),
        is_prime(q),
        e > 0,
        divides(pow(q, e), n - 1),
        stays_apart(n, a, q),
    ensures
        divides(pow(q, e), d),
{
    let (rest, inverse) = choose|rest: int, inverse: int|
        #![trigger raised(n, a, (n - 1) / q, rest), (rest - 1) * inverse]
        raised(n, a, (n - 1) / q, rest) && ((rest - 1) * inverse) % n == 1;
    lemma_rest_through(pow(a, (n - 1) as nat), n, p);
    lemma_exponent_divides(a, p, d, n - 1);
    lemma_divides(d, n - 1);
    let t = (n - 1) / d;
    if divides(q, t) {
        lemma_divides(q, t);
        let s = t / q;
        assert(d * (q * s) == q * (d * s)) by (nonlinear_arith);
        lemma_multiple(q, d * s);
        assert(s >= 0) by (nonlinear_arith)
            requires
                n - 1 == d * (q * s),
                n > 1,
                d > 0,
                q > 0,
        ;
        lemma_ones(a, p, d, s as nat);
        let power = pow(a, ((n - 1) / q) as nat);
        // modulo the divisor the power is one, and zero has no inverse
        lemma_fundamental_div_mod(power, n);
        lemma_fundamental_div_mod(power, p);
        lemma_divides(p, n);
        let (k, m, j) = (power / n, n / p, power / p);
        assert((rest - 1) * inverse == p * ((j - m * k) * inverse)) by (nonlinear_arith)
            requires
                power == n * k + rest,
                power == p * j + 1,
                n == p * m,
        ;
        lemma_multiple(p, (j - m * k) * inverse);
        lemma_rest_through((rest - 1) * inverse, n, p);
        assert(false);
    }
    lemma_prime_power(q, e, d, t);
}

/// A product of prime powers that divides the least exponent modulo every divisor of a
/// number is too large for the smaller divisors.
pub open spec fn fills(n: int, a: int, f: int) -> bool {
    forall|p: int, d: int|
        1 < p && divides(p, n) && #[trigger] is_exponent(a, p, d) ==> divides(f, d)
}

/// A number is prime where a divisor of all the least exponents of a base exceeds its root.
proof fn lemma_filled(n: int, a: int, f: int)
    requires
        n > 1,
        raised(n, a, n - 1, 1),
        f > 0,
        f * f >= n,
        fills(n, a, f),
    ensures
        is_prime(n),
{
    assert forall|c: int| 1 < c < n implies !#[trigger] divides(c, n) by {
        if divides(c, n) {
            lemma_divides(c, n);
            let other = n / c;
            assert(1 < other < n) by (nonlinear_arith)
                requires
                    n == c * other,
                    1 < c < n,
            ;
            assert(c * other == other * c) by (nonlinear_arith);
            lemma_multiple(other, c);
            let p = if c <= other {
                c
            } else {
                other
            };
            assert(p * p <= n) by (nonlinear_arith)
                requires
                    n == c * other,
                    1 < c,
                    1 < other,
                    p <= c,
                    p <= other,
                    p > 1,
            ;
            lemma_rest_through(pow(a, (n - 1) as nat), n, p);
            let d = lemma_least(a, p, n - 1, 1);
            lemma_exponent_bound(a, p, d);
            lemma_divides(f, d);
            let k = d / f;
            assert(f <= d) by (nonlinear_arith)
                requires
                    d == f * k,
                    d > 0,
                    f > 0,
            ;
            assert(f * f < p * p) by (nonlinear_arith)
                requires
                    0 < f < p,
            ;
        }
    }
}

/// A number is prime where one prime beyond its root divides its predecessor, and powers
/// of some base tell so.
pub proof fn lemma_prime_by_one(n: int, a: int, q: int)
    requires
        n > 1,
        is_prime(q),
        q * q >= n,
        divides(q, n - 1),
        raised(n, a, n - 1, 1),
        stays_apart(n, a, q),
    ensures
        is_prime(n),
{
    lemma_pow1(q);
    assert forall|p: int, d: int|
        1 < p && divides(p, n) && #[trigger] is_exponent(a, p, d) implies divides(q, d) by {
        lemma_exponent_multiple(n, a, p, d, q, 1);
    }
    lemma_filled(n, a, q);
}

/// A number is prime where powers of three primes, together beyond its root, divide its
/// predecessor, and powers of some base tell so.
pub proof fn lemma_prime_by_three(
    n: int,
    a: int,
    first: (int, nat),
    second: (int, nat),
    third: (int, nat),
)
    requires
        n > 1,
        is_prime(first.0),
        is_prime(second.0),
        is_prime(third.0),
        first.1 > 0,
        second.1 > 0,
        third.1 > 0,
        !divides(second.0, pow(first.0, first.1)),
        !divides(third.0, pow(first.0, first.1) * pow(second.0, second.1)),
        divides(pow(first.0, first.1), n - 1),
        divides(pow(second.0, second.1), n - 1),
        divides(pow(third.0, third.1), n - 1),
        ({
            let f = pow(first.0, first.1) * pow(second.0, second.1) * pow(third.0, third.1);
            f * f >= n
        }),
        raised(n, a, n - 1, 1),
        stays_apart(n, a, first.0),
        stays_apart(n, a, second.0),
        stays_apart(n, a, third.0),
    ensures
        is_prime(n),
{
    let (x, y, z) = (pow(first.0, first.1), pow(second.0, second.1), pow(third.0, third.1));
    lemma_pow_positive(first.0, first.1);
    lemma_pow_positive(second.0, second.1);
    lemma_pow_positive(third.0, third.1);
    assert(x * y > 0 && x * y * z > 0) by (nonlinear_arith)
        requires
            x > 0,
            y > 0,
            z > 0,
    ;
    assert forall|p: int, d: int|
        1 < p && divides(p, n) && #[trigger] is_exponent(a, p, d) implies divides(
        x * y * z,
        d,
    ) by {
        lemma_exponent_multiple(n, a, p, d, first.0, first.1);
        lemma_exponent_multiple(n, a, p, d, second.0, second.1);
        lemma_exponent_multiple(n, a, p, d, third.0, third.1);
        lemma_joint(x, second.0, second.1, d);
        lemma_joint(x * y, third.0, third.1, d);
    }
    lemma_filled(n, a, x * y * z);
}

/// Whether no number from two to `k` divides `n`.
pub open spec fn undivided(n: int, k: int) -> bool
    decreases k,
{
    k < 2 || (!divides(k, n) && undivided(n, k - 1))
}

proof fn lemma_undivided(n: int, k: int, d: int)
    requires
        undivided(n, k),
        2 <= d <= k,
    ensures
        !divides(d, n),
    decreases k,
{
    if d < k {
        lemma_undivided(n, k - 1, d);
    }
}

/// A number is prime where no number up to its root divides it.
pub proof fn lemma_prime_by_trial(n: int, k: int)
    requires
        n >= 2,
        k >= 1,
        (k + 1) * (k + 1) > n,
        undivided(n, k),
    ensures
        is_prime(n),
{
    assert forall|d: int| 1 < d < n implies !#[trigger] divides(d, n) by {
        if divides(d, n) {
            lemma_divides(d, n);
            let other = n / d;
            assert(1 < other) by (nonlinear_arith)
                requires
                    n == d * other,
                    1 < d < n,
            ;
            assert(d * other == other * d) by (nonlinear_arith);
            lemma_multiple(other, d);
            if d <= k {
                lemma_undivided(n, k, d);
            } else if other <= k {
                lemma_undivided(n, k, other);
            } else {
                assert(d * other >= (k + 1) * (k + 1)) by (nonlinear_arith)
                    requires
                        d >= k + 1,
                        other >= k + 1,
                        k >= 1,
                ;
            }
        }
    }
}

/// Squaring a power doubles its exponent.
pub proof fn lemma_squared(n: int, a: int, e: int, x: int, y: int) -> (next: int)
    requires
        n > 1,
        raised(n, a, e, x),
        (x * x) % n == y,
    ensures
        next == 2 * e,
        raised(n, a, next, y),
{
    lemma_rest_of_sum(a, n, e, e);
    2 * e
}

/// Squaring a power and multiplying it by the base doubles its exponent and adds one.
pub proof fn lemma_squared_once_more(n: int, a: int, e: int, x: int, y: int) -> (next: int)
    requires
        n > 1,
        raised(n, a, e, x),
        (x * x * a) % n == y,
    ensures
        next == 2 * e + 1,
        raised(n, a, next, y),
{
    lemma_rest_of_sum(a, n, e, e);
    lemma_pow1(a);
    lemma_pow_adds(a, (2 * e) as nat, 1);
    lemma_rest_of_product(pow(a, (2 * e) as nat), a, n);
    lemma_rest_of_product(x * x, a, n);
    2 * e + 1
}

/// The rest of a power of a power.
pub proof fn lemma_raised_again(n: int, a: int, e: int, x: int, f: int, y: int)
    requires
        n > 1,
        raised(n, a, e, x),
        raised(n, x, f, y),
    ensures
        e * f >= 0,
        raised(n, a, e * f, y),
{
    lemma_pow_multiplies(a, e as nat, f as nat);
    lemma_power_of_rest(n, pow(a, e as nat), f as nat);
    assert(e * f >= 0) by (nonlinear_arith)
        requires
            e >= 0,
            f >= 0,
    ;
}

/// A base can be reduced.
proof fn lemma_power_of_rest(n: int, a: int, e: nat)
    requires
        n > 1,
    ensures
        pow(a, e) % n == pow(a % n, e) % n,
    decreases e,
{
    lemma_pow0(a);
    lemma_pow0(a % n);
    if e > 0 {
        let d = (e - 1) as nat;
        lemma_power_of_rest(n, a, d);
        lemma_pow1(a);
        lemma_pow1(a % n);
        lemma_pow_adds(a, 1, d);
        lemma_pow_adds(a % n, 1, d);
        lemma_rest_of_product(a, pow(a, d), n);
        lemma_rest_of_product(a % n, pow(a % n, d), n);
        vstd::arithmetic::div_mod::lemma_mod_twice(a, n);
    }
}

} // verus!
