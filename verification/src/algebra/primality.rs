//! The order of the groups is prime.
//!
//! Its predecessor is divided by powers of 2, 906349 and 254760293 whose product exceeds its
//! root. The powers of 7 that tell so are written down step by step, each the square of the
//! one before it or seven times the square, and so are those for the two primes, down to
//! numbers that trial division settles. So every residue but zero has an inverse, and a
//! product is zero only where a factor is.
use vstd::arithmetic::div_mod::lemma_small_mod;
use vstd::arithmetic::power::{lemma_pow1, lemma_pow_adds, pow};
use vstd::prelude::*;

use crate::algebra::prime::{
    is_prime, lemma_euclid, lemma_multiple, lemma_prime_by_one, lemma_prime_by_three,
    lemma_prime_by_trial, lemma_prime_inverse, lemma_raised_again, lemma_squared,
    lemma_squared_once_more, raised, stays_apart, undivided,
};
use crate::algebra::residue::{
    cong, is_unit, lemma_cong_diff, lemma_cong_mul, lemma_one, lemma_reduce, order,
};
use crate::algebra::sums::{dot, lemma_sum_cong, lemma_sum_single, lemma_sum_sub, products};

verus! {

/// The order, as one number.
#[verifier::inline]
spec fn modulus() -> int {
    0x73eda753299d7d483339d80809a1d80553bda402fffe5bfeffffffff00000001int
}

proof fn lemma_first_power(n: int, a: int)
    requires
        0 <= a < n,
    ensures
        raised(n, a, 1, a),
{
    lemma_pow1(a);
    lemma_small_mod(a as nat, n as nat);
}

/// A power stays apart from one where what it is more than one has an inverse.
proof fn lemma_stays_apart(n: int, a: int, q: int, m: int, rest: int, inverse: int)
    requires
        q > 0,
        n - 1 == q * m,
        raised(n, a, m, rest),
        ((rest - 1) * inverse) % n == 1,
    ensures
        stays_apart(n, a, q),
{
    lemma_multiple(q, m);
}

proof fn lemma_prime_73()
    ensures
        is_prime(73),
{
    assert(undivided(73, 1));
    assert(undivided(73, 2));
    assert(undivided(73, 3));
    assert(undivided(73, 4));
    assert(undivided(73, 5));
    assert(undivided(73, 6));
    assert(undivided(73, 7));
    assert(undivided(73, 8));
    lemma_prime_by_trial(73, 8);
}

/// The power of 2 that tells 1607 from its divisors.
proof fn lemma_1607_apart()
    ensures
        raised(1607, 2, 22, 34),
{
    lemma_first_power(1607, 2);
    let e: int = 1;
    let x: int = 2;
    let y: int = 4;
    let e: int = lemma_squared(1607, 2, e, x, y);
    let x: int = y;
    let y: int = 32;
    let e: int = lemma_squared_once_more(1607, 2, e, x, y);
    let x: int = y;
    let y: int = 441;
    let e: int = lemma_squared_once_more(1607, 2, e, x, y);
    let x: int = y;
    let y: int = 34;
    let e: int = lemma_squared(1607, 2, e, x, y);
}

/// The power of that power which is one modulo 1607.
proof fn lemma_1607_one()
    ensures
        raised(1607, 34, 73, 1),
{
    lemma_first_power(1607, 34);
    let e: int = 1;
    let x: int = 34;
    let y: int = 1156;
    let e: int = lemma_squared(1607, 34, e, x, y);
    let x: int = y;
    let y: int = 919;
    let e: int = lemma_squared(1607, 34, e, x, y);
    let x: int = y;
    let y: int = 1198;
    let e: int = lemma_squared_once_more(1607, 34, e, x, y);
    let x: int = y;
    let y: int = 153;
    let e: int = lemma_squared(1607, 34, e, x, y);
    let x: int = y;
    let y: int = 911;
    let e: int = lemma_squared(1607, 34, e, x, y);
    let x: int = y;
    let y: int = 1;
    let e: int = lemma_squared_once_more(1607, 34, e, x, y);
}

proof fn lemma_prime_1607()
    ensures
        is_prime(1607),
{
    lemma_prime_73();
    lemma_1607_apart();
    lemma_1607_one();
    lemma_raised_again(1607, 2, 22, 34, 73, 1);
    assert((34int - 1) * 487 % 1607 == 1);
    lemma_stays_apart(1607, 2, 73, 22, 34, 487);
    lemma_multiple(73, 22);
    lemma_prime_by_one(1607, 2, 73);
}

/// The power of 2 that tells 906349 from its divisors.
proof fn lemma_906349_apart()
    ensures
        raised(906349, 2, 564, 210417),
{
    lemma_first_power(906349, 2);
    let e: int = 1;
    let x: int = 2;
    let y: int = 4;
    let e: int = lemma_squared(906349, 2, e, x, y);
    let x: int = y;
    let y: int = 16;
    let e: int = lemma_squared(906349, 2, e, x, y);
    let x: int = y;
    let y: int = 256;
    let e: int = lemma_squared(906349, 2, e, x, y);
    let x: int = y;
    let y: int = 131072;
    let e: int = lemma_squared_once_more(906349, 2, e, x, y);
    let x: int = y;
    let y: int = 47778;
    let e: int = lemma_squared_once_more(906349, 2, e, x, y);
    let x: int = y;
    let y: int = 550502;
    let e: int = lemma_squared(906349, 2, e, x, y);
    let x: int = y;
    let y: int = 324540;
    let e: int = lemma_squared_once_more(906349, 2, e, x, y);
    let x: int = y;
    let y: int = 300659;
    let e: int = lemma_squared(906349, 2, e, x, y);
    let x: int = y;
    let y: int = 210417;
    let e: int = lemma_squared(906349, 2, e, x, y);
}

/// The power of that power which is one modulo 906349.
proof fn lemma_906349_one()
    ensures
        raised(906349, 210417, 1607, 1),
{
    lemma_first_power(906349, 210417);
    let e: int = 1;
    let x: int = 210417;
    let y: int = 640674;
    let e: int = lemma_squared_once_more(906349, 210417, e, x, y);
    let x: int = y;
    let y: int = 370901;
    let e: int = lemma_squared(906349, 210417, e, x, y);
    let x: int = y;
    let y: int = 87883;
    let e: int = lemma_squared(906349, 210417, e, x, y);
    let x: int = y;
    let y: int = 507258;
    let e: int = lemma_squared_once_more(906349, 210417, e, x, y);
    let x: int = y;
    let y: int = 10162;
    let e: int = lemma_squared(906349, 210417, e, x, y);
    let x: int = y;
    let y: int = 848807;
    let e: int = lemma_squared(906349, 210417, e, x, y);
    let x: int = y;
    let y: int = 188867;
    let e: int = lemma_squared(906349, 210417, e, x, y);
    let x: int = y;
    let y: int = 288547;
    let e: int = lemma_squared_once_more(906349, 210417, e, x, y);
    let x: int = y;
    let y: int = 2695;
    let e: int = lemma_squared_once_more(906349, 210417, e, x, y);
    let x: int = y;
    let y: int = 1;
    let e: int = lemma_squared_once_more(906349, 210417, e, x, y);
}

proof fn lemma_prime_906349()
    ensures
        is_prime(906349),
{
    lemma_prime_1607();
    lemma_906349_apart();
    lemma_906349_one();
    lemma_raised_again(906349, 2, 564, 210417, 1607, 1);
    assert((210417int - 1) * 298534 % 906349 == 1);
    lemma_stays_apart(906349, 2, 1607, 564, 210417, 298534);
    lemma_multiple(1607, 564);
    lemma_prime_by_one(906349, 2, 1607);
}

proof fn lemma_prime_359()
    ensures
        is_prime(359),
{
    assert(undivided(359, 1));
    assert(undivided(359, 2));
    assert(undivided(359, 3));
    assert(undivided(359, 4));
    assert(undivided(359, 5));
    assert(undivided(359, 6));
    assert(undivided(359, 7));
    assert(undivided(359, 8));
    assert(undivided(359, 9));
    assert(undivided(359, 10));
    assert(undivided(359, 11));
    assert(undivided(359, 12));
    assert(undivided(359, 13));
    assert(undivided(359, 14));
    assert(undivided(359, 15));
    assert(undivided(359, 16));
    assert(undivided(359, 17));
    assert(undivided(359, 18));
    lemma_prime_by_trial(359, 18);
}

/// The power of 2 that tells 110573 from its divisors.
proof fn lemma_110573_apart()
    ensures
        raised(110573, 2, 308, 49205),
{
    lemma_first_power(110573, 2);
    let e: int = 1;
    let x: int = 2;
    let y: int = 4;
    let e: int = lemma_squared(110573, 2, e, x, y);
    let x: int = y;
    let y: int = 16;
    let e: int = lemma_squared(110573, 2, e, x, y);
    let x: int = y;
    let y: int = 512;
    let e: int = lemma_squared_once_more(110573, 2, e, x, y);
    let x: int = y;
    let y: int = 81996;
    let e: int = lemma_squared_once_more(110573, 2, e, x, y);
    let x: int = y;
    let y: int = 63324;
    let e: int = lemma_squared(110573, 2, e, x, y);
    let x: int = y;
    let y: int = 108835;
    let e: int = lemma_squared_once_more(110573, 2, e, x, y);
    let x: int = y;
    let y: int = 35173;
    let e: int = lemma_squared(110573, 2, e, x, y);
    let x: int = y;
    let y: int = 49205;
    let e: int = lemma_squared(110573, 2, e, x, y);
}

/// The power of that power which is one modulo 110573.
proof fn lemma_110573_one()
    ensures
        raised(110573, 49205, 359, 1),
{
    lemma_first_power(110573, 49205);
    let e: int = 1;
    let x: int = 49205;
    let y: int = 25617;
    let e: int = lemma_squared(110573, 49205, e, x, y);
    let x: int = y;
    let y: int = 69360;
    let e: int = lemma_squared_once_more(110573, 49205, e, x, y);
    let x: int = y;
    let y: int = 68548;
    let e: int = lemma_squared_once_more(110573, 49205, e, x, y);
    let x: int = y;
    let y: int = 28669;
    let e: int = lemma_squared(110573, 49205, e, x, y);
    let x: int = y;
    let y: int = 22452;
    let e: int = lemma_squared(110573, 49205, e, x, y);
    let x: int = y;
    let y: int = 73381;
    let e: int = lemma_squared_once_more(110573, 49205, e, x, y);
    let x: int = y;
    let y: int = 14024;
    let e: int = lemma_squared_once_more(110573, 49205, e, x, y);
    let x: int = y;
    let y: int = 1;
    let e: int = lemma_squared_once_more(110573, 49205, e, x, y);
}

proof fn lemma_prime_110573()
    ensures
        is_prime(110573),
{
    lemma_prime_359();
    lemma_110573_apart();
    lemma_110573_one();
    lemma_raised_again(110573, 2, 308, 49205, 359, 1);
    assert((49205int - 1) * 49392 % 110573 == 1);
    lemma_stays_apart(110573, 2, 359, 308, 49205, 49392);
    lemma_multiple(359, 308);
    lemma_prime_by_one(110573, 2, 359);
}

/// The power of 2 that tells 2653753 from its divisors.
proof fn lemma_2653753_apart()
    ensures
        raised(2653753, 2, 24, 854698),
{
    lemma_first_power(2653753, 2);
    let e: int = 1;
    let x: int = 2;
    let y: int = 8;
    let e: int = lemma_squared_once_more(2653753, 2, e, x, y);
    let x: int = y;
    let y: int = 64;
    let e: int = lemma_squared(2653753, 2, e, x, y);
    let x: int = y;
    let y: int = 4096;
    let e: int = lemma_squared(2653753, 2, e, x, y);
    let x: int = y;
    let y: int = 854698;
    let e: int = lemma_squared(2653753, 2, e, x, y);
}

proof fn lemma_2653753_one_1()
    ensures
        raised(2653753, 854698, 27643, 373184),
{
    lemma_first_power(2653753, 854698);
    let e: int = 1;
    let x: int = 854698;
    let y: int = 2652529;
    let e: int = lemma_squared_once_more(2653753, 854698, e, x, y);
    let x: int = y;
    let y: int = 1498176;
    let e: int = lemma_squared(2653753, 854698, e, x, y);
    let x: int = y;
    let y: int = 2186847;
    let e: int = lemma_squared_once_more(2653753, 854698, e, x, y);
    let x: int = y;
    let y: int = 711392;
    let e: int = lemma_squared(2653753, 854698, e, x, y);
    let x: int = y;
    let y: int = 1185360;
    let e: int = lemma_squared_once_more(2653753, 854698, e, x, y);
    let x: int = y;
    let y: int = 313871;
    let e: int = lemma_squared_once_more(2653753, 854698, e, x, y);
    let x: int = y;
    let y: int = 2507033;
    let e: int = lemma_squared_once_more(2653753, 854698, e, x, y);
    let x: int = y;
    let y: int = 2393443;
    let e: int = lemma_squared_once_more(2653753, 854698, e, x, y);
    let x: int = y;
    let y: int = 1505757;
    let e: int = lemma_squared_once_more(2653753, 854698, e, x, y);
    let x: int = y;
    let y: int = 693093;
    let e: int = lemma_squared_once_more(2653753, 854698, e, x, y);
    let x: int = y;
    let y: int = 50551;
    let e: int = lemma_squared_once_more(2653753, 854698, e, x, y);
    let x: int = y;
    let y: int = 2493215;
    let e: int = lemma_squared(2653753, 854698, e, x, y);
    let x: int = y;
    let y: int = 162158;
    let e: int = lemma_squared_once_more(2653753, 854698, e, x, y);
    let x: int = y;
    let y: int = 373184;
    let e: int = lemma_squared_once_more(2653753, 854698, e, x, y);
}

/// The power of that power which is one modulo 2653753.
proof fn lemma_2653753_one()
    ensures
        raised(2653753, 854698, 110573, 1),
{
    lemma_2653753_one_1();
    let e: int = 27643;
    let x: int = 373184;
    let y: int = 2647922;
    let e: int = lemma_squared(2653753, 854698, e, x, y);
    let x: int = y;
    let y: int = 1;
    let e: int = lemma_squared_once_more(2653753, 854698, e, x, y);
}

proof fn lemma_prime_2653753()
    ensures
        is_prime(2653753),
{
    lemma_prime_110573();
    lemma_2653753_apart();
    lemma_2653753_one();
    lemma_raised_again(2653753, 2, 24, 854698, 110573, 1);
    assert((854698int - 1) * 166544 % 2653753 == 1);
    lemma_stays_apart(2653753, 2, 110573, 24, 854698, 166544);
    lemma_multiple(110573, 24);
    lemma_prime_by_one(2653753, 2, 110573);
}

/// The power of 2 that tells 63690073 from its divisors.
proof fn lemma_63690073_apart()
    ensures
        raised(63690073, 2, 24, 16777216),
{
    lemma_first_power(63690073, 2);
    let e: int = 1;
    let x: int = 2;
    let y: int = 8;
    let e: int = lemma_squared_once_more(63690073, 2, e, x, y);
    let x: int = y;
    let y: int = 64;
    let e: int = lemma_squared(63690073, 2, e, x, y);
    let x: int = y;
    let y: int = 4096;
    let e: int = lemma_squared(63690073, 2, e, x, y);
    let x: int = y;
    let y: int = 16777216;
    let e: int = lemma_squared(63690073, 2, e, x, y);
}

proof fn lemma_63690073_one_1()
    ensures
        raised(63690073, 16777216, 20732, 30291266),
{
    lemma_first_power(63690073, 16777216);
    let e: int = 1;
    let x: int = 16777216;
    let y: int = 10970952;
    let e: int = lemma_squared(63690073, 16777216, e, x, y);
    let x: int = y;
    let y: int = 41720488;
    let e: int = lemma_squared_once_more(63690073, 16777216, e, x, y);
    let x: int = y;
    let y: int = 57476179;
    let e: int = lemma_squared(63690073, 16777216, e, x, y);
    let x: int = y;
    let y: int = 53436621;
    let e: int = lemma_squared(63690073, 16777216, e, x, y);
    let x: int = y;
    let y: int = 10725131;
    let e: int = lemma_squared(63690073, 16777216, e, x, y);
    let x: int = y;
    let y: int = 23274416;
    let e: int = lemma_squared(63690073, 16777216, e, x, y);
    let x: int = y;
    let y: int = 56846450;
    let e: int = lemma_squared_once_more(63690073, 16777216, e, x, y);
    let x: int = y;
    let y: int = 8126753;
    let e: int = lemma_squared_once_more(63690073, 16777216, e, x, y);
    let x: int = y;
    let y: int = 29732914;
    let e: int = lemma_squared_once_more(63690073, 16777216, e, x, y);
    let x: int = y;
    let y: int = 56113108;
    let e: int = lemma_squared_once_more(63690073, 16777216, e, x, y);
    let x: int = y;
    let y: int = 3127971;
    let e: int = lemma_squared_once_more(63690073, 16777216, e, x, y);
    let x: int = y;
    let y: int = 50455058;
    let e: int = lemma_squared_once_more(63690073, 16777216, e, x, y);
    let x: int = y;
    let y: int = 24389712;
    let e: int = lemma_squared(63690073, 16777216, e, x, y);
    let x: int = y;
    let y: int = 30291266;
    let e: int = lemma_squared(63690073, 16777216, e, x, y);
}

/// The power of that power which is one modulo 63690073.
proof fn lemma_63690073_one()
    ensures
        raised(63690073, 16777216, 2653753, 1),
{
    lemma_63690073_one_1();
    let e: int = 20732;
    let x: int = 30291266;
    let y: int = 14627087;
    let e: int = lemma_squared(63690073, 16777216, e, x, y);
    let x: int = y;
    let y: int = 42560209;
    let e: int = lemma_squared_once_more(63690073, 16777216, e, x, y);
    let x: int = y;
    let y: int = 46872873;
    let e: int = lemma_squared_once_more(63690073, 16777216, e, x, y);
    let x: int = y;
    let y: int = 55728814;
    let e: int = lemma_squared_once_more(63690073, 16777216, e, x, y);
    let x: int = y;
    let y: int = 22888620;
    let e: int = lemma_squared(63690073, 16777216, e, x, y);
    let x: int = y;
    let y: int = 52105819;
    let e: int = lemma_squared(63690073, 16777216, e, x, y);
    let x: int = y;
    let y: int = 1;
    let e: int = lemma_squared_once_more(63690073, 16777216, e, x, y);
}

proof fn lemma_prime_63690073()
    ensures
        is_prime(63690073),
{
    lemma_prime_2653753();
    lemma_63690073_apart();
    lemma_63690073_one();
    lemma_raised_again(63690073, 2, 24, 16777216, 2653753, 1);
    assert((16777216int - 1) * 34981479 % 63690073 == 1);
    lemma_stays_apart(63690073, 2, 2653753, 24, 16777216, 34981479);
    lemma_multiple(2653753, 24);
    lemma_prime_by_one(63690073, 2, 2653753);
}

/// The power of 2 that tells 254760293 from its divisors.
proof fn lemma_254760293_apart()
    ensures
        raised(254760293, 2, 4, 16),
{
    lemma_first_power(254760293, 2);
    let e: int = 1;
    let x: int = 2;
    let y: int = 4;
    let e: int = lemma_squared(254760293, 2, e, x, y);
    let x: int = y;
    let y: int = 16;
    let e: int = lemma_squared(254760293, 2, e, x, y);
}

proof fn lemma_254760293_one_1()
    ensures
        raised(254760293, 16, 31098, 24062497),
{
    lemma_first_power(254760293, 16);
    let e: int = 1;
    let x: int = 16;
    let y: int = 4096;
    let e: int = lemma_squared_once_more(254760293, 16, e, x, y);
    let x: int = y;
    let y: int = 13675163;
    let e: int = lemma_squared_once_more(254760293, 16, e, x, y);
    let x: int = y;
    let y: int = 159378346;
    let e: int = lemma_squared_once_more(254760293, 16, e, x, y);
    let x: int = y;
    let y: int = 32861211;
    let e: int = lemma_squared(254760293, 16, e, x, y);
    let x: int = y;
    let y: int = 110679803;
    let e: int = lemma_squared(254760293, 16, e, x, y);
    let x: int = y;
    let y: int = 240651531;
    let e: int = lemma_squared_once_more(254760293, 16, e, x, y);
    let x: int = y;
    let y: int = 210237094;
    let e: int = lemma_squared(254760293, 16, e, x, y);
    let x: int = y;
    let y: int = 207102281;
    let e: int = lemma_squared_once_more(254760293, 16, e, x, y);
    let x: int = y;
    let y: int = 207749424;
    let e: int = lemma_squared_once_more(254760293, 16, e, x, y);
    let x: int = y;
    let y: int = 45359439;
    let e: int = lemma_squared_once_more(254760293, 16, e, x, y);
    let x: int = y;
    let y: int = 197431433;
    let e: int = lemma_squared_once_more(254760293, 16, e, x, y);
    let x: int = y;
    let y: int = 103260729;
    let e: int = lemma_squared(254760293, 16, e, x, y);
    let x: int = y;
    let y: int = 146079511;
    let e: int = lemma_squared_once_more(254760293, 16, e, x, y);
    let x: int = y;
    let y: int = 24062497;
    let e: int = lemma_squared(254760293, 16, e, x, y);
}

/// The power of that power which is one modulo 254760293.
proof fn lemma_254760293_one()
    ensures
        raised(254760293, 16, 63690073, 1),
{
    lemma_254760293_one_1();
    let e: int = 31098;
    let x: int = 24062497;
    let y: int = 204597954;
    let e: int = lemma_squared_once_more(254760293, 16, e, x, y);
    let x: int = y;
    let y: int = 228038418;
    let e: int = lemma_squared(254760293, 16, e, x, y);
    let x: int = y;
    let y: int = 101340931;
    let e: int = lemma_squared_once_more(254760293, 16, e, x, y);
    let x: int = y;
    let y: int = 236510555;
    let e: int = lemma_squared(254760293, 16, e, x, y);
    let x: int = y;
    let y: int = 213627711;
    let e: int = lemma_squared_once_more(254760293, 16, e, x, y);
    let x: int = y;
    let y: int = 210623838;
    let e: int = lemma_squared(254760293, 16, e, x, y);
    let x: int = y;
    let y: int = 153842310;
    let e: int = lemma_squared_once_more(254760293, 16, e, x, y);
    let x: int = y;
    let y: int = 221955166;
    let e: int = lemma_squared_once_more(254760293, 16, e, x, y);
    let x: int = y;
    let y: int = 94575019;
    let e: int = lemma_squared(254760293, 16, e, x, y);
    let x: int = y;
    let y: int = 63690073;
    let e: int = lemma_squared(254760293, 16, e, x, y);
    let x: int = y;
    let y: int = 1;
    let e: int = lemma_squared_once_more(254760293, 16, e, x, y);
}

proof fn lemma_prime_254760293()
    ensures
        is_prime(254760293),
{
    lemma_prime_63690073();
    lemma_254760293_apart();
    lemma_254760293_one();
    lemma_raised_again(254760293, 2, 4, 16, 63690073, 1);
    assert((16int - 1) * 220792254 % 254760293 == 1);
    lemma_stays_apart(254760293, 2, 63690073, 4, 16, 220792254);
    lemma_multiple(63690073, 4);
    lemma_prime_by_one(254760293, 2, 63690073);
}

proof fn lemma_common_power_1()
    ensures
        raised(
            modulus(),
            7,
            18088,
            0x5398477f13e3e67dae4f6e026642eb1451459bfeca83a61a6a0271922712e4f2int,
        ),
{
    lemma_first_power(modulus(), 7);
    let e: int = 1;
    let x: int = 0x7int;
    let y: int = 0x31int;
    let e: int = lemma_squared(modulus(), 7, e, x, y);
    let x: int = y;
    let y: int = 0x961int;
    let e: int = lemma_squared(modulus(), 7, e, x, y);
    let x: int = y;
    let y: int = 0x57f6c1int;
    let e: int = lemma_squared(modulus(), 7, e, x, y);
    let x: int = y;
    let y: int = 0xd39383266e87int;
    let e: int = lemma_squared_once_more(modulus(), 7, e, x, y);
    let x: int = y;
    let y: int = 0x4c8077a58a0a8cb7c24960e57int;
    let e: int = lemma_squared_once_more(modulus(), 7, e, x, y);
    let x: int = y;
    let y: int = 0x16dc8782276b9f7addf9768f33c8007ce903866a4546c1a191int;
    let e: int = lemma_squared(modulus(), 7, e, x, y);
    let x: int = y;
    let y: int = 0x330cd859cfe0b80907e580c139c8ca85264d03e85b8b5e81334247c7d82bb23bint;
    let e: int = lemma_squared_once_more(modulus(), 7, e, x, y);
    let x: int = y;
    let y: int = 0x37c69963ced189e08066de37f6c4eeffe764c9044c8edea91fac60d8a576104bint;
    let e: int = lemma_squared(modulus(), 7, e, x, y);
    let x: int = y;
    let y: int = 0x52229ee351329f38a58b845dc87ce693ab9fa414b4ab982bce02ccb3007aae2aint;
    let e: int = lemma_squared_once_more(modulus(), 7, e, x, y);
    let x: int = y;
    let y: int = 0x34238684d213d85033ec36f43aaa5a67a4f2a5f1462e78744f58c07bd1826693int;
    let e: int = lemma_squared(modulus(), 7, e, x, y);
    let x: int = y;
    let y: int = 0x4df8c9a39c2be2cff15951247ff16fdfb7c812d109f170c59bcd76c7e52c5f8aint;
    let e: int = lemma_squared_once_more(modulus(), 7, e, x, y);
    let x: int = y;
    let y: int = 0x67c1dfb9c0530d19effba96f7f7e30177d37fb0c980cfd0f9c009a970dcb6747int;
    let e: int = lemma_squared(modulus(), 7, e, x, y);
    let x: int = y;
    let y: int = 0x73586b2a22e0ae9995c78af704d4dc7ed708df001f721f47771d957de36961c7int;
    let e: int = lemma_squared(modulus(), 7, e, x, y);
    let x: int = y;
    let y: int = 0x5398477f13e3e67dae4f6e026642eb1451459bfeca83a61a6a0271922712e4f2int;
    let e: int = lemma_squared(modulus(), 7, e, x, y);
}

proof fn lemma_common_power_2()
    ensures
        raised(
            modulus(),
            7,
            296368537,
            0x23f6a36ea096ed1557d26122e8ddcd18274e5866c1a7d5eaa0c80136b501894eint,
        ),
{
    lemma_common_power_1();
    let e: int = 18088;
    let x: int = 0x5398477f13e3e67dae4f6e026642eb1451459bfeca83a61a6a0271922712e4f2int;
    let y: int = 0x46da37faaef8a46727d686af204824a77e58768160753179bde519599a7f4768int;
    let e: int = lemma_squared_once_more(modulus(), 7, e, x, y);
    let x: int = y;
    let y: int = 0x65453d72a3fb095e47166a0319f828c873e7e6e8e1934063d38b5a86d5084717int;
    let e: int = lemma_squared_once_more(modulus(), 7, e, x, y);
    let x: int = y;
    let y: int = 0x4e56050d0a61b5f2d08032418ec75df293adaa1c734f648efd8eaa783b0b14aint;
    let e: int = lemma_squared_once_more(modulus(), 7, e, x, y);
    let x: int = y;
    let y: int = 0x36772fd6c92f5e50aac361fd6531192c96629311afd003cf2a18a4fadaf7a743int;
    let e: int = lemma_squared(modulus(), 7, e, x, y);
    let x: int = y;
    let y: int = 0x2f029d445f190bb2e9fee158e8250833e77dace3a5c0dddfa8353526a2677308int;
    let e: int = lemma_squared(modulus(), 7, e, x, y);
    let x: int = y;
    let y: int = 0x1c7cb7307d0c8738ffa132e03afb0669f036533594adc6e64740e4a9a47ea2ddint;
    let e: int = lemma_squared_once_more(modulus(), 7, e, x, y);
    let x: int = y;
    let y: int = 0x1cee676b842ff8f8e057bd030f5a1c6aefefa92238c97e6ed17137f9a214b328int;
    let e: int = lemma_squared_once_more(modulus(), 7, e, x, y);
    let x: int = y;
    let y: int = 0x716c2de48a8c8fcdb8b58e07c6a4dccf295c9f674f63501171f38a0ddf36ae9dint;
    let e: int = lemma_squared(modulus(), 7, e, x, y);
    let x: int = y;
    let y: int = 0x13c271dddeabc2d58622c4ca08700132c8349795ff5e6e77052b40f37339f5b7int;
    let e: int = lemma_squared(modulus(), 7, e, x, y);
    let x: int = y;
    let y: int = 0x2df3b1b1859d71769738433d991aaa5035ac6266a3406b73ca01ffede6ae20c0int;
    let e: int = lemma_squared_once_more(modulus(), 7, e, x, y);
    let x: int = y;
    let y: int = 0x2a8cbbafd4b7306f2de0aeaaf34a5ece54ea184e1074f87c816a5dce115b85bint;
    let e: int = lemma_squared_once_more(modulus(), 7, e, x, y);
    let x: int = y;
    let y: int = 0x41b07f09693fb6451e3749d0f64b30ec4200bd762c789b36a4b0bab604d12eaaint;
    let e: int = lemma_squared(modulus(), 7, e, x, y);
    let x: int = y;
    let y: int = 0x650b9bfefeab89935264308ec37da395e68bf01183202e945cc5a7c83dca248fint;
    let e: int = lemma_squared(modulus(), 7, e, x, y);
    let x: int = y;
    let y: int = 0x23f6a36ea096ed1557d26122e8ddcd18274e5866c1a7d5eaa0c80136b501894eint;
    let e: int = lemma_squared_once_more(modulus(), 7, e, x, y);
}

proof fn lemma_common_power_3()
    ensures
        raised(
            modulus(),
            7,
            0x46a8e6673b0int,
            0x3ef89d24f185120e3929fbdfbed2136bcfd69c58a9f619bb2142ebb9726bfea2int,
        ),
{
    lemma_common_power_2();
    let e: int = 296368537;
    let x: int = 0x23f6a36ea096ed1557d26122e8ddcd18274e5866c1a7d5eaa0c80136b501894eint;
    let y: int = 0x37bac3e8edc9ccc9aba2bd40e78a894eeeeaf0e55d0671de98955b567ce1797aint;
    let e: int = lemma_squared_once_more(modulus(), 7, e, x, y);
    let x: int = y;
    let y: int = 0x4054b2953d93fc3eb635781ea1de0ca543fd7a282068b126bc79667cdeac544cint;
    let e: int = lemma_squared_once_more(modulus(), 7, e, x, y);
    let x: int = y;
    let y: int = 0x712fbbc20378994b78b130c286ea752ee54025b58793b53cfa4dbfa6b309381eint;
    let e: int = lemma_squared(modulus(), 7, e, x, y);
    let x: int = y;
    let y: int = 0x1791d82a28f0f18da004814715aa21f27682222cbd05494ae91f7b02e517f7a0int;
    let e: int = lemma_squared(modulus(), 7, e, x, y);
    let x: int = y;
    let y: int = 0x2f251d4e1ac3f053e8e1def501ff6e0dcec9711f3ff52bba61ee03461592bdf0int;
    let e: int = lemma_squared_once_more(modulus(), 7, e, x, y);
    let x: int = y;
    let y: int = 0x17c46388abdf5308c3b641c17dc9f64e0bef3a120fc9373549f1f3abbcff554cint;
    let e: int = lemma_squared_once_more(modulus(), 7, e, x, y);
    let x: int = y;
    let y: int = 0x55aa8db490985fe1274e01c38a1294ddbfbd8dbf832e6993438d32a126653741int;
    let e: int = lemma_squared_once_more(modulus(), 7, e, x, y);
    let x: int = y;
    let y: int = 0x4298ed20478cf00d4475527d2754081c52e60c6b7074898f46412ad49dbaad6cint;
    let e: int = lemma_squared(modulus(), 7, e, x, y);
    let x: int = y;
    let y: int = 0x66eb296434ef824a2e0b4d6fe56c18aae3bf3c5cf6d061ad6df9c15a14f46e17int;
    let e: int = lemma_squared_once_more(modulus(), 7, e, x, y);
    let x: int = y;
    let y: int = 0x77fec1fceaa551af9ecfa13427af607f268299aa09fad49f32452a37fafe8cint;
    let e: int = lemma_squared_once_more(modulus(), 7, e, x, y);
    let x: int = y;
    let y: int = 0x682e41c6acf37cdc3ff63923fb6e1251981c2866ffb194ed45f8a9e26c718ea9int;
    let e: int = lemma_squared(modulus(), 7, e, x, y);
    let x: int = y;
    let y: int = 0x18ae07289f1423bfe4e2d6fd96432c3a50ace7bc6e21d2f907d14d1ecac997e0int;
    let e: int = lemma_squared(modulus(), 7, e, x, y);
    let x: int = y;
    let y: int = 0x2e398d3e97d2ef6aa91f3de4afa2c61e643cb97d3e34e1319a575fdd5c34c673int;
    let e: int = lemma_squared(modulus(), 7, e, x, y);
    let x: int = y;
    let y: int = 0x3ef89d24f185120e3929fbdfbed2136bcfd69c58a9f619bb2142ebb9726bfea2int;
    let e: int = lemma_squared(modulus(), 7, e, x, y);
}

proof fn lemma_common_power_4()
    ensures
        raised(
            modulus(),
            7,
            0x11aa3999cec0609int,
            0x390d161ab3ba0e4a1f6c6d0cdb895ad8c1bab15e0114c7154f73cfee9ee86c5eint,
        ),
{
    lemma_common_power_3();
    let e: int = 0x46a8e6673b0int;
    let x: int = 0x3ef89d24f185120e3929fbdfbed2136bcfd69c58a9f619bb2142ebb9726bfea2int;
    let y: int = 0x68739c37c4e86487d8dca89c3622df3872e023d3cb66e5b3ee621bcc17a585eint;
    let e: int = lemma_squared(modulus(), 7, e, x, y);
    let x: int = y;
    let y: int = 0x39a4097c34baca109692e0b79f4fedd0ee9ce6f8b2c4f1777b7388553dca6a47int;
    let e: int = lemma_squared(modulus(), 7, e, x, y);
    let x: int = y;
    let y: int = 0x487fd17db7f2d930b13946d96bde9bb7102f9b14fda805249e2d14c8dfae6f73int;
    let e: int = lemma_squared(modulus(), 7, e, x, y);
    let x: int = y;
    let y: int = 0x6af6ee65afe650825379516e9cd2116938f44749785d28de73514eee1bc4ed76int;
    let e: int = lemma_squared_once_more(modulus(), 7, e, x, y);
    let x: int = y;
    let y: int = 0x7506a3d2152430c92d53ce0f8c0b79d8443845c1de6549ccc5964da2425b8aeint;
    let e: int = lemma_squared_once_more(modulus(), 7, e, x, y);
    let x: int = y;
    let y: int = 0x2688e7283f8671a5bc4c41cc625b62fabb98298792ea1df43cf9f7ed14e3e544int;
    let e: int = lemma_squared(modulus(), 7, e, x, y);
    let x: int = y;
    let y: int = 0x2dc2e199d96fbe17081eaf72ad13319a5c74a49578414bd445237dc50689ad71int;
    let e: int = lemma_squared(modulus(), 7, e, x, y);
    let x: int = y;
    let y: int = 0x5b68428c0825f29ed6c0427c7f2cd091525783d37c36bdc9c876a8d99a117bc7int;
    let e: int = lemma_squared(modulus(), 7, e, x, y);
    let x: int = y;
    let y: int = 0x55c5da33537d3af79bde420a7f3d23fb5b8fac3ddac33c1a346841eccb2d1d8fint;
    let e: int = lemma_squared(modulus(), 7, e, x, y);
    let x: int = y;
    let y: int = 0x19645bb5a8ff6c19dec084151a56823ddd566393cf3bfa5b7f1fa793ec84a2d0int;
    let e: int = lemma_squared(modulus(), 7, e, x, y);
    let x: int = y;
    let y: int = 0x1935a247ea6fde783958844b3ecc4ac240acb909ca71a05f2afd5fed715879b4int;
    let e: int = lemma_squared_once_more(modulus(), 7, e, x, y);
    let x: int = y;
    let y: int = 0x518a520f9488a50bdd2f6b8630d5348a40ed5a7fb68d216190210591505a3b74int;
    let e: int = lemma_squared(modulus(), 7, e, x, y);
    let x: int = y;
    let y: int = 0x5c0666072f2bd0149c2b39e426f90c3560ae83fd75e6e3fa37e59dae11193770int;
    let e: int = lemma_squared(modulus(), 7, e, x, y);
    let x: int = y;
    let y: int = 0x390d161ab3ba0e4a1f6c6d0cdb895ad8c1bab15e0114c7154f73cfee9ee86c5eint;
    let e: int = lemma_squared_once_more(modulus(), 7, e, x, y);
}

proof fn lemma_common_power_5()
    ensures
        raised(
            modulus(),
            7,
            0x46a8e6673b01826876int,
            0x550f6f6120940a0edd3abd2f5bae97b17225f68266123618875d15b41d744334int,
        ),
{
    lemma_common_power_4();
    let e: int = 0x11aa3999cec0609int;
    let x: int = 0x390d161ab3ba0e4a1f6c6d0cdb895ad8c1bab15e0114c7154f73cfee9ee86c5eint;
    let y: int = 0x1139b1c43d6dfd5c289c346142a72a85e7ef0d2a97d2d0c7bf9a8b5dca6e5fecint;
    let e: int = lemma_squared_once_more(modulus(), 7, e, x, y);
    let x: int = y;
    let y: int = 0x13b0cd7430335796da36dcfd6f08f65a45e7eb256ac6892ab637d67e6e75a6aeint;
    let e: int = lemma_squared(modulus(), 7, e, x, y);
    let x: int = y;
    let y: int = 0x465647631a7efcc5a25fc5d3b07cc84381399c59262164331e128d46f0ebfb09int;
    let e: int = lemma_squared_once_more(modulus(), 7, e, x, y);
    let x: int = y;
    let y: int = 0x67657b835a206d2832239ba64374715f3a50b02f5cf7d3aeaa24079294c519f2int;
    let e: int = lemma_squared(modulus(), 7, e, x, y);
    let x: int = y;
    let y: int = 0x30c8ee82e6c6b5f9a8f958e6921a3139895781043fc1c097fce4fb2b700a437bint;
    let e: int = lemma_squared(modulus(), 7, e, x, y);
    let x: int = y;
    let y: int = 0x3825e0dbb3d553d21019f3acd0f7a9f5acb0bf36b699cda3ac26cf20cc144ebaint;
    let e: int = lemma_squared(modulus(), 7, e, x, y);
    let x: int = y;
    let y: int = 0x6ecf1ea4518f5b31461bd2e0ccc7de9b87f36f7434552edd698c7bc966fe9258int;
    let e: int = lemma_squared(modulus(), 7, e, x, y);
    let x: int = y;
    let y: int = 0xf598a0adcf5dcee4f8a8cba5ccb07678cb28f29d9bf5706212bbf18eaba1ce6int;
    let e: int = lemma_squared_once_more(modulus(), 7, e, x, y);
    let x: int = y;
    let y: int = 0x5e1a760496d8d8495ab47439699c62998dbc8c3f0d0628df26c1d1f43d04be89int;
    let e: int = lemma_squared_once_more(modulus(), 7, e, x, y);
    let x: int = y;
    let y: int = 0x7228650d432d4b9b7e0037e6370cddc15ed238c2a32dd46a60d6b1eea53c7988int;
    let e: int = lemma_squared_once_more(modulus(), 7, e, x, y);
    let x: int = y;
    let y: int = 0x5cbb0d4483afaee80c3d596fbd2df40974f198aba874a5c26b65fd0d967abcdcint;
    let e: int = lemma_squared(modulus(), 7, e, x, y);
    let x: int = y;
    let y: int = 0x284d242ae51ec6bbfb5cc04e1600e9ac3351f3cc17e12a59d7486fa994587eebint;
    let e: int = lemma_squared_once_more(modulus(), 7, e, x, y);
    let x: int = y;
    let y: int = 0x555fab520ecbf2d525b4c9197a610f9c0396d8e1ca8f713d60d2d9d51adf330int;
    let e: int = lemma_squared_once_more(modulus(), 7, e, x, y);
    let x: int = y;
    let y: int = 0x550f6f6120940a0edd3abd2f5bae97b17225f68266123618875d15b41d744334int;
    let e: int = lemma_squared(modulus(), 7, e, x, y);
}

proof fn lemma_common_power_6()
    ensures
        raised(
            modulus(),
            7,
            0x11aa3999cec0609a1d8060int,
            0x98566de4a957fb12211ca2bf6280d83f749a1042f3b34f6aa1019e8f54ef057int,
        ),
{
    lemma_common_power_5();
    let e: int = 0x46a8e6673b01826876int;
    let x: int = 0x550f6f6120940a0edd3abd2f5bae97b17225f68266123618875d15b41d744334int;
    let y: int = 0x71b618fadc401ef7405be90f0a40196b0e9ee86d6ee59f72eea3f5c078260186int;
    let e: int = lemma_squared(modulus(), 7, e, x, y);
    let x: int = y;
    let y: int = 0x1c8b6521bedd4a51b7778fedb5b8b264ae45dde771a035074150b8dbebc3c5a0int;
    let e: int = lemma_squared(modulus(), 7, e, x, y);
    let x: int = y;
    let y: int = 0x6f0c5a6aaa128eaa259db9063d1b0b83e1dc8d3105a427ee0821611da5118884int;
    let e: int = lemma_squared(modulus(), 7, e, x, y);
    let x: int = y;
    let y: int = 0x6ea021e49d66dc2739af2f5667dfb814e75a9821e56c704e54b2e5816b252295int;
    let e: int = lemma_squared(modulus(), 7, e, x, y);
    let x: int = y;
    let y: int = 0x4d102bbfa8c8b9f4053a1e1a2a31cd05e519de5344c9c864ffc426cb6c201331int;
    let e: int = lemma_squared(modulus(), 7, e, x, y);
    let x: int = y;
    let y: int = 0x69264ab5cad7879857af49b8aa30401fac737933f6cae506ff0d9570c84132a0int;
    let e: int = lemma_squared(modulus(), 7, e, x, y);
    let x: int = y;
    let y: int = 0x2180484ad12f09ed87d17fd6f66f1b36e560204d748b9dc8b759755d8f3dd868int;
    let e: int = lemma_squared(modulus(), 7, e, x, y);
    let x: int = y;
    let y: int = 0x2225cf54015aec1eb23b37209feee3bd7815cf9ab685e0ae75ba08e16ecc0d2fint;
    let e: int = lemma_squared_once_more(modulus(), 7, e, x, y);
    let x: int = y;
    let y: int = 0x41c777436a3f711026ebeaf55d172f37620c62f7961b0cae24b829b411eb906dint;
    let e: int = lemma_squared_once_more(modulus(), 7, e, x, y);
    let x: int = y;
    let y: int = 0x4d88d171cdca4b6c27b5013e27977a10bbd547a62196f60d768064a53dfb35f3int;
    let e: int = lemma_squared(modulus(), 7, e, x, y);
    let x: int = y;
    let y: int = 0x2f89cfaa8f4b0fca7b36d09b4001742e788f0b227d5a6c5ad405bf2676e35dcaint;
    let e: int = lemma_squared(modulus(), 7, e, x, y);
    let x: int = y;
    let y: int = 0x3d1f0f71caf3812760c199d4b07ba5831f7921212180095f2e8206f3413dd49fint;
    let e: int = lemma_squared(modulus(), 7, e, x, y);
    let x: int = y;
    let y: int = 0x69f5f874d6f2118d6eda54e42c70ee04569d3789e9423b11204f219ab44b635cint;
    let e: int = lemma_squared(modulus(), 7, e, x, y);
    let x: int = y;
    let y: int = 0x98566de4a957fb12211ca2bf6280d83f749a1042f3b34f6aa1019e8f54ef057int;
    let e: int = lemma_squared(modulus(), 7, e, x, y);
}

proof fn lemma_common_power_7()
    ensures
        raised(
            modulus(),
            7,
            0x46a8e6673b018268760180013int,
            0x3992413c82600f59213b3f3ea878b9ee6bad5e7a6f0d02c995a74fda82b31a84int,
        ),
{
    lemma_common_power_6();
    let e: int = 0x11aa3999cec0609a1d8060int;
    let x: int = 0x98566de4a957fb12211ca2bf6280d83f749a1042f3b34f6aa1019e8f54ef057int;
    let y: int = 0x5a358eff85bbf105a65b8f382c9e3ea7a73508be1c9f8a52fc0caef409d02015int;
    let e: int = lemma_squared(modulus(), 7, e, x, y);
    let x: int = y;
    let y: int = 0x20f9659ddde9fadc13693f7dc96095a3d051a8f8bf9c8c244eb522f6ae315923int;
    let e: int = lemma_squared(modulus(), 7, e, x, y);
    let x: int = y;
    let y: int = 0x10b197e872dc04ee1512efbc8c6d08f60664c04eae565d9422b8eba3a76ca893int;
    let e: int = lemma_squared(modulus(), 7, e, x, y);
    let x: int = y;
    let y: int = 0x2fa92be55c078d1b2b27941fd94de29c6e221162a622d3bf6b73a4442c3ebbcint;
    let e: int = lemma_squared(modulus(), 7, e, x, y);
    let x: int = y;
    let y: int = 0x19bfc1d008f36de391acd7f9a817a8b9193133d039bdb3584509a9f866d3cd72int;
    let e: int = lemma_squared(modulus(), 7, e, x, y);
    let x: int = y;
    let y: int = 0x67552c7339a98f9cd539a98c9d79e879dac299fed13d3752fc7bddc957a3ccabint;
    let e: int = lemma_squared(modulus(), 7, e, x, y);
    let x: int = y;
    let y: int = 0x28e55df12a282ab40e19669f1642991192203e863ec4a466676f975138e4cc79int;
    let e: int = lemma_squared(modulus(), 7, e, x, y);
    let x: int = y;
    let y: int = 0x363cd296970824d9acd22cf73af3558b19ea4dbb0f069534da8f96e9a3086350int;
    let e: int = lemma_squared(modulus(), 7, e, x, y);
    let x: int = y;
    let y: int = 0x14548bb0ecc764d562ca019c009c766da97df12f1c9a67e8035f2fc661a76bd4int;
    let e: int = lemma_squared(modulus(), 7, e, x, y);
    let x: int = y;
    let y: int = 0xa915c5253ae3d6de82844c65f1fbce10dd31e62f6ad0aff62517871bd11d111int;
    let e: int = lemma_squared_once_more(modulus(), 7, e, x, y);
    let x: int = y;
    let y: int = 0x4a2778fc2fd06ba5f0f1b3bf914d53f3ea19404680666300a33a325bd451d750int;
    let e: int = lemma_squared(modulus(), 7, e, x, y);
    let x: int = y;
    let y: int = 0x6bb7a068f3e325e21c7befb786e3b737d8a8c0eb32388e33df035f7afcf4d001int;
    let e: int = lemma_squared(modulus(), 7, e, x, y);
    let x: int = y;
    let y: int = 0x470d31449a733f2f152df4fe7263f85224ac20128c2748365abcdb524d8885f9int;
    let e: int = lemma_squared_once_more(modulus(), 7, e, x, y);
    let x: int = y;
    let y: int = 0x3992413c82600f59213b3f3ea878b9ee6bad5e7a6f0d02c995a74fda82b31a84int;
    let e: int = lemma_squared_once_more(modulus(), 7, e, x, y);
}

proof fn lemma_common_power_8()
    ensures
        raised(
            modulus(),
            7,
            0x11aa3999cec0609a1d8060004ec05int,
            0x61ba4713230e828c4adcf1b9bf20d190fd489aec2499821424b35ed37ee8c757int,
        ),
{
    lemma_common_power_7();
    let e: int = 0x46a8e6673b018268760180013int;
    let x: int = 0x3992413c82600f59213b3f3ea878b9ee6bad5e7a6f0d02c995a74fda82b31a84int;
    let y: int = 0x591b56ad32678d7db428d239929f33ebbb4bab008f226e68a8572dd02411b0caint;
    let e: int = lemma_squared_once_more(modulus(), 7, e, x, y);
    let x: int = y;
    let y: int = 0x1dce8803c3427b2944406cee29bdb50951d5c1f508b2a34e0973bd61b6aaf39cint;
    let e: int = lemma_squared(modulus(), 7, e, x, y);
    let x: int = y;
    let y: int = 0x3b35b88bb79e8bab55270417d660ed27565db17e7d56a8627ebc47e0e6574628int;
    let e: int = lemma_squared_once_more(modulus(), 7, e, x, y);
    let x: int = y;
    let y: int = 0x1c4ecd6acf63306e62d35233202bcf601a2e24cef49f6e2c37712f9be37af9f3int;
    let e: int = lemma_squared_once_more(modulus(), 7, e, x, y);
    let x: int = y;
    let y: int = 0x123c559dac371c75367fcc571836903806ce79bb0e3bde41a0741c1a4b7dcb0aint;
    let e: int = lemma_squared(modulus(), 7, e, x, y);
    let x: int = y;
    let y: int = 0x6cde0090fbd9af6070a8336aabe4918ea968cfbc25cb144548b8432491469110int;
    let e: int = lemma_squared(modulus(), 7, e, x, y);
    let x: int = y;
    let y: int = 0x2a05ab2a50d8c7884e8200dff886f4abdcbf80920bca05e73b64cb3a520b7abaint;
    let e: int = lemma_squared(modulus(), 7, e, x, y);
    let x: int = y;
    let y: int = 0x33720838c1262595b0f2729d2ec117561075c366e66d7445565533009756b3f9int;
    let e: int = lemma_squared(modulus(), 7, e, x, y);
    let x: int = y;
    let y: int = 0x648a62668fea1adda33b5229970e808ffeae061168004729402716d0c7dd68b3int;
    let e: int = lemma_squared(modulus(), 7, e, x, y);
    let x: int = y;
    let y: int = 0x4cefd1215b51b263b94e37020c53633e2b70b7dbbabc135dcb609bc4e132c57fint;
    let e: int = lemma_squared(modulus(), 7, e, x, y);
    let x: int = y;
    let y: int = 0x56ad7dc991724109f1d32ada3e5cacc4f99d8b053a8eb4f5354c2147c4bbf11fint;
    let e: int = lemma_squared(modulus(), 7, e, x, y);
    let x: int = y;
    let y: int = 0x50c3fd2785940b9144c1b40e21719e44b7f975ce80359b4bbe15d25e6f4b124fint;
    let e: int = lemma_squared_once_more(modulus(), 7, e, x, y);
    let x: int = y;
    let y: int = 0x4fe796b5bb32a58df8501ea03df4f7235fb8b043e33f5c02b612bbc4865d8539int;
    let e: int = lemma_squared(modulus(), 7, e, x, y);
    let x: int = y;
    let y: int = 0x61ba4713230e828c4adcf1b9bf20d190fd489aec2499821424b35ed37ee8c757int;
    let e: int = lemma_squared_once_more(modulus(), 7, e, x, y);
}

proof fn lemma_common_power_9()
    ensures
        raised(
            modulus(),
            7,
            0x46a8e6673b018268760180013b017fffint,
            0x28f795520fa39b250c0c9fa562dcb2f989d827681a55383887d520711e7ea927int,
        ),
{
    lemma_common_power_8();
    let e: int = 0x11aa3999cec0609a1d8060004ec05int;
    let x: int = 0x61ba4713230e828c4adcf1b9bf20d190fd489aec2499821424b35ed37ee8c757int;
    let y: int = 0x2fa9f20cba41960f42b35fd9ee07c9b275cf30e6a4309e56cea43807636d1c11int;
    let e: int = lemma_squared_once_more(modulus(), 7, e, x, y);
    let x: int = y;
    let y: int = 0x2580484ac5f0a1fd63a4e2c30ee5903934f2282d1f30e8cfe2055fd8fb4ee5d7int;
    let e: int = lemma_squared_once_more(modulus(), 7, e, x, y);
    let x: int = y;
    let y: int = 0x1a46a0b881904c7a62c833938c9fef7814539e872e4fdf3824dd560406dcbbdint;
    let e: int = lemma_squared_once_more(modulus(), 7, e, x, y);
    let x: int = y;
    let y: int = 0x55bfcf99644779a3f5df899464b5043b0242f2b9bcb744fa6b2f66532351c11fint;
    let e: int = lemma_squared_once_more(modulus(), 7, e, x, y);
    let x: int = y;
    let y: int = 0x6a1075f25297344bda2a53a6659934d8460d7edeb39ee9a5ee73e3a8fde87fc6int;
    let e: int = lemma_squared_once_more(modulus(), 7, e, x, y);
    let x: int = y;
    let y: int = 0x4252336f7c6ce07df7fb27f95fa4a25c660ae5009ae3476ab42d8542664c62adint;
    let e: int = lemma_squared_once_more(modulus(), 7, e, x, y);
    let x: int = y;
    let y: int = 0x561743a05614d8cd28c77644967a32b7b15f93a1db384e7520bceffbdca0fc63int;
    let e: int = lemma_squared_once_more(modulus(), 7, e, x, y);
    let x: int = y;
    let y: int = 0x587517c14fd99668cea763b817e79ca9110b14ccb2213487045bb887442c337dint;
    let e: int = lemma_squared_once_more(modulus(), 7, e, x, y);
    let x: int = y;
    let y: int = 0x5a314eb34de0f0ed8cf0fc53259b6897a6baeae06b3129e0281ce00c6e5dea75int;
    let e: int = lemma_squared_once_more(modulus(), 7, e, x, y);
    let x: int = y;
    let y: int = 0x50e6d865bf8fe2d076562653b358c293097d6fd7a140d06c205971d68b3628cdint;
    let e: int = lemma_squared_once_more(modulus(), 7, e, x, y);
    let x: int = y;
    let y: int = 0x110a50c5a2be1ea1f7285f4bbade5226d46aa77c79efe4d598d2e285d30f0439int;
    let e: int = lemma_squared_once_more(modulus(), 7, e, x, y);
    let x: int = y;
    let y: int = 0xc8c3d173ca51473cc8389ffec8f58ee1a6e26b4d84dec18601cc7c3dc1d4d5bint;
    let e: int = lemma_squared_once_more(modulus(), 7, e, x, y);
    let x: int = y;
    let y: int = 0x6887e2298c0fe6d807fe2662cff5a50c41c5ce1f76f4a531c4b83a7299ab804fint;
    let e: int = lemma_squared_once_more(modulus(), 7, e, x, y);
    let x: int = y;
    let y: int = 0x28f795520fa39b250c0c9fa562dcb2f989d827681a55383887d520711e7ea927int;
    let e: int = lemma_squared_once_more(modulus(), 7, e, x, y);
}

proof fn lemma_common_power_10()
    ensures
        raised(
            modulus(),
            7,
            0x11aa3999cec0609a1d8060004ec05fffe5bfint,
            0x59eaf691632984c24de857f30edac2f5cc4d78f202ad1dc3cb1107b737a7e5f9int,
        ),
{
    lemma_common_power_9();
    let e: int = 0x46a8e6673b018268760180013b017fffint;
    let x: int = 0x28f795520fa39b250c0c9fa562dcb2f989d827681a55383887d520711e7ea927int;
    let y: int = 0x7107489313ce03d637a5e4a256ff8127534955f3366b0ac37b52ae7968b03ba7int;
    let e: int = lemma_squared_once_more(modulus(), 7, e, x, y);
    let x: int = y;
    let y: int = 0x7142d89beba13cb14c0dc1208f812a6ae605d74f83fbd98ee68fe3712d550b13int;
    let e: int = lemma_squared(modulus(), 7, e, x, y);
    let x: int = y;
    let y: int = 0x6dc69499c65360ccb27f325436b7f664b8b4c1790a9413af48df8b8265370a9fint;
    let e: int = lemma_squared(modulus(), 7, e, x, y);
    let x: int = y;
    let y: int = 0x255a13ffdc650e496dbb73e0e8682642880d94ae66255a391436e2438c6ea0aint;
    let e: int = lemma_squared_once_more(modulus(), 7, e, x, y);
    let x: int = y;
    let y: int = 0x59bd9d79461f44697a618df172d3508e24cf85d56efeca4f8bf29ef904be0de4int;
    let e: int = lemma_squared(modulus(), 7, e, x, y);
    let x: int = y;
    let y: int = 0x579257f52f8970fdfb1dc3597c7b4256750251d7713c32b2ba1d1e7d6c928b7cint;
    let e: int = lemma_squared_once_more(modulus(), 7, e, x, y);
    let x: int = y;
    let y: int = 0x3c68fe41694d7b13ba193d8139014f91f5bce324beefdc3ac002690e6dd911fdint;
    let e: int = lemma_squared_once_more(modulus(), 7, e, x, y);
    let x: int = y;
    let y: int = 0xf8053ba4b4d8e8bd934ca5b02dea00c3194bf59fcab15916678be79be263537int;
    let e: int = lemma_squared(modulus(), 7, e, x, y);
    let x: int = y;
    let y: int = 0x4f39c7e8054e344b35542e541571863ccba90de0d739394264609f7643b428cdint;
    let e: int = lemma_squared_once_more(modulus(), 7, e, x, y);
    let x: int = y;
    let y: int = 0x3b6d2ea1eeb68e57be6a2419ee0ab577401418d5ecacbc33ec9cad130ca61360int;
    let e: int = lemma_squared_once_more(modulus(), 7, e, x, y);
    let x: int = y;
    let y: int = 0x57a2711a3fd19163fa40262f52bd9cf5befea5340042f6f4d344e6d804ae6148int;
    let e: int = lemma_squared_once_more(modulus(), 7, e, x, y);
    let x: int = y;
    let y: int = 0x58ec9d97c26c40ddabb762e38b76ee3b633ad1a0d20a86c1ecf254ec0aef1848int;
    let e: int = lemma_squared_once_more(modulus(), 7, e, x, y);
    let x: int = y;
    let y: int = 0x2fb38fcc8b8447f950ee8ec44a6eef421bc29e1a7ccae67250f5f97e69b77b65int;
    let e: int = lemma_squared_once_more(modulus(), 7, e, x, y);
    let x: int = y;
    let y: int = 0x59eaf691632984c24de857f30edac2f5cc4d78f202ad1dc3cb1107b737a7e5f9int;
    let e: int = lemma_squared_once_more(modulus(), 7, e, x, y);
}

proof fn lemma_common_power_11()
    ensures
        raised(
            modulus(),
            7,
            0x46a8e6673b018268760180013b017fff96fffffint,
            0x368e59cc10b09c320e20feea4a5384fc96d7b98674c63f7bb1a46d6cda9bc80dint,
        ),
{
    lemma_common_power_10();
    let e: int = 0x11aa3999cec0609a1d8060004ec05fffe5bfint;
    let x: int = 0x59eaf691632984c24de857f30edac2f5cc4d78f202ad1dc3cb1107b737a7e5f9int;
    let y: int = 0x348b3b9611c0365ad2ddbe4e78d3b48a63646d321a13c19981f63de06cc82d7eint;
    let e: int = lemma_squared_once_more(modulus(), 7, e, x, y);
    let x: int = y;
    let y: int = 0x26e8d281d3032252eae81d4c442e634a4e5900282f9ef5605081fb0754cdd243int;
    let e: int = lemma_squared_once_more(modulus(), 7, e, x, y);
    let x: int = y;
    let y: int = 0x39c04dc5de49d73505cfc1d78531445546b95b2aae092d0dfe2cf85bf5d797a4int;
    let e: int = lemma_squared_once_more(modulus(), 7, e, x, y);
    let x: int = y;
    let y: int = 0x5189a2daf9fedd19ef2fa1abf378a16a49833caea507eb283dec6f24ec20403aint;
    let e: int = lemma_squared_once_more(modulus(), 7, e, x, y);
    let x: int = y;
    let y: int = 0x38c8d0be7c8b7c91f5eb0752d86b577b5c6eda1bddcac0a51a577c9baeb1c6b5int;
    let e: int = lemma_squared_once_more(modulus(), 7, e, x, y);
    let x: int = y;
    let y: int = 0x1b1f8616d61ca3d0da6fe811bdc520244ae7a272f55a4f674a76d2558023411int;
    let e: int = lemma_squared_once_more(modulus(), 7, e, x, y);
    let x: int = y;
    let y: int = 0x5ae7f71a3461e2ccac1d3d09da0581b1566d010e0efee6dffeeed73e39aaa48dint;
    let e: int = lemma_squared_once_more(modulus(), 7, e, x, y);
    let x: int = y;
    let y: int = 0x41dee9082a04dea016e59258f52b94bd908b30189863740a751d8cda18e65b43int;
    let e: int = lemma_squared_once_more(modulus(), 7, e, x, y);
    let x: int = y;
    let y: int = 0xc2f8236ce1f141abb2b1f6822dbd533bef57721f71753137ee73a3a54660d67int;
    let e: int = lemma_squared_once_more(modulus(), 7, e, x, y);
    let x: int = y;
    let y: int = 0x136f8c08b6db80782f16cfe1b884b342f6073b6ac3505e10191cac40854a809cint;
    let e: int = lemma_squared_once_more(modulus(), 7, e, x, y);
    let x: int = y;
    let y: int = 0x5545c3c09e99934aa5bf863fb593aab579a6349183b7e6bb44ffa25787659b68int;
    let e: int = lemma_squared_once_more(modulus(), 7, e, x, y);
    let x: int = y;
    let y: int = 0xec9b256a37b81e91d88e858e47369d0d9cf8097678397d586f96fced63e3958int;
    let e: int = lemma_squared_once_more(modulus(), 7, e, x, y);
    let x: int = y;
    let y: int = 0x4c8b1a20be844074a418ac8d33521d4ec3069fc6e11db42719f72ecbf6d5b65fint;
    let e: int = lemma_squared_once_more(modulus(), 7, e, x, y);
    let x: int = y;
    let y: int = 0x368e59cc10b09c320e20feea4a5384fc96d7b98674c63f7bb1a46d6cda9bc80dint;
    let e: int = lemma_squared_once_more(modulus(), 7, e, x, y);
}

proof fn lemma_common_power_12()
    ensures
        raised(
            modulus(),
            7,
            0x11aa3999cec0609a1d8060004ec05fffe5bffffffffint,
            0x2209c90c7db54ca682f05f8a06ea941eba4c404d5eae9f116cf7d0f59b86e03bint,
        ),
{
    lemma_common_power_11();
    let e: int = 0x46a8e6673b018268760180013b017fff96fffffint;
    let x: int = 0x368e59cc10b09c320e20feea4a5384fc96d7b98674c63f7bb1a46d6cda9bc80dint;
    let y: int = 0x22e6f1350e9b97cc27a9f8b2b486860eb59322532ddd1a5ee5f43408607ee100int;
    let e: int = lemma_squared_once_more(modulus(), 7, e, x, y);
    let x: int = y;
    let y: int = 0x1fb695f6faef5e2e2f62f40650b4236dbb4f5dbdeb4fdc3863f068af16068c06int;
    let e: int = lemma_squared_once_more(modulus(), 7, e, x, y);
    let x: int = y;
    let y: int = 0x705a6fe2e8d21812728aa2e851f3c2128aba72e37ddd7e96162964ee668a5a1dint;
    let e: int = lemma_squared_once_more(modulus(), 7, e, x, y);
    let x: int = y;
    let y: int = 0x4cd02cd3631a0a0922a56700768f61f73def5ebb7aa0a715847ef852614ffd95int;
    let e: int = lemma_squared_once_more(modulus(), 7, e, x, y);
    let x: int = y;
    let y: int = 0x404789499830e861cba48903d047a39b24a626b9205d869a02d2011778348f56int;
    let e: int = lemma_squared_once_more(modulus(), 7, e, x, y);
    let x: int = y;
    let y: int = 0x667e5ac0dfbcf1c3bfab64029b0338a8005df44d94c03dbb97f5747b2dbe9a97int;
    let e: int = lemma_squared_once_more(modulus(), 7, e, x, y);
    let x: int = y;
    let y: int = 0x6fa43438d6b60d7c9573c0781a7195dc3b93002ab38bea5b9e0276937b8049e2int;
    let e: int = lemma_squared_once_more(modulus(), 7, e, x, y);
    let x: int = y;
    let y: int = 0x1ce6527779b8c0df416176cc78e331f7416693f0f0ff8b8fefa00c559f95f95int;
    let e: int = lemma_squared_once_more(modulus(), 7, e, x, y);
    let x: int = y;
    let y: int = 0x506815ab2acd59df84a64857bd772e41c4768dfe2908131ea3fb580be0f8f91eint;
    let e: int = lemma_squared_once_more(modulus(), 7, e, x, y);
    let x: int = y;
    let y: int = 0x5c178faca27cd44b60004e91cc138b01de03f24f23d0eeda48a47ae363aaca17int;
    let e: int = lemma_squared_once_more(modulus(), 7, e, x, y);
    let x: int = y;
    let y: int = 0x6d649cf9daf6c9fa2024e99dcee59e3dbcfa0e25f55f53de29945c17694114e2int;
    let e: int = lemma_squared_once_more(modulus(), 7, e, x, y);
    let x: int = y;
    let y: int = 0x1634edf26d4df0596c29f654b2077ab202f4984de196e2401f69ca8a0814dcd8int;
    let e: int = lemma_squared_once_more(modulus(), 7, e, x, y);
    let x: int = y;
    let y: int = 0x424f3a939b28d71eda4ec5ed550aac19519d57f5763ecf7a517950b8d7d3cf1cint;
    let e: int = lemma_squared_once_more(modulus(), 7, e, x, y);
    let x: int = y;
    let y: int = 0x2209c90c7db54ca682f05f8a06ea941eba4c404d5eae9f116cf7d0f59b86e03bint;
    let e: int = lemma_squared_once_more(modulus(), 7, e, x, y);
}

proof fn lemma_common_power_13()
    ensures
        raised(
            modulus(),
            7,
            0x46a8e6673b018268760180013b017fff96ffffffffff80int,
            0x322774694b182fc86636e4483b56a6b791939932e65cc40bd4cd0788021ac320int,
        ),
{
    lemma_common_power_12();
    let e: int = 0x11aa3999cec0609a1d8060004ec05fffe5bffffffffint;
    let x: int = 0x2209c90c7db54ca682f05f8a06ea941eba4c404d5eae9f116cf7d0f59b86e03bint;
    let y: int = 0x41ef3a44fc49d6a76574aa4a62c8634881288ca4fb31eb24846657587dd6e686int;
    let e: int = lemma_squared_once_more(modulus(), 7, e, x, y);
    let x: int = y;
    let y: int = 0x5bf850f1e3f476f19a7a1134ec1086daa926b255014281d019d8e02b86d6124eint;
    let e: int = lemma_squared_once_more(modulus(), 7, e, x, y);
    let x: int = y;
    let y: int = 0x18712a965d3a89d92331129c46fe9dc41f6a4a680186d2bc7c6e328e79bb829eint;
    let e: int = lemma_squared_once_more(modulus(), 7, e, x, y);
    let x: int = y;
    let y: int = 0xa56418aa7afbf1d0a1e90a6608e6a1019ccc40a5efd187b388c637857e5e4e1int;
    let e: int = lemma_squared_once_more(modulus(), 7, e, x, y);
    let x: int = y;
    let y: int = 0x39bbf50693aca8e470bea29d8adb074ba986938f22fb76bf170e153ea9842341int;
    let e: int = lemma_squared_once_more(modulus(), 7, e, x, y);
    let x: int = y;
    let y: int = 0x4a4d85da29c5789a99a62bbc0e638e560a040edb06fd90d7cb234b6387ec2e0fint;
    let e: int = lemma_squared_once_more(modulus(), 7, e, x, y);
    let x: int = y;
    let y: int = 0x4990c269a2732a1a8df97ebc2867f9c00a65e36640abb1e3c8a03d1d8b840691int;
    let e: int = lemma_squared_once_more(modulus(), 7, e, x, y);
    let x: int = y;
    let y: int = 0x6c665f894b4c21f0ea502d24f11ade6f53ac836673fd89681722ab68f86192dint;
    let e: int = lemma_squared(modulus(), 7, e, x, y);
    let x: int = y;
    let y: int = 0xfd5355bc9395c4128497c49a7c8dceeb27086976b7a2f579a819f778deaf614int;
    let e: int = lemma_squared(modulus(), 7, e, x, y);
    let x: int = y;
    let y: int = 0x6f702640c1b57b482da370dc0a721c8917b30f5466b3e974442d92c22bd67c61int;
    let e: int = lemma_squared(modulus(), 7, e, x, y);
    let x: int = y;
    let y: int = 0x19ef8e40c6827a959721d2d813c7b0af103841e0156c33749cefbe0ba9ca5accint;
    let e: int = lemma_squared(modulus(), 7, e, x, y);
    let x: int = y;
    let y: int = 0x1ef198cf3c719072c8ee6c6f7543989838ad243d5409964b1a23cc79dbbdafe7int;
    let e: int = lemma_squared(modulus(), 7, e, x, y);
    let x: int = y;
    let y: int = 0x377da8cd0a1f8d50dba8ffe30a1f91f30bd246ae56da13c7f9418d600580c79eint;
    let e: int = lemma_squared(modulus(), 7, e, x, y);
    let x: int = y;
    let y: int = 0x322774694b182fc86636e4483b56a6b791939932e65cc40bd4cd0788021ac320int;
    let e: int = lemma_squared(modulus(), 7, e, x, y);
}

proof fn lemma_common_power_14()
    ensures
        raised(
            modulus(),
            7,
            0x11aa3999cec0609a1d8060004ec05fffe5bfffffffffe00000int,
            0x514195e686df415d8959f4712aa27f395fcdc5e643fda7cd39b415b748fb1aa5int,
        ),
{
    lemma_common_power_13();
    let e: int = 0x46a8e6673b018268760180013b017fff96ffffffffff80int;
    let x: int = 0x322774694b182fc86636e4483b56a6b791939932e65cc40bd4cd0788021ac320int;
    let y: int = 0x426c8e01e9cbd219d1b29976c96cd953cced11eb5ded1bc415c8362cacc8a52fint;
    let e: int = lemma_squared(modulus(), 7, e, x, y);
    let x: int = y;
    let y: int = 0x87b2703f7e04bea107de21e13e6097ad2428b746ab0ffffd2eb4c697881bcd3int;
    let e: int = lemma_squared(modulus(), 7, e, x, y);
    let x: int = y;
    let y: int = 0x5af0ed0653c60d3b1621a2cd4f7dfeb5ce977fe05803b1bd73ffe68d64dc2d2dint;
    let e: int = lemma_squared(modulus(), 7, e, x, y);
    let x: int = y;
    let y: int = 0x2e235a819abcc7a73de29ec1c7e2c195a5a12b76ef11d0fdf50b1d1bd348bd1int;
    let e: int = lemma_squared(modulus(), 7, e, x, y);
    let x: int = y;
    let y: int = 0x5b645dcbde345180d2b628eaa0cf6b56ecbe7b95a5ee0c476b8d676bdc487c79int;
    let e: int = lemma_squared(modulus(), 7, e, x, y);
    let x: int = y;
    let y: int = 0x33f0ab8788d780501718d707460b1d07d8b18bb7e647aeb2021a20928200046dint;
    let e: int = lemma_squared(modulus(), 7, e, x, y);
    let x: int = y;
    let y: int = 0x510e8d28b79d777d11b0a6991b5f3ac38a6d8306d711822757c43a2aecf47436int;
    let e: int = lemma_squared(modulus(), 7, e, x, y);
    let x: int = y;
    let y: int = 0x6b1cf4e45ab2d82dc9028944d3e366596242ad9276185bfa07437a3735d876feint;
    let e: int = lemma_squared(modulus(), 7, e, x, y);
    let x: int = y;
    let y: int = 0x27d82b2c3529471eabf434b5ff29f0ec4b34ee8f4a14cef10d306627d22803f1int;
    let e: int = lemma_squared(modulus(), 7, e, x, y);
    let x: int = y;
    let y: int = 0x193fec57488e3042dbd4d3736531ec9b24070db88936f84d97328016cb109161int;
    let e: int = lemma_squared(modulus(), 7, e, x, y);
    let x: int = y;
    let y: int = 0x164ec94ee5f3bee6693d41613bca4d5252f1631cd39709a31f702ed16578c30eint;
    let e: int = lemma_squared(modulus(), 7, e, x, y);
    let x: int = y;
    let y: int = 0x21e80391da6ea0dfab7670ebbf058ca517b970ecd0c3983118b09135297739b0int;
    let e: int = lemma_squared(modulus(), 7, e, x, y);
    let x: int = y;
    let y: int = 0x4be25bd0b51fe74aaa89bf6776b5a2347c3019a449bad4f7964a67903a123585int;
    let e: int = lemma_squared(modulus(), 7, e, x, y);
    let x: int = y;
    let y: int = 0x514195e686df415d8959f4712aa27f395fcdc5e643fda7cd39b415b748fb1aa5int;
    let e: int = lemma_squared(modulus(), 7, e, x, y);
}

/// The power of 7 that the three which tell the order from its divisors are powers of.
proof fn lemma_common_power()
    ensures
        raised(
            modulus(),
            7,
            0x46a8e6673b018268760180013b017fff96ffffffffff80000000int,
            0x5408b980649808cd37c2e17f1db833c9214e1bb03b6f6227991621e3561c6d96int,
        ),
{
    lemma_common_power_14();
    let e: int = 0x11aa3999cec0609a1d8060004ec05fffe5bfffffffffe00000int;
    let x: int = 0x514195e686df415d8959f4712aa27f395fcdc5e643fda7cd39b415b748fb1aa5int;
    let y: int = 0x2ea996fd780d84990feb67088c7c7c6bd7b53f0f010506bf4ec62dd9a08c7098int;
    let e: int = lemma_squared(modulus(), 7, e, x, y);
    let x: int = y;
    let y: int = 0x4c3991960cb9e15fe8b66c0f1a49b23e024b4c8290dc3ada998341af27489649int;
    let e: int = lemma_squared(modulus(), 7, e, x, y);
    let x: int = y;
    let y: int = 0x2e773c70adc4a344cf5334d8bd7b9b22683f7b943a22038cc1c3413b8b9e8eeint;
    let e: int = lemma_squared(modulus(), 7, e, x, y);
    let x: int = y;
    let y: int = 0x2cf487385d5b6cd6914d4d8b3cffb7dd7cf034894c58136627b957eb7bad3ec9int;
    let e: int = lemma_squared(modulus(), 7, e, x, y);
    let x: int = y;
    let y: int = 0xda75204e5cb15f78bf5532f46b73fe59131585a533a616a2923a77a56b5dd6aint;
    let e: int = lemma_squared(modulus(), 7, e, x, y);
    let x: int = y;
    let y: int = 0x64e4e17ac300bf68763a91caed6229b04c7c46f9534166229884d03736128538int;
    let e: int = lemma_squared(modulus(), 7, e, x, y);
    let x: int = y;
    let y: int = 0x3ace8f98d592493fda69dd104be461915e9966e8edd8e63370a6cf85ecf1500fint;
    let e: int = lemma_squared(modulus(), 7, e, x, y);
    let x: int = y;
    let y: int = 0x61ec5ec6eaac4efe875d08499c2362298bb6b7fa451966498d1353cf8b2467bint;
    let e: int = lemma_squared(modulus(), 7, e, x, y);
    let x: int = y;
    let y: int = 0x1779426a13964f137081586c45902aea2fee0c6fbb2fb1c0209c42ea6217ee8fint;
    let e: int = lemma_squared(modulus(), 7, e, x, y);
    let x: int = y;
    let y: int = 0x5408b980649808cd37c2e17f1db833c9214e1bb03b6f6227991621e3561c6d96int;
    let e: int = lemma_squared(modulus(), 7, e, x, y);
}

/// The base of the three powers.
#[verifier::inline]
spec fn common() -> int {
    0x5408b980649808cd37c2e17f1db833c9214e1bb03b6f6227991621e3561c6d96int
}

proof fn lemma_half_power_1()
    ensures
        raised(
            modulus(),
            common(),
            26880,
            0x591a3f944b0555f8d23056a94de67a45f701614d9cff18ac4c99fb144632010aint,
        ),
{
    lemma_first_power(modulus(), common());
    let e: int = 1;
    let x: int = 0x5408b980649808cd37c2e17f1db833c9214e1bb03b6f6227991621e3561c6d96int;
    let y: int = 0x506738e9f1f363f967839b93cb95b3d12e4a495de9a4079b3e64266c0c016074int;
    let e: int = lemma_squared_once_more(modulus(), common(), e, x, y);
    let x: int = y;
    let y: int = 0xdf0e66e063ed918e0379d56c5889f993f5503be417a76d4576bedd08754e3beint;
    let e: int = lemma_squared(modulus(), common(), e, x, y);
    let x: int = y;
    let y: int = 0x1bac23cbd26d310161a1985d42afa95d9ffe7cbd68ef5c6c4f8064cfa2963eb3int;
    let e: int = lemma_squared_once_more(modulus(), common(), e, x, y);
    let x: int = y;
    let y: int = 0x6fcbeee54e00d0aefa0d04d1209a0421ea81c6547cec29d44b6db68883b20523int;
    let e: int = lemma_squared(modulus(), common(), e, x, y);
    let x: int = y;
    let y: int = 0x487d23e3025972f07a325be1346a042a99fb7e957099026070667715cedfcaa9int;
    let e: int = lemma_squared(modulus(), common(), e, x, y);
    let x: int = y;
    let y: int = 0x5123262235bef04a40601326a1d3990d1f8385b2f4eb5763f40c3653ba5c6de5int;
    let e: int = lemma_squared_once_more(modulus(), common(), e, x, y);
    let x: int = y;
    let y: int = 0x5fd0fc4f1d47d9edb4fc445a3ae93a8991175bbde4726765a493ddd2237a94a9int;
    let e: int = lemma_squared(modulus(), common(), e, x, y);
    let x: int = y;
    let y: int = 0x5f5713d89453d38716f1fd1c0194fe3dbd9896048589810b03b50314cce4dceeint;
    let e: int = lemma_squared(modulus(), common(), e, x, y);
    let x: int = y;
    let y: int = 0x1ba8cf885d2d3c90adfc44de5ba12768661a8fbf7d11bada88dbb7357dc70635int;
    let e: int = lemma_squared(modulus(), common(), e, x, y);
    let x: int = y;
    let y: int = 0x1f7ebe481e6ec7e24d3cdf934cad31a69f6f14302e2fa50a4749a061b0214e7bint;
    let e: int = lemma_squared(modulus(), common(), e, x, y);
    let x: int = y;
    let y: int = 0x25f0dc20e7cbfdabcc2a4c7fbf45d7f04503abd7a76c82ec9d5112559b907307int;
    let e: int = lemma_squared(modulus(), common(), e, x, y);
    let x: int = y;
    let y: int = 0x10420fea3bfd1583f20e3c047f1da526f7aef8e807b99f5bbe2f732036b3300eint;
    let e: int = lemma_squared(modulus(), common(), e, x, y);
    let x: int = y;
    let y: int = 0x18c241e4136a1b666dc74799d486b9b1bcfd450955ae40d0eea5e95c2b938983int;
    let e: int = lemma_squared(modulus(), common(), e, x, y);
    let x: int = y;
    let y: int = 0x591a3f944b0555f8d23056a94de67a45f701614d9cff18ac4c99fb144632010aint;
    let e: int = lemma_squared(modulus(), common(), e, x, y);
}

proof fn lemma_half_power_2()
    ensures
        raised(
            modulus(),
            common(),
            440410112,
            0x3a1b8e9aedf7fc6d687facdaf5aeaff6df801bcb32eb175b5b82c9ae3b0978ecint,
        ),
{
    lemma_half_power_1();
    let e: int = 26880;
    let x: int = 0x591a3f944b0555f8d23056a94de67a45f701614d9cff18ac4c99fb144632010aint;
    let y: int = 0x3541d23b9c01c3c306291d635ad0cc42aac5dea60ef870fcdc8aa8d781f214feint;
    let e: int = lemma_squared_once_more(modulus(), common(), e, x, y);
    let x: int = y;
    let y: int = 0x41a43e4727c0a4d8dd9bd2eb7d72731b347321f020529941c133b11a1b54d08dint;
    let e: int = lemma_squared(modulus(), common(), e, x, y);
    let x: int = y;
    let y: int = 0x6dfcb73e51f941e53cf87eb061223ac70ce842386ec08993db4a31d7eb9c054eint;
    let e: int = lemma_squared(modulus(), common(), e, x, y);
    let x: int = y;
    let y: int = 0x64a3ef29296379f5f25ba8833ae57cb32bea5bdb887ed66c34b380e404b0146fint;
    let e: int = lemma_squared(modulus(), common(), e, x, y);
    let x: int = y;
    let y: int = 0x334524a44f41a71d02e9003c36179797a4d430e7e84c14423c6c0aef496cfd9eint;
    let e: int = lemma_squared(modulus(), common(), e, x, y);
    let x: int = y;
    let y: int = 0x3c24b54d1e7ada0bbff72242e42912ea06f4d45f4972f8ecfbbdfcddba341148int;
    let e: int = lemma_squared(modulus(), common(), e, x, y);
    let x: int = y;
    let y: int = 0x6b77643f982e85314bee63e58865f48e4730bc515e2fca5e804820ee074e030dint;
    let e: int = lemma_squared(modulus(), common(), e, x, y);
    let x: int = y;
    let y: int = 0x25538b3760b2b47c7fc85546afb3fe5a18d243df7003d2d17d49c7347030783cint;
    let e: int = lemma_squared(modulus(), common(), e, x, y);
    let x: int = y;
    let y: int = 0x284e9bb855991c95c055801f4bbaee5a79a70f516647b4660ded7c49fc53624cint;
    let e: int = lemma_squared(modulus(), common(), e, x, y);
    let x: int = y;
    let y: int = 0x4a134c4165ea9140c063c03a4b981f18d985be5f4a45c84628ddb71e2bdadb96int;
    let e: int = lemma_squared(modulus(), common(), e, x, y);
    let x: int = y;
    let y: int = 0x353a4b6ac537a01e89431f978cd99c872331b7f036fe829a3f6f211ae59e9268int;
    let e: int = lemma_squared(modulus(), common(), e, x, y);
    let x: int = y;
    let y: int = 0x2f4a8f379d5038565bbe7dc32468cfff997cc9f85eb9cdb3b2406d41a68b0331int;
    let e: int = lemma_squared(modulus(), common(), e, x, y);
    let x: int = y;
    let y: int = 0x18279bfcbca828fbdc9dc7f71a14a63db4e072a1e8fc9b6cc0dab63c311bae70int;
    let e: int = lemma_squared(modulus(), common(), e, x, y);
    let x: int = y;
    let y: int = 0x3a1b8e9aedf7fc6d687facdaf5aeaff6df801bcb32eb175b5b82c9ae3b0978ecint;
    let e: int = lemma_squared(modulus(), common(), e, x, y);
}

proof fn lemma_half_power_3()
    ensures
        raised(
            modulus(),
            common(),
            0x69008000000int,
            0x2db32b512a3414744a6f41a68f693953a515eba70484a35700aa31bc98cdbd55int,
        ),
{
    lemma_half_power_2();
    let e: int = 440410112;
    let x: int = 0x3a1b8e9aedf7fc6d687facdaf5aeaff6df801bcb32eb175b5b82c9ae3b0978ecint;
    let y: int = 0x62c93e576f80be5c63a55e6a89a7a35545033fd571fba9ade2f3334e0a1abbeaint;
    let e: int = lemma_squared(modulus(), common(), e, x, y);
    let x: int = y;
    let y: int = 0x4335edb471296edfcbc8cc15213628e6e3e1ae3610dcab0879d3d90534b2044aint;
    let e: int = lemma_squared(modulus(), common(), e, x, y);
    let x: int = y;
    let y: int = 0x51569ef09ad379786848e59a3df7272d3c3cc94f4911c4c195284b25c5270a85int;
    let e: int = lemma_squared(modulus(), common(), e, x, y);
    let x: int = y;
    let y: int = 0x4243dd30588f7a9a91bc428ef550365d93189e5d186c70e8bb8b4ff11a71d4daint;
    let e: int = lemma_squared(modulus(), common(), e, x, y);
    let x: int = y;
    let y: int = 0x325e5a61cfffe74229e9c7d6af0b4df7c0f41c7ed3ced3340b4808311ae40378int;
    let e: int = lemma_squared(modulus(), common(), e, x, y);
    let x: int = y;
    let y: int = 0x9f0af4a885757f2ef00b568926a7c5c4d7e206a1e3b0673d22a4268f0f95b0eint;
    let e: int = lemma_squared(modulus(), common(), e, x, y);
    let x: int = y;
    let y: int = 0x5dc51367f92f631054c389fe597b59cb9a184c1179c2dafc217a4340547d3e9int;
    let e: int = lemma_squared(modulus(), common(), e, x, y);
    let x: int = y;
    let y: int = 0x58f10473dd24655ff15498c4f9269ef0714270fd6876844c720ca8d40cdefb7cint;
    let e: int = lemma_squared(modulus(), common(), e, x, y);
    let x: int = y;
    let y: int = 0x4c0bec6f949a46f677fd834c3f3b66df8663684851ab2f109117712095c88bebint;
    let e: int = lemma_squared(modulus(), common(), e, x, y);
    let x: int = y;
    let y: int = 0x324cf663014435dca14af3f1aed688d5d21f98195fad0d67a5d1093db0a7ba43int;
    let e: int = lemma_squared(modulus(), common(), e, x, y);
    let x: int = y;
    let y: int = 0x3beb04e4a69bc9cfd428a1b8c7373aafe46ed8b68574192c6afcce157954300eint;
    let e: int = lemma_squared(modulus(), common(), e, x, y);
    let x: int = y;
    let y: int = 0x234e853d32e5f4daded6b68c5df24460a1e6d9aa9a5446d1426e81826e8f0379int;
    let e: int = lemma_squared(modulus(), common(), e, x, y);
    let x: int = y;
    let y: int = 0x6c77707aab1adf8b143e39f3b11beaaf670dd4a75146f9cd5dbe2b0df8282d68int;
    let e: int = lemma_squared(modulus(), common(), e, x, y);
    let x: int = y;
    let y: int = 0x2db32b512a3414744a6f41a68f693953a515eba70484a35700aa31bc98cdbd55int;
    let e: int = lemma_squared(modulus(), common(), e, x, y);
}

/// The power of 7 with the exponent `(modulus() - 1) / 2`, over the common power.
proof fn lemma_half_power()
    ensures
        raised(
            modulus(),
            common(),
            0xd20100000001int,
            0x73eda753299d7d483339d80809a1d80553bda402fffe5bfeffffffff00000000int,
        ),
{
    lemma_half_power_3();
    let e: int = 0x69008000000int;
    let x: int = 0x2db32b512a3414744a6f41a68f693953a515eba70484a35700aa31bc98cdbd55int;
    let y: int = 0x64d9bb5451ec1f60b043d68eb7a4f6ce7fbad4ebe35e2a7bc35f06a0a6e80e8cint;
    let e: int = lemma_squared(modulus(), common(), e, x, y);
    let x: int = y;
    let y: int = 0x5f078b56d741b3b078f0870a1d1a5d9a86f93f8825af8bc48fd4d724b0c90fc7int;
    let e: int = lemma_squared(modulus(), common(), e, x, y);
    let x: int = y;
    let y: int = 0x1ff95c516e1411d8b14f70cf57ac110f5d504522d2bc912db5ee4c32c861d23aint;
    let e: int = lemma_squared(modulus(), common(), e, x, y);
    let x: int = y;
    let y: int = 0x1e8911aae795ad395434a2d0f1250961a87e4f552708c8f8e8d5de154a0b064bint;
    let e: int = lemma_squared(modulus(), common(), e, x, y);
    let x: int = y;
    let y: int = 0x73eda753299d7d483339d80809a1d80553bda402fffe5bfeffffffff00000000int;
    let e: int = lemma_squared_once_more(modulus(), common(), e, x, y);
}

proof fn lemma_second_power_1()
    ensures
        raised(
            modulus(),
            common(),
            31098,
            0x2bd2a87eaedac74a977d22a26fc270aeae933281073197117e3f274dc5c74358int,
        ),
{
    lemma_first_power(modulus(), common());
    let e: int = 1;
    let x: int = 0x5408b980649808cd37c2e17f1db833c9214e1bb03b6f6227991621e3561c6d96int;
    let y: int = 0x506738e9f1f363f967839b93cb95b3d12e4a495de9a4079b3e64266c0c016074int;
    let e: int = lemma_squared_once_more(modulus(), common(), e, x, y);
    let x: int = y;
    let y: int = 0x45de613b9cdebdbd7f649da5db9835659f5f84bc0bbdacbe2365751bf8569ddcint;
    let e: int = lemma_squared_once_more(modulus(), common(), e, x, y);
    let x: int = y;
    let y: int = 0x8b408e6d93755f480cc64b9f2e1b6c9f1c389f66df66b2efca1d10205e6bb13int;
    let e: int = lemma_squared_once_more(modulus(), common(), e, x, y);
    let x: int = y;
    let y: int = 0x4fd66f160e833ba3abc59116be442a75de5bdca5e48207c6344856949b0de1f3int;
    let e: int = lemma_squared(modulus(), common(), e, x, y);
    let x: int = y;
    let y: int = 0x693e67ef185451b98d41d922a09fa04d2e02dda629831b8f42c41c5aacaaf5f9int;
    let e: int = lemma_squared(modulus(), common(), e, x, y);
    let x: int = y;
    let y: int = 0x641b938cc16869c91c57822114ea104137adfe6e0d276369f4c6bab42343cbcaint;
    let e: int = lemma_squared_once_more(modulus(), common(), e, x, y);
    let x: int = y;
    let y: int = 0x745585db5230df0d7f6a03f7c8521ba113ad64b620bee40ea5103061fa58e55int;
    let e: int = lemma_squared(modulus(), common(), e, x, y);
    let x: int = y;
    let y: int = 0x162cd43b3b5ed8bfd5866db57467098aee01e8e28f12694e188b1feb9ff1e97cint;
    let e: int = lemma_squared_once_more(modulus(), common(), e, x, y);
    let x: int = y;
    let y: int = 0x57e7cc7049c1ad7c66c73b30678c247be81f62547d7a1f0b81a145be927f5022int;
    let e: int = lemma_squared_once_more(modulus(), common(), e, x, y);
    let x: int = y;
    let y: int = 0x3454f5763cdc1e497ff4e8fe05e7de2d939e41af8ff15f6ae237f513a2166330int;
    let e: int = lemma_squared_once_more(modulus(), common(), e, x, y);
    let x: int = y;
    let y: int = 0x34e2f168d70c44db03df22dc92df8bc6df4527b15a6e2bddee3c69942de060bcint;
    let e: int = lemma_squared_once_more(modulus(), common(), e, x, y);
    let x: int = y;
    let y: int = 0x4d042565a912e9d0ce68bbc66565aeb95b6ffd0436212fb71226f12698f2b3fdint;
    let e: int = lemma_squared(modulus(), common(), e, x, y);
    let x: int = y;
    let y: int = 0x8e6c0977fb019158d79ecab5f1736e2e74b607a529149b9fe7c85a0ea5b421eint;
    let e: int = lemma_squared_once_more(modulus(), common(), e, x, y);
    let x: int = y;
    let y: int = 0x2bd2a87eaedac74a977d22a26fc270aeae933281073197117e3f274dc5c74358int;
    let e: int = lemma_squared(modulus(), common(), e, x, y);
}

/// The power of 7 with the exponent `(modulus() - 1) / 906349`, over the common power.
proof fn lemma_second_power()
    ensures
        raised(
            modulus(),
            common(),
            509520586,
            0x67ee5d1f3b069511cd89744d5897256537cb1d8475a21d7924a57ba2b69a4d76int,
        ),
{
    lemma_second_power_1();
    let e: int = 31098;
    let x: int = 0x2bd2a87eaedac74a977d22a26fc270aeae933281073197117e3f274dc5c74358int;
    let y: int = 0x70e0a75887cb849bd68d6acb129755b27de2ba199da1072664fac3fc9e69b8e3int;
    let e: int = lemma_squared_once_more(modulus(), common(), e, x, y);
    let x: int = y;
    let y: int = 0x21adb5a1f3d958f922a0467a3c188a23dddbf01010a6553314f858cde1807a18int;
    let e: int = lemma_squared(modulus(), common(), e, x, y);
    let x: int = y;
    let y: int = 0x5d7f6207be3151a9097c29127ed9cb26c59f7f9e572d2c7470ef1044c466bbd7int;
    let e: int = lemma_squared_once_more(modulus(), common(), e, x, y);
    let x: int = y;
    let y: int = 0xa883b38154bf838f0aeb1d48cf0cac685a9c79df3adc91c983929d19a1c2a59int;
    let e: int = lemma_squared(modulus(), common(), e, x, y);
    let x: int = y;
    let y: int = 0xb17aa3ff05322f506b6356713adc3cbb054a834246d881ad84360b7ee4c3f3fint;
    let e: int = lemma_squared_once_more(modulus(), common(), e, x, y);
    let x: int = y;
    let y: int = 0x25b8c47157719d269161fc57ea7f18e0b667200201e1cdc645a721e834b0dbe6int;
    let e: int = lemma_squared(modulus(), common(), e, x, y);
    let x: int = y;
    let y: int = 0x1d38b79b7a6f492d5afa61bb14e83cb6ea733a3e528728a6e579cdb357988c1aint;
    let e: int = lemma_squared_once_more(modulus(), common(), e, x, y);
    let x: int = y;
    let y: int = 0x4e372a5455b94e76069c83c61a3df90b6109c7831a7eadfa68557414581c63f6int;
    let e: int = lemma_squared_once_more(modulus(), common(), e, x, y);
    let x: int = y;
    let y: int = 0x688f1590c214732e8d22dc72d5242ae3f75b61351818aedc1f0789bbb3fdcd09int;
    let e: int = lemma_squared(modulus(), common(), e, x, y);
    let x: int = y;
    let y: int = 0x6bfbf0363c9963b328a194de781aff0bfd99bc08a36204ecbc70ae42cdbe3244int;
    let e: int = lemma_squared(modulus(), common(), e, x, y);
    let x: int = y;
    let y: int = 0x12c8a26ad8660f47f878da339e5b5ab7cbe301e87d1fa27130bebbeb8f02e783int;
    let e: int = lemma_squared_once_more(modulus(), common(), e, x, y);
    let x: int = y;
    let y: int = 0x51f9ce7700f934830500a480faa93600813fbd2f02d640b63e7903ca30dea3d3int;
    let e: int = lemma_squared(modulus(), common(), e, x, y);
    let x: int = y;
    let y: int = 0x3f9686d1551dd05c69a9fb8146ab07a8f48a87e3f25d8a3c15e3a8f2b97905deint;
    let e: int = lemma_squared_once_more(modulus(), common(), e, x, y);
    let x: int = y;
    let y: int = 0x67ee5d1f3b069511cd89744d5897256537cb1d8475a21d7924a57ba2b69a4d76int;
    let e: int = lemma_squared(modulus(), common(), e, x, y);
}

proof fn lemma_third_power_1()
    ensures
        raised(
            modulus(),
            common(),
            28323,
            0x3e84a0387332ed6427cfba7c865ded79f364c2cb4746e0a6bfe21054c2f23408int,
        ),
{
    lemma_first_power(modulus(), common());
    let e: int = 1;
    let x: int = 0x5408b980649808cd37c2e17f1db833c9214e1bb03b6f6227991621e3561c6d96int;
    let y: int = 0x506738e9f1f363f967839b93cb95b3d12e4a495de9a4079b3e64266c0c016074int;
    let e: int = lemma_squared_once_more(modulus(), common(), e, x, y);
    let x: int = y;
    let y: int = 0xdf0e66e063ed918e0379d56c5889f993f5503be417a76d4576bedd08754e3beint;
    let e: int = lemma_squared(modulus(), common(), e, x, y);
    let x: int = y;
    let y: int = 0x1bac23cbd26d310161a1985d42afa95d9ffe7cbd68ef5c6c4f8064cfa2963eb3int;
    let e: int = lemma_squared_once_more(modulus(), common(), e, x, y);
    let x: int = y;
    let y: int = 0x3c233af3cbdf0c7f395706550c6bfd4b9fc2d50709c8c57840ec4bcb4e0b06beint;
    let e: int = lemma_squared_once_more(modulus(), common(), e, x, y);
    let x: int = y;
    let y: int = 0xdd82d9d9aeafdd3c3a5e237be0e2a7200787b2a74899a2bd8156a8b11a30171int;
    let e: int = lemma_squared_once_more(modulus(), common(), e, x, y);
    let x: int = y;
    let y: int = 0x51d1b0149499eeaba9c3415f2f7c2e78a86c6c03e5057cbc1f220442605ea65int;
    let e: int = lemma_squared(modulus(), common(), e, x, y);
    let x: int = y;
    let y: int = 0x25ec1294587edf3b5b2b54f303e97556fb6d45db7fd2ac8ff2f01bd3e8257c6eint;
    let e: int = lemma_squared_once_more(modulus(), common(), e, x, y);
    let x: int = y;
    let y: int = 0x3e2388fc4856b13bb5fa9f7279e451e2955cc50fb436db254377ca448a7075e3int;
    let e: int = lemma_squared(modulus(), common(), e, x, y);
    let x: int = y;
    let y: int = 0x468c8250279d5fc0800923bb95e21cce2151f643c995bf98ca37d374881c79c6int;
    let e: int = lemma_squared_once_more(modulus(), common(), e, x, y);
    let x: int = y;
    let y: int = 0xae84fdaba4f4b80d0e26c1ecea5fb3440389e69c9232523b8d2144d7ed365adint;
    let e: int = lemma_squared(modulus(), common(), e, x, y);
    let x: int = y;
    let y: int = 0x32a5e031016574222be96288588188b4c88fc4425cc8b260d39c81f8e56a76afint;
    let e: int = lemma_squared(modulus(), common(), e, x, y);
    let x: int = y;
    let y: int = 0x6b3330cccbf269866503988fab3ee198f7f410b0369b7a78241a9383b089a4daint;
    let e: int = lemma_squared(modulus(), common(), e, x, y);
    let x: int = y;
    let y: int = 0x3ca68183f78ab0f12327bf72cfec599a87fe842394a3b3a6a663663e66964aacint;
    let e: int = lemma_squared_once_more(modulus(), common(), e, x, y);
    let x: int = y;
    let y: int = 0x3e84a0387332ed6427cfba7c865ded79f364c2cb4746e0a6bfe21054c2f23408int;
    let e: int = lemma_squared_once_more(modulus(), common(), e, x, y);
}

/// The power of 7 with the exponent `(modulus() - 1) / 254760293`, over the common power.
proof fn lemma_third_power()
    ensures
        raised(
            modulus(),
            common(),
            1812698,
            0x4a7a5acf5dc0e762414782ae22b4119ca76fee9d4c748ed263a7435fa7fde54fint,
        ),
{
    lemma_third_power_1();
    let e: int = 28323;
    let x: int = 0x3e84a0387332ed6427cfba7c865ded79f364c2cb4746e0a6bfe21054c2f23408int;
    let y: int = 0x60854c81e98dde63a848c9cdefcbb5b3ea8bda2f0930157bae930bfd8ee1f630int;
    let e: int = lemma_squared(modulus(), common(), e, x, y);
    let x: int = y;
    let y: int = 0x49ceea65ef15f09f5f088354915d3f812aaf0cbec26f995086283c8a86604081int;
    let e: int = lemma_squared_once_more(modulus(), common(), e, x, y);
    let x: int = y;
    let y: int = 0x3624068a3b962325f014181140209548e175c1827067ecf4708dda47852ff133int;
    let e: int = lemma_squared_once_more(modulus(), common(), e, x, y);
    let x: int = y;
    let y: int = 0x2a6ef685fc03106ef74d34dea72cff76f1682df6662d47543dd0f7dbcc89a5b0int;
    let e: int = lemma_squared(modulus(), common(), e, x, y);
    let x: int = y;
    let y: int = 0x528429a99038cdf678c3785e999cdd9dcd0f0135907f3896fd8b3c36e93f6caint;
    let e: int = lemma_squared_once_more(modulus(), common(), e, x, y);
    let x: int = y;
    let y: int = 0x4a7a5acf5dc0e762414782ae22b4119ca76fee9d4c748ed263a7435fa7fde54fint;
    let e: int = lemma_squared(modulus(), common(), e, x, y);
}

proof fn lemma_modulus_is_prime()
    ensures
        is_prime(modulus()),
{
    let n: int = modulus();
    lemma_prime_2();
    lemma_prime_906349();
    lemma_prime_254760293();
    lemma_common_power();
    lemma_half_power();
    lemma_second_power();
    lemma_third_power();
    let m: int = 0x46a8e6673b018268760180013b017fff96ffffffffff80000000int;
    lemma_raised_again(
        n,
        7,
        m,
        common(),
        230901736800257,
        0x73eda753299d7d483339d80809a1d80553bda402fffe5bfeffffffff00000000int,
    );
    assert((0x73eda753299d7d483339d80809a1d80553bda402fffe5bfeffffffff00000000int - 1)
        * 0x39f6d3a994cebea4199cec0404d0ec02a9ded2017fff2dff7fffffff80000000int
        % modulus() == 1);
    lemma_stays_apart(
        n,
        7,
        2,
        0x39f6d3a994cebea4199cec0404d0ec02a9ded2017fff2dff7fffffff80000000int,
        0x73eda753299d7d483339d80809a1d80553bda402fffe5bfeffffffff00000000int,
        0x39f6d3a994cebea4199cec0404d0ec02a9ded2017fff2dff7fffffff80000000int,
    );
    lemma_raised_again(
        n,
        7,
        m,
        common(),
        509520586,
        0x67ee5d1f3b069511cd89744d5897256537cb1d8475a21d7924a57ba2b69a4d76int,
    );
    assert((0x67ee5d1f3b069511cd89744d5897256537cb1d8475a21d7924a57ba2b69a4d76int - 1)
        * 0x4073079c76e730aa62741bebe6d9531e37410dc18dff928c35a724b5ba8ff759int
        % modulus() == 1);
    lemma_stays_apart(
        n,
        7,
        906349,
        0x861ec289d183279aff9c657418da9b481ba2bf325fff0d0aa9b00000000int,
        0x67ee5d1f3b069511cd89744d5897256537cb1d8475a21d7924a57ba2b69a4d76int,
        0x4073079c76e730aa62741bebe6d9531e37410dc18dff928c35a724b5ba8ff759int,
    );
    lemma_raised_again(
        n,
        7,
        m,
        common(),
        1812698,
        0x4a7a5acf5dc0e762414782ae22b4119ca76fee9d4c748ed263a7435fa7fde54fint,
    );
    assert((0x4a7a5acf5dc0e762414782ae22b4119ca76fee9d4c748ed263a7435fa7fde54fint - 1)
        * 0x368dbd074ff9836a930809af157cff63da1b0c0f6060dce04e64605cfdc0b16aint
        % modulus() == 1);
    lemma_stays_apart(
        n,
        7,
        254760293,
        0x7a26b4feb2bc9fde20c8df96908edbb3ba7be95fffff22b9300000000int,
        0x4a7a5acf5dc0e762414782ae22b4119ca76fee9d4c748ed263a7435fa7fde54fint,
        0x368dbd074ff9836a930809af157cff63da1b0c0f6060dce04e64605cfdc0b16aint,
    );
    let e: int = lemma_squared(
        n,
        7,
        0x39f6d3a994cebea4199cec0404d0ec02a9ded2017fff2dff7fffffff80000000int,
        0x73eda753299d7d483339d80809a1d80553bda402fffe5bfeffffffff00000000int,
        1,
    );
    lemma_exponents();
    lemma_multiple(4294967296, 0x73eda753299d7d483339d80809a1d80553bda402fffe5bfeffffffffint);
    lemma_multiple(821468509801, 0x9b2aac5cb03735abfa2ea182f30c744caba516b26dc62700000000int);
    lemma_multiple(64902806889445849, 0x80b545f0d087b8c661c9f1b1914356b5a9bca9499700000000int);
    assert(pow(2, 32) * pow(906349, 2) == 0xbf4356b66900000000int);
    assert(pow(2, 32) * pow(906349, 2) * pow(254760293, 2)
        == 0xac45a4010001a4020000000100000000int);
    lemma_prime_by_three(n, 7, (2, 32), (906349, 2), (254760293, 2));
}

proof fn lemma_prime_2()
    ensures
        is_prime(2),
{
}

/// The powers of primes that divide the predecessor of the order.
proof fn lemma_exponents()
    ensures
        pow(2, 32) == 4294967296,
        pow(906349, 2) == 821468509801,
        pow(254760293, 2) == 64902806889445849,
{
    lemma_pow1(906349);
    lemma_pow_adds(906349, 1, 1);
    lemma_pow1(254760293);
    lemma_pow_adds(254760293, 1, 1);
    lemma_pow1(2);
    lemma_pow_adds(2, 1, 1);
    assert(pow(2, 2) == 4);
    lemma_pow_adds(2, 2, 2);
    assert(pow(2, 4) == 16);
    lemma_pow_adds(2, 4, 4);
    assert(pow(2, 8) == 256);
    lemma_pow_adds(2, 8, 8);
    assert(pow(2, 16) == 65536);
    lemma_pow_adds(2, 16, 16);
}

/// The order of the groups is prime.
pub proof fn lemma_order_is_prime()
    ensures
        is_prime(order()),
{
    lemma_modulus_is_prime();
    reveal(order);
}

/// Every residue but zero has an inverse.
pub proof fn lemma_nonzero_is_unit(a: int)
    requires
        !cong(a, 0),
    ensures
        is_unit(a),
{
    lemma_order_is_prime();
    lemma_reduce(a);
    lemma_one();
    let r = a % order();
    let b = lemma_prime_inverse(order(), r);
    lemma_cong_mul(r, a, b, b);
    assert(cong(a * b, 1));
}

/// A product is zero only where one of its factors is.
pub proof fn lemma_no_zero_divisors(a: int, b: int)
    requires
        cong(a * b, 0),
    ensures
        cong(a, 0) || cong(b, 0),
{
    lemma_order_is_prime();
    lemma_one();
    lemma_euclid(order(), a, b);
}

/// A factor that is not zero can be cancelled.
pub proof fn lemma_cancel_nonzero(a: int, x: int, y: int)
    requires
        !cong(a, 0),
        cong(a * x, a * y),
    ensures
        cong(x, y),
{
    lemma_cong_diff(a * x, a * y);
    assert(a * x - a * y == a * (x - y)) by (nonlinear_arith);
    lemma_no_zero_divisors(a, x - y);
    lemma_cong_diff(x, y);
}

/// Weighted sums of sequences that differ in one place only differ, where its weight is not
/// zero.
pub proof fn lemma_one_difference(a: Seq<int>, b: Seq<int>, weights: Seq<int>, place: int)
    requires
        a.len() == b.len(),
        0 <= place < a.len(),
        forall|i: int| 0 <= i < a.len() && i != place ==> cong(#[trigger] a[i], b[i]),
        !cong(a[place], b[place]),
        !cong(weights[place], 0),
    ensures
        !cong(dot(a, weights), dot(b, weights)),
{
    let n = a.len() as int;
    let f = products(a, weights);
    let g = products(b, weights);
    let h = |i: int| f(i) - g(i);
    let target = |i: int| if i == place { h(place) } else { 0 };
    lemma_sum_sub(f, g, h, 0, n);
    assert forall|i: int| 0 <= i < n implies cong(#[trigger] h(i), target(i)) by {
        if i != place {
            assert(cong(a[i], b[i]));
            lemma_cong_mul(a[i], b[i], weights[i], weights[i]);
            lemma_cong_diff(f(i), g(i));
        }
    }
    lemma_sum_cong(h, target, 0, n);
    lemma_sum_single(target, 0, n, place);
    lemma_cong_diff(dot(a, weights), dot(b, weights));
    if cong(dot(a, weights), dot(b, weights)) {
        let (x, y, w) = (a[place], b[place], weights[place]);
        assert(x * w - y * w == (x - y) * w) by (nonlinear_arith);
        lemma_no_zero_divisors(x - y, w);
        lemma_cong_diff(x, y);
    }
}

/// Where two sequences differ at a place, their sums of products with weights are the same for at
/// most one weight of that place.
pub proof fn lemma_one_weight(
    a: Seq<int>,
    b: Seq<int>,
    weights: Seq<int>,
    others: Seq<int>,
    place: int,
)
    requires
        a.len() == b.len() == weights.len() == others.len(),
        0 <= place < a.len(),
        !cong(a[place], b[place]),
        forall|i: int| 0 <= i < a.len() && i != place ==> #[trigger] weights[i] == others[i],
        !cong(weights[place], others[place]),
        cong(dot(a, weights), dot(b, weights)),
    ensures
        !cong(dot(a, others), dot(b, others)),
{
    let n = a.len() as int;
    let d = Seq::new(a.len(), |i: int| a[i] - b[i]);
    lemma_cong_diff(a[place], b[place]);
    lemma_difference(a, b, weights, d);
    lemma_difference(a, b, others, d);
    assert forall|i: int| 0 <= i < n && i != place implies cong(
        #[trigger] weights[i],
        others[i],
    ) by {}
    lemma_one_difference(weights, others, d, place);
    lemma_cong_diff(dot(a, weights), dot(b, weights));
    lemma_cong_diff(dot(a, others), dot(b, others));
}

proof fn lemma_difference(a: Seq<int>, b: Seq<int>, weights: Seq<int>, d: Seq<int>)
    requires
        a.len() == b.len() == weights.len() == d.len(),
        forall|i: int| 0 <= i < a.len() ==> #[trigger] d[i] == a[i] - b[i],
    ensures
        dot(weights, d) == dot(a, weights) - dot(b, weights),
{
    let (f, g, h) = (products(a, weights), products(b, weights), products(weights, d));
    assert forall|i: int| 0 <= i < a.len() implies #[trigger] h(i) == f(i) - g(i) by {
        let (x, y, w) = (a[i], b[i], weights[i]);
        assert(d[i] == x - y);
        assert(w * (x - y) == x * w - y * w) by (nonlinear_arith);
    }
    lemma_sum_sub(f, g, h, 0, a.len() as int);
}

} // verus!
