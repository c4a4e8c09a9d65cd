//! Trusted setup.
use vstd::arithmetic::power::{lemma_pow0, lemma_pow1, lemma_pow_adds, pow};
use vstd::prelude::*;

use crate::algebra::dft::dft;
use crate::algebra::lagrange::eval;
use crate::algebra::residue::{
    lemma_cong_add, lemma_cong_mul, lemma_one, lemma_order, lemma_reduce, lemma_reduce_ops,
    lemma_reduced, order,
};
use crate::curve::views;
use crate::fft::{is_domain_size, is_least_power, lemma_small_domain, next_power_of_two, size_root};
use crate::points::power_range;
use crate::polynomial::lemma_horner;
use crate::sampling::{lemma_row, nested_views};
use crate::simple_bte::ark::{
    ark_pair, draw_ark_scalars, ArkDomain, ArkG1, ArkG2, ArkScalar, RandomSource,
};
use crate::simple_bte::keys::{DecryptionKey, EncryptionKey, SecretKey};

verus! {

/// The shares of the powers `1..` of the secret that the party at `x` holds: the values
/// there of the polynomials with those powers as constants and the given tails.
pub open spec fn share_row(tau: int, tails: Seq<Seq<int>>, x: int) -> Seq<int> {
    Seq::new(
        tails.len(),
        |i: int| eval(seq![pow(tau, (i + 1) as nat) % order()] + tails[i], x) % order(),
    )
}

/// The published powers of the secret: all up to `2 b`, without the power `b + 1`.
pub open spec fn h_powers(tau: int, b: int) -> Seq<int> {
    Seq::new(
        (2 * b + 1) as nat,
        |j: int|
            if j == b + 1 {
                0
            } else {
                pow(tau, j as nat) % order()
            },
    )
}

/// The circular vector of powers: at `d` the power that lies `d` below the one left out,
/// where `d` counts cyclically.
pub open spec fn h_kernel(h: Seq<int>, b: int, n: int) -> Seq<int> {
    Seq::new(
        n as nat,
        |d: int|
            if d < b {
                h[b + 1 - d]
            } else if n - d < b {
                h[b + 1 + (n - d)]
            } else {
                0
            },
    )
}

impl DecryptionKey {
    /// Whether the key is what the secret and the tails of the sharing polynomials give.
    pub open spec fn is_generated(&self, tau: int, tails: Seq<Seq<int>>) -> bool {
        let b = self.batch_size as int;
        let n = self.fft_size as int;
        &&& self.wf()
        &&& tails.len() == b
        &&& is_least_power(n, 2 * b)
        &&& views(self.powers_of_h_affine@) == h_powers(tau, b)
        &&& forall|j: int|
            0 <= j < self.num_parties ==> views((#[trigger] self.verification_keys@[j])@)
                == share_row(tau, tails, j + 1)
        &&& forall|k: int|
            0 <= k < n ==> (#[trigger] self.fft_h@[k])@ == dft(
                h_kernel(h_powers(tau, b), b, n),
                size_root(n),
                k,
            ) % order()
    }
}

impl SecretKey {
    /// Whether this is the key of party `party`, counted from one.
    pub open spec fn is_key_of(&self, party: int, tau: int, tails: Seq<Seq<int>>) -> bool {
        &&& self.party_index == party
        &&& views(self.shares@) == share_row(tau, tails, party)
    }
}

/// Whether there is a tail of `threshold - 1` coefficients for every slot.
pub open spec fn tails_fit(batch_size: int, threshold: int, tails: Seq<Seq<int>>) -> bool {
    &&& tails.len() == batch_size
    &&& forall|i: int| 0 <= i < tails.len() ==> (#[trigger] tails[i]).len() == threshold - 1
}

/// Whether keys can be set up with these numbers.
pub open spec fn can_set_up(batch_size: usize, num_parties: usize, threshold: usize) -> bool {
    &&& 1 <= threshold <= num_parties
    &&& 1 <= batch_size
    &&& 2 * batch_size <= 0x1_0000_0000
    &&& 4 * batch_size <= usize::MAX
}

/// Whether keys are what the secret and the tails give.
pub open spec fn is_setup(
    keys: (EncryptionKey, DecryptionKey, Vec<SecretKey>),
    batch_size: usize,
    num_parties: usize,
    threshold: usize,
    tau: int,
    tails: Seq<Seq<int>>,
) -> bool {
    &&& keys.0.e@ == pow(tau, (batch_size + 1) as nat) % order()
    &&& keys.1.batch_size == batch_size
    &&& keys.1.num_parties == num_parties
    &&& keys.1.threshold == threshold
    &&& keys.1.is_generated(tau, tails)
    &&& keys.2@.len() == num_parties
    &&& forall|j: int|
        0 <= j < num_parties ==> (#[trigger] keys.2@[j]).is_key_of(j + 1, tau, tails)
}

/// The value at `x` of the polynomial with the given coefficients, the constant one first.
pub fn eval_poly(coeffs: &Vec<ArkScalar>, x: ArkScalar) -> (value: ArkScalar)
    ensures
        value@ == eval(views(coeffs@), x@) % order(),
{
    let ghost c = views(coeffs@);
    let mut value = ArkScalar::zero();
    let mut left: usize = coeffs.len();
    proof {
        assert(c.skip(left as int).len() == 0);
        lemma_one();
    }
    while left > 0
        invariant
            left <= coeffs@.len() == c.len(),
            c == views(coeffs@),
            value@ == eval(c.skip(left as int), x@) % order(),
        decreases left,
    {
        left = left - 1;
        let product = value.times(x);
        let next = product.plus(coeffs[left]);
        proof {
            let tail = c.skip(left + 1);
            let e = eval(tail, x@);
            lemma_horner(c.skip(left as int), x@);
            assert(c.skip(left as int).drop_first() =~= tail);
            lemma_reduce(e);
            lemma_cong_mul(value@, e, x@, x@);
            lemma_reduce(value@ * x@);
            assert(e * x@ == x@ * e) by (nonlinear_arith);
            lemma_cong_add(product@, x@ * e, c[left as int], c[left as int]);
        }
        value = next;
    }
    assert(c.skip(0) =~= c);
    value
}

/// The powers `0..count` of a scalar.
fn tau_powers_of(tau: ArkScalar, count: usize) -> (powers: Vec<ArkScalar>)
    ensures
        views(powers@) == power_range(tau@, 0, count as int),
{
    let mut powers: Vec<ArkScalar> = Vec::new();
    let mut next = ArkScalar::one();
    proof {
        lemma_pow0(tau@);
        lemma_one();
    }
    while powers.len() < count
        invariant
            powers@.len() <= count,
            next@ == pow(tau@, powers@.len()) % order(),
            forall|i: int|
                0 <= i < powers@.len() ==> (#[trigger] powers@[i])@ == pow(tau@, i as nat)
                    % order(),
        decreases count - powers@.len(),
    {
        let ghost exponent = powers@.len();
        powers.push(next);
        proof {
            lemma_pow1(tau@);
            lemma_pow_adds(tau@, exponent, 1);
            lemma_reduce(pow(tau@, exponent));
            lemma_cong_mul(next@, pow(tau@, exponent), tau@, tau@);
        }
        next = next.times(tau);
    }
    assert(views(powers@) =~= power_range(tau@, 0, count as int));
    powers
}

/// The shares of the party at `x`.
fn shares_of(
    party_index: usize,
    tau_powers: &Vec<ArkScalar>,
    tails: &Vec<Vec<ArkScalar>>,
    Ghost(tau): Ghost<int>,
) -> (shares: Vec<ArkScalar>)
    requires
        tails@.len() < tau_powers@.len(),
        views(tau_powers@) == power_range(tau, 0, tau_powers@.len() as int),
    ensures
        views(shares@) == share_row(tau, nested_views(tails@), party_index as int),
{
    let x = ArkScalar::from_u64(party_index as u64);
    proof {
        lemma_order();
        lemma_reduced(party_index as int);
    }
    let ghost rows = nested_views(tails@);
    let mut shares: Vec<ArkScalar> = Vec::new();
    while shares.len() < tails.len()
        invariant
            shares@.len() <= tails@.len() < tau_powers@.len(),
            views(tau_powers@) == power_range(tau, 0, tau_powers@.len() as int),
            rows == nested_views(tails@),
            x@ == party_index,
            forall|i: int|
                0 <= i < shares@.len() ==> (#[trigger] shares@[i])@ == share_row(
                    tau,
                    rows,
                    party_index as int,
                )[i],
        decreases tails@.len() - shares@.len(),
    {
        let index = shares.len();
        let mut coeffs: Vec<ArkScalar> = Vec::new();
        coeffs.push(tau_powers[index + 1]);
        let mut position: usize = 0;
        while position < tails[index].len()
            invariant
                index < tails@.len() < tau_powers@.len(),
                position <= tails@[index as int]@.len(),
                coeffs@ == seq![tau_powers@[index + 1]] + tails@[index as int]@.take(
                    position as int,
                ),
            decreases tails@[index as int]@.len() - position,
        {
            coeffs.push(tails[index][position]);
            position = position + 1;
            assert(coeffs@ =~= seq![tau_powers@[index + 1]] + tails@[index as int]@.take(
                position as int,
            ));
        }
        proof {
            let i = index as int;
            assert(views(tau_powers@)[i + 1] == pow(tau, (i + 1) as nat) % order());
            assert(views(coeffs@) =~= seq![pow(tau, (i + 1) as nat) % order()] + rows[i]);
        }
        shares.push(eval_poly(&coeffs, x));
    }
    assert(views(shares@) =~= share_row(tau, rows, party_index as int));
    shares
}

/// The transform of the circular vector of powers.
fn transform_powers(b: usize, fft_domain: &ArkDomain, fft_size: usize, h_affine: &Vec<ArkG2>) -> (fft_h:
    Vec<ArkG2>)
    requires
        1 <= b,
        2 * b <= fft_size,
        is_domain_size(fft_size as int),
        fft_domain.spec_size() == fft_size,
        h_affine@.len() == 2 * b + 1,
    ensures
        fft_h@.len() == fft_size,
        forall|k: int|
            0 <= k < fft_size ==> (#[trigger] fft_h@[k])@ == dft(
                h_kernel(views(h_affine@), b as int, fft_size as int),
                size_root(fft_size as int),
                k,
            ) % order(),
{
    let ghost kernel = h_kernel(views(h_affine@), b as int, fft_size as int);
    let mut b_vec: Vec<ArkG2> = Vec::new();
    while b_vec.len() < fft_size
        invariant
            1 <= b,
            2 * b <= fft_size,
            h_affine@.len() == 2 * b + 1,
            kernel == h_kernel(views(h_affine@), b as int, fft_size as int),
            b_vec@.len() <= fft_size,
            forall|d: int| 0 <= d < b_vec@.len() ==> (#[trigger] b_vec@[d])@ == kernel[d],
        decreases fft_size - b_vec@.len(),
    {
        let d = b_vec.len();
        if d < b {
            b_vec.push(h_affine[b + 1 - d]);
        } else if fft_size - d < b {
            b_vec.push(h_affine[b + 1 + (fft_size - d)]);
        } else {
            b_vec.push(ArkG2::zero());
        }
    }
    assert(views(b_vec@) =~= kernel);
    fft_domain.fft_g2(&b_vec)
}

/// The keys for the given secret and tails of the sharing polynomials.
pub fn setup_with_scalars(
    batch_size: usize,
    num_parties: usize,
    threshold: usize,
    tau: ArkScalar,
    tails: &Vec<Vec<ArkScalar>>,
) -> (keys: (EncryptionKey, DecryptionKey, Vec<SecretKey>))
    requires
        can_set_up(batch_size, num_parties, threshold),
        tails_fit(batch_size as int, threshold as int, nested_views(tails@)),
    ensures
        is_setup(keys, batch_size, num_parties, threshold, tau@, nested_views(tails@)),
{
    let b = batch_size;
    let ghost secret = tau@;
    let ghost rows = nested_views(tails@);
    let tau_powers = tau_powers_of(tau, 2 * b + 1);
    let ghost all = views(tau_powers@);
    assert(all.len() == 2 * b + 1);
    let mut tau_for_groups: Vec<ArkScalar> = Vec::new();
    while tau_for_groups.len() < 2 * b + 1
        invariant
            1 <= b,
            4 * b <= usize::MAX,
            tau_powers@.len() == 2 * b + 1,
            all == views(tau_powers@),
            all == power_range(secret, 0, 2 * b + 1),
            tau_for_groups@.len() <= 2 * b + 1,
            forall|j: int|
                0 <= j < tau_for_groups@.len() ==> (#[trigger] tau_for_groups@[j])@ == h_powers(
                    secret,
                    b as int,
                )[j],
        decreases 2 * b + 1 - tau_for_groups@.len(),
    {
        let j = tau_for_groups.len();
        if j == b + 1 {
            tau_for_groups.push(ArkScalar::zero());
        } else {
            assert(all[j as int] == pow(secret, (0 + j) as nat) % order());
            tau_for_groups.push(tau_powers[j]);
        }
    }
    assert(views(tau_for_groups@) =~= h_powers(secret, b as int));
    let g_affine = ArkG1::batch_mul(&tau_for_groups);
    let h_affine = ArkG2::batch_mul(&tau_for_groups);
    let e = ark_pair(g_affine[b], h_affine[1]);
    proof {
        assert(views(g_affine@)[b as int] == pow(secret, b as nat) % order());
        assert(views(h_affine@)[1] == pow(secret, 1) % order());
        lemma_pow_adds(secret, b as nat, 1);
        lemma_reduce_ops(pow(secret, b as nat), pow(secret, 1));
    }
    let mut secret_keys: Vec<SecretKey> = Vec::new();
    let mut verification_keys: Vec<Vec<ArkG2>> = Vec::new();
    while secret_keys.len() < num_parties
        invariant
            b == tails@.len(),
            2 * b + 1 <= usize::MAX,
            tau_powers@.len() == 2 * b + 1,
            views(tau_powers@) == power_range(secret, 0, 2 * b + 1),
            rows == nested_views(tails@),
            secret_keys@.len() == verification_keys@.len() <= num_parties,
            forall|j: int|
                0 <= j < secret_keys@.len() ==> (#[trigger] secret_keys@[j]).is_key_of(
                    j + 1,
                    secret,
                    rows,
                ),
            forall|j: int|
                0 <= j < secret_keys@.len() ==> views((#[trigger] verification_keys@[j])@)
                    == share_row(secret, rows, j + 1),
        decreases num_parties - secret_keys@.len(),
    {
        let party_index = secret_keys.len() + 1;
        let shares = shares_of(party_index, &tau_powers, tails, Ghost(secret));
        verification_keys.push(ArkG2::batch_mul(&shares));
        secret_keys.push(SecretKey { shares, party_index });
    }
    let fft_size: usize = match next_power_of_two(2 * b) {
        Some(size) => size,
        None => 2 * b,
    };
    proof {
        lemma_small_domain(fft_size as int);
        assert forall|j: int| 0 <= j < num_parties implies (
        #[trigger] verification_keys@[j])@.len() == b by {
            assert(views(verification_keys@[j]@).len() == share_row(secret, rows, j + 1).len());
        }
    }
    let fft_domain = ArkDomain::new(fft_size);
    let fft_h = transform_powers(b, &fft_domain, fft_size, &h_affine);
    let dk = DecryptionKey {
        batch_size,
        num_parties,
        threshold,
        powers_of_h_affine: h_affine,
        verification_keys,
        fft_size,
        fft_domain,
        fft_h,
    };
    (EncryptionKey { e }, dk, secret_keys)
}

/// Keys with a secret and sharing polynomials drawn from `rng`, in this order.
pub fn setup<R: RandomSource>(
    batch_size: usize,
    num_parties: usize,
    threshold: usize,
    rng: &mut R,
) -> (keys: (EncryptionKey, DecryptionKey, Vec<SecretKey>))
    requires
        can_set_up(batch_size, num_parties, threshold),
    ensures
        exists|tau: int, tails: Seq<Seq<int>>|
            final(rng).drawn_scalars() == old(rng).drawn_scalars() + seq![tau] + tails.flatten()
                && tails_fit(batch_size as int, threshold as int, tails) && #[trigger] is_setup(
                keys,
                batch_size,
                num_parties,
                threshold,
                tau,
                tails,
            ),
        final(rng).drawn_keys() == old(rng).drawn_keys(),
{
    let ghost start = rng.drawn_scalars();
    let tau = rng.random_ark_scalar();
    let mut tails: Vec<Vec<ArkScalar>> = Vec::new();
    assert(nested_views(tails@).flatten() =~= Seq::<int>::empty());
    assert(rng.drawn_scalars() =~= start + seq![tau@] + nested_views(tails@).flatten());
    while tails.len() < batch_size
        invariant
            1 <= threshold,
            tails@.len() <= batch_size,
            rng.drawn_keys() == old(rng).drawn_keys(),
            rng.drawn_scalars() == start + seq![tau@] + nested_views(tails@).flatten(),
            forall|i: int|
                0 <= i < tails@.len() ==> (#[trigger] tails@[i])@.len() == threshold - 1,
        decreases batch_size - tails@.len(),
    {
        let ghost earlier = nested_views(tails@);
        let tail = draw_ark_scalars(rng, threshold - 1);
        let ghost last = views(tail@);
        tails.push(tail);
        proof {
            earlier.lemma_flatten_push(last);
            assert(nested_views(tails@) =~= earlier.push(last));
            assert(rng.drawn_scalars() =~= start + seq![tau@] + nested_views(tails@).flatten());
        }
    }
    proof {
        let rows = nested_views(tails@);
        assert forall|i: int| 0 <= i < rows.len() implies (#[trigger] rows[i]).len() == threshold
            - 1 by {
            assert(tails@[i]@.len() == threshold - 1);
        }
        assert(tails_fit(batch_size as int, threshold as int, rows));
    }
    setup_with_scalars(batch_size, num_parties, threshold, tau, &tails)
}

/// The secret is the first scalar that the source drew, and the sharing polynomials are those
/// behind it in their order: what the key hides messages with, what is published and every
/// party's every share follow from them. The power that messages are hidden with is not among
/// the published ones.
pub proof fn law_keys_follow_their_draws(
    keys: (EncryptionKey, DecryptionKey, Vec<SecretKey>),
    batch_size: usize,
    num_parties: usize,
    threshold: usize,
    tau: int,
    tails: Seq<Seq<int>>,
    draws: Seq<int>,
)
    requires
        1 <= threshold,
        tails_fit(batch_size as int, threshold as int, tails),
        is_setup(keys, batch_size, num_parties, threshold, tau, tails),
        draws == seq![tau] + tails.flatten(),
    ensures
        ({
            let b = batch_size as int;
            let degree = threshold - 1;
            &&& draws.len() == 1 + b * degree
            &&& keys.0.e@ == pow(draws[0], (b + 1) as nat) % order()
            &&& keys.1.powers_of_h_affine@.len() == 2 * b + 1
            &&& forall|i: int|
                0 <= i <= 2 * b ==> (#[trigger] keys.1.powers_of_h_affine@[i])@ == if i == b + 1 {
                    0
                } else {
                    pow(draws[0], i as nat) % order()
                }
            &&& keys.2@.len() == num_parties
            &&& forall|j: int, i: int|
                0 <= j < num_parties && 0 <= i < b ==> (#[trigger] keys.2@[j].shares@[i])@ == eval(
                    seq![pow(draws[0], (i + 1) as nat) % order()] + draws.subrange(
                        1 + i * degree,
                        1 + (i + 1) * degree,
                    ),
                    j + 1,
                ) % order()
        }),
{
    let b = batch_size as int;
    let degree = threshold - 1;
    lemma_row(tails, degree, 0);
    assert(draws[0] == tau);
    assert(views(keys.1.powers_of_h_affine@).len() == keys.1.powers_of_h_affine@.len());
    assert forall|i: int| 0 <= i <= 2 * b implies (#[trigger] keys.1.powers_of_h_affine@[i])@
        == if i == b + 1 {
        0
    } else {
        pow(draws[0], i as nat) % order()
    } by {
        assert(views(keys.1.powers_of_h_affine@)[i] == h_powers(tau, b)[i]);
    }
    assert forall|j: int, i: int| 0 <= j < num_parties && 0 <= i < b implies (
    #[trigger] keys.2@[j].shares@[i])@ == eval(
        seq![pow(draws[0], (i + 1) as nat) % order()] + draws.subrange(
            1 + i * degree,
            1 + (i + 1) * degree,
        ),
        j + 1,
    ) % order() by {
        lemma_row(tails, degree, i);
        assert(keys.2@[j].is_key_of(j + 1, tau, tails));
        let shares = keys.2@[j].shares@;
        assert(views(shares).len() == shares.len() == b);
        assert(views(shares)[i] == share_row(tau, tails, j + 1)[i]);
        assert(tails[i] =~= draws.subrange(1 + i * degree, 1 + (i + 1) * degree));
    }
}

} // verus!
