//! Weighted committees: every unit of a party's weight is a virtual share, and
//! the virtual shares of a party are consecutive.
use vstd::arithmetic::power::{lemma_pow0, lemma_pow1, lemma_pow_multiplies, pow};
use vstd::arithmetic::power2::pow2;
use vstd::prelude::*;

use crate::algebra::dft::{dft, dft_terms, padded};
use crate::algebra::lagrange::{eval, poly_terms};
use crate::algebra::residue::{
    cong, lemma_cong_add, lemma_cong_mul, lemma_cong_pow, lemma_one, lemma_reduce, lemma_reduced,
    order,
};
use crate::algebra::roots::is_power_of_two;
use crate::algebra::sums::{lemma_sum_cong, lemma_sum_split, lemma_sum_zero, sum};
use crate::curve::{views, Element, Fr};
use crate::fft::{is_domain_size, is_least_power, next_power_of_two, size_root, Radix2Domain};
use crate::interpolation::root_points;
use crate::points::pad;

verus! {

/// The sum of weights.
pub open spec fn total(weights: Seq<usize>) -> int
    decreases weights.len(),
{
    if weights.len() == 0 {
        0
    } else {
        total(weights.drop_last()) + weights.last()
    }
}

/// The number of the first virtual share of a party.
pub open spec fn offset(weights: Seq<usize>, party: int) -> int {
    total(weights.take(party))
}

/// Whether the offsets are those of the weights, with the total at the end.
pub open spec fn are_offsets(offsets: Seq<usize>, weights: Seq<usize>) -> bool {
    &&& offsets.len() == weights.len() + 1
    &&& forall|i: int| 0 <= i <= weights.len() ==> #[trigger] offsets[i] == offset(weights, i)
}

/// The party that a virtual share belongs to.
pub open spec fn owner(weights: Seq<usize>, virtual_index: int) -> int {
    choose|party: int|
        0 <= party < weights.len() && #[trigger] offset(weights, party) <= virtual_index < offset(
            weights,
            party + 1,
        )
}

pub proof fn lemma_offset_step(weights: Seq<usize>, party: int)
    requires
        0 <= party < weights.len(),
    ensures
        offset(weights, party + 1) == offset(weights, party) + weights[party],
        offset(weights, 0) == 0,
{
    assert(weights.take(party + 1).drop_last() =~= weights.take(party));
    assert(weights.take(party + 1).last() == weights[party]);
}

pub proof fn lemma_offset_order(weights: Seq<usize>, a: int, b: int)
    requires
        0 <= a <= b <= weights.len(),
    ensures
        0 <= offset(weights, a) <= offset(weights, b) <= total(weights),
    decreases weights.len() - a + b,
{
    lemma_total_nonnegative(weights.take(a));
    if a < b {
        lemma_offset_order(weights, a, b - 1);
        lemma_offset_step(weights, b - 1);
        if b < weights.len() {
            lemma_offset_to_total(weights, b);
        } else {
            assert(weights.take(b) =~= weights);
        }
    } else {
        lemma_offset_to_total(weights, a);
    }
}

proof fn lemma_total_nonnegative(weights: Seq<usize>)
    ensures
        total(weights) >= 0,
    decreases weights.len(),
{
    if weights.len() > 0 {
        lemma_total_nonnegative(weights.drop_last());
    }
}

proof fn lemma_offset_to_total(weights: Seq<usize>, a: int)
    requires
        0 <= a <= weights.len(),
    ensures
        offset(weights, a) <= total(weights),
        offset(weights, weights.len() as int) == total(weights),
    decreases weights.len() - a,
{
    assert(weights.take(weights.len() as int) =~= weights);
    if a < weights.len() {
        lemma_offset_step(weights, a);
        lemma_offset_to_total(weights, a + 1);
    }
}

/// A virtual share belongs to the party whose range it lies in.
pub proof fn lemma_owner(weights: Seq<usize>, party: int, virtual_index: int)
    requires
        0 <= party < weights.len(),
        offset(weights, party) <= virtual_index < offset(weights, party + 1),
    ensures
        owner(weights, virtual_index) == party,
{
    let other = owner(weights, virtual_index);
    assert(0 <= other < weights.len() && offset(weights, other) <= virtual_index < offset(
        weights,
        other + 1,
    ));
    if other < party {
        lemma_offset_order(weights, other + 1, party);
    } else if party < other {
        lemma_offset_order(weights, party + 1, other);
    }
}

/// Every virtual share has an owner.
pub proof fn lemma_has_owner(weights: Seq<usize>, virtual_index: int)
    requires
        0 <= virtual_index < total(weights),
    ensures
        0 <= owner(weights, virtual_index) < weights.len(),
        offset(weights, owner(weights, virtual_index)) <= virtual_index < offset(
            weights,
            owner(weights, virtual_index) + 1,
        ),
{
    let party = find_owner(weights, virtual_index);
    lemma_find_owner(weights, virtual_index);
    lemma_owner(weights, party, virtual_index);
}

spec fn find_owner(weights: Seq<usize>, virtual_index: int) -> int
    decreases weights.len(),
{
    if weights.len() == 0 || virtual_index >= total(weights.drop_last()) {
        weights.len() - 1
    } else {
        find_owner(weights.drop_last(), virtual_index)
    }
}

proof fn lemma_find_owner(weights: Seq<usize>, virtual_index: int)
    requires
        0 <= virtual_index < total(weights),
    ensures
        0 <= find_owner(weights, virtual_index) < weights.len(),
        offset(weights, find_owner(weights, virtual_index)) <= virtual_index < offset(
            weights,
            find_owner(weights, virtual_index) + 1,
        ),
    decreases weights.len(),
{
    let n = weights.len() as int;
    let shorter = weights.drop_last();
    assert(weights.take(n) =~= weights);
    assert(weights.take(n - 1) =~= shorter);
    if virtual_index < total(shorter) {
        lemma_find_owner(shorter, virtual_index);
        let party = find_owner(shorter, virtual_index);
        assert(shorter.take(party) =~= weights.take(party));
        assert(shorter.take(party + 1) =~= weights.take(party + 1));
    }
}

/// The sum of weights, where a `usize` can hold it.
pub fn total_weight(weights: &Vec<usize>) -> (result: Option<usize>)
    ensures
        match result {
            Some(sum) => sum == total(weights@),
            None => total(weights@) > usize::MAX,
        },
{
    let mut sum: usize = 0;
    let mut index: usize = 0;
    while index < weights.len()
        invariant
            index <= weights@.len(),
            sum == offset(weights@, index as int),
        decreases weights@.len() - index,
    {
        proof {
            lemma_offset_step(weights@, index as int);
            lemma_offset_order(weights@, index + 1, weights@.len() as int);
        }
        match sum.checked_add(weights[index]) {
            Some(next) => {
                sum = next;
            },
            None => {
                return None;
            },
        }
        index = index + 1;
    }
    assert(weights@.take(index as int) =~= weights@);
    Some(sum)
}

/// The offsets of the parties' ranges, and the total at the end, where a `usize`
/// can hold them.
pub fn prefix_offsets(weights: &Vec<usize>) -> (result: Option<Vec<usize>>)
    ensures
        match result {
            Some(offsets) => are_offsets(offsets@, weights@) && total(weights@) <= usize::MAX,
            None => total(weights@) > usize::MAX,
        },
{
    let mut offsets: Vec<usize> = Vec::new();
    offsets.push(0);
    let mut index: usize = 0;
    while index < weights.len()
        invariant
            index <= weights@.len(),
            offsets@.len() == index + 1,
            forall|i: int| 0 <= i <= index ==> #[trigger] offsets@[i] == offset(weights@, i),
        decreases weights@.len() - index,
    {
        proof {
            lemma_offset_step(weights@, index as int);
            lemma_offset_order(weights@, index + 1, weights@.len() as int);
        }
        match offsets[index].checked_add(weights[index]) {
            Some(next) => {
                offsets.push(next);
            },
            None => {
                return None;
            },
        }
        index = index + 1;
    }
    assert(weights@.take(index as int) =~= weights@);
    assert(offsets@[index as int] == offset(weights@, index as int));
    Some(offsets)
}

/// The owner of every virtual share.
pub fn owners_from_offsets(offsets: &Vec<usize>, Ghost(weights): Ghost<Seq<usize>>) -> (owners: Vec<
    usize,
>)
    requires
        are_offsets(offsets@, weights),
    ensures
        owners@.len() == total(weights),
        forall|i: int|
            0 <= i < owners@.len() ==> #[trigger] owners@[i] == owner(weights, i) && owners@[i]
                < weights.len(),
{
    let mut owners: Vec<usize> = Vec::new();
    let mut party: usize = 0;
    let party_count: usize = offsets.len() - 1;
    while party < party_count
        invariant
            are_offsets(offsets@, weights),
            party_count == weights.len(),
            party <= party_count,
            owners@.len() == offset(weights, party as int),
            forall|i: int|
                0 <= i < owners@.len() ==> #[trigger] owners@[i] == owner(weights, i) && owners@[i]
                    < weights.len(),
        decreases party_count - party,
    {
        let end = offsets[party + 1];
        proof {
            lemma_offset_step(weights, party as int);
        }
        while owners.len() < end
            invariant
                party < party_count == weights.len(),
                end == offset(weights, party + 1),
                offset(weights, party as int) <= owners@.len() <= end,
                forall|i: int|
                    0 <= i < owners@.len() ==> #[trigger] owners@[i] == owner(weights, i)
                        && owners@[i] < weights.len(),
            decreases end - owners@.len(),
        {
            proof {
                lemma_owner(weights, party as int, owners@.len() as int);
            }
            owners.push(party);
        }
        party = party + 1;
    }
    assert(weights.take(party as int) =~= weights);
    owners
}

/// A transform evaluates a polynomial at the powers of the root.
pub proof fn lemma_dft_is_eval(c: Seq<int>, size: int, w: int, k: int)
    requires
        c.len() <= size,
        0 <= k,
    ensures
        cong(
            dft(padded(c, size), w, k),
            eval(c, pow(w, k as nat) % order()),
        ),
{
    let x = pow(w, k as nat) % order();
    let v = padded(c, size);
    let n = c.len() as int;
    let f = dft_terms(v, w, k);
    let g = poly_terms(c, x);
    lemma_sum_split(f, 0, n, size);
    assert forall|i: int| n <= i < size implies #[trigger] f(i) == 0 by {
        assert(0 * pow(w, (i * k) as nat) == 0);
    }
    lemma_sum_zero(f, n, size);
    lemma_reduce(pow(w, k as nat));
    assert forall|i: int| 0 <= i < n implies cong(#[trigger] f(i), g(i)) by {
        vstd::arithmetic::mul::lemma_mul_nonnegative(i, k);
        lemma_pow_multiplies(w, k as nat, i as nat);
        assert(k * i == i * k) by (nonlinear_arith);
        lemma_cong_pow(x, pow(w, k as nat), i as nat);
        lemma_cong_mul(c[i], c[i], pow(w, (i * k) as nat), pow(x, i as nat));
    }
    lemma_sum_cong(f, g, 0, n);
}

/// The values of a polynomial at the first `count` points of a domain.
pub open spec fn share_values(c: Seq<int>, size: int, count: int) -> Seq<int> {
    Seq::new(count as nat, |k: int| eval(c, root_points(size, count)[k]) % order())
}

/// Evaluates a polynomial at the first `count` points of a domain.
pub fn share_evaluations(domain: &Radix2Domain, coefficients: &Vec<Fr>, count: usize) -> (result:
    Vec<Fr>)
    requires
        domain.wf(),
        coefficients@.len() <= domain.spec_size(),
        count <= domain.spec_size(),
    ensures
        views(result@) == share_values(
            views(coefficients@),
            domain.spec_size(),
            count as int,
        ),
{
    let ghost size = domain.spec_size();
    let ghost c = views(coefficients@);
    let mut values = pad(coefficients, domain.size());
    domain.fft(&mut values);
    values.truncate(count);
    proof {
        assert(views(values@) =~= share_values(c, size, count as int)) by {
            assert forall|k: int| 0 <= k < count implies values@[k]@ == #[trigger] share_values(
                c,
                size,
                count as int,
            )[k] by {
                lemma_dft_is_eval(c, size, size_root(size), k);
                assert(0 + k == k);
            }
        }
    }
    values
}

/// The first `count` points of a domain: the values of the polynomial `X`.
pub fn evaluation_points(domain: &Radix2Domain, count: usize) -> (points: Vec<Fr>)
    requires
        domain.wf(),
        count <= domain.spec_size(),
    ensures
        views(points@) == root_points(domain.spec_size(), count as int),
{
    let ghost size = domain.spec_size();
    let mut coefficients: Vec<Fr> = Vec::new();
    if domain.size() == 1 {
        coefficients.push(Fr::one());
        let points = share_evaluations(domain, &coefficients, count);
        proof {
            domain.lemma_domain();
            let c = views(coefficients@);
            assert forall|k: int| 0 <= k < count implies #[trigger] share_values(c, size, count as int)[k]
                == root_points(size, count as int)[k] by {
                let x = root_points(size, count as int)[k];
                assert(sum(poly_terms(c, x), 0, 0) == 0);
                assert(sum(poly_terms(c, x), 0, 1) == poly_terms(c, x)(0));
                lemma_pow0(x);
                assert(k == 0);
                lemma_pow0(size_root(size));
                lemma_one();
            }
            assert(share_values(c, size, count as int) =~= root_points(size, count as int));
        }
        return points;
    }
    coefficients.push(Fr::zero());
    coefficients.push(Fr::one());
    proof {
        domain.lemma_domain();
    }
    let points = share_evaluations(domain, &coefficients, count);
    proof {
        let c = views(coefficients@);
        assert forall|k: int| 0 <= k < count implies #[trigger] share_values(c, size, count as int)[k]
            == root_points(size, count as int)[k] by {
            let x = root_points(size, count as int)[k];
            let f = poly_terms(c, x);
            assert(sum(f, 0, 0) == 0);
            assert(sum(f, 0, 1) == f(0));
            assert(sum(f, 0, 2) == f(0) + f(1));
            lemma_pow0(x);
            lemma_pow1(x);
            assert(c.len() == 2 && c[0] == 0 && c[1] == 1);
            assert(f(0) == 0 * pow(x, 0) && f(1) == 1 * pow(x, 1));
            lemma_reduce(pow(size_root(size), (0 + k) as nat));
            lemma_reduced(x);
        }
        assert(share_values(c, size, count as int) =~= root_points(size, count as int));
    }
    points
}

/// The numbers of a party's virtual shares.
pub open spec fn party_indices_of(weights: Seq<usize>, party: int) -> Seq<usize> {
    Seq::new(weights[party] as nat, |k: int| (offset(weights, party) + k) as usize)
}

/// The numbers of the virtual shares of parties, party by party.
pub open spec fn virtual_indices(weights: Seq<usize>, parties: Seq<usize>) -> Seq<usize>
    decreases parties.len(),
{
    if parties.len() == 0 {
        Seq::empty()
    } else {
        virtual_indices(weights, parties.drop_last()) + party_indices_of(
            weights,
            parties.last() as int,
        )
    }
}

/// Where the virtual shares of the party at a position begin among those of all parties.
pub open spec fn position_offset(weights: Seq<usize>, parties: Seq<usize>, position: int) -> int {
    virtual_indices(weights, parties.take(position)).len() as int
}

pub proof fn lemma_position_step(weights: Seq<usize>, parties: Seq<usize>, position: int)
    requires
        0 <= position < parties.len(),
    ensures
        virtual_indices(weights, parties.take(position + 1)) == virtual_indices(
            weights,
            parties.take(position),
        ) + party_indices_of(weights, parties[position] as int),
        position_offset(weights, parties, position + 1) == position_offset(
            weights,
            parties,
            position,
        ) + weights[parties[position] as int],
{
    assert(parties.take(position + 1).drop_last() =~= parties.take(position));
    assert(parties.take(position + 1).last() == parties[position]);
}

pub proof fn lemma_position_order(party_weights: Seq<usize>, parties: Seq<usize>, position: int)
    requires
        0 <= position <= parties.len(),
    ensures
        position_offset(party_weights, parties, position) <= position_offset(
            party_weights,
            parties,
            parties.len() as int,
        ),
    decreases parties.len() - position,
{
    if position < parties.len() {
        lemma_position_step(party_weights, parties, position);
        lemma_position_order(party_weights, parties, position + 1);
    }
}

/// The parts of the parties, one after the other, make up the whole.
pub proof fn lemma_flatten(
    party_weights: Seq<usize>,
    parties: Seq<usize>,
    h: spec_fn(int) -> int,
    blocks: spec_fn(int) -> int,
    upto: int,
)
    requires
        0 <= upto <= parties.len(),
        forall|p: int|
            0 <= p < upto ==> cong(
                #[trigger] blocks(p),
                sum(
                    h,
                    position_offset(party_weights, parties, p),
                    position_offset(party_weights, parties, p + 1),
                ),
            ),
    ensures
        cong(
            sum(blocks, 0, upto),
            sum(h, 0, position_offset(party_weights, parties, upto)),
        ),
        position_offset(party_weights, parties, upto) >= 0,
    decreases upto,
{
    if upto > 0 {
        lemma_flatten(party_weights, parties, h, blocks, upto - 1);
        lemma_position_step(party_weights, parties, upto - 1);
        let (a, b) = (
            position_offset(party_weights, parties, upto - 1),
            position_offset(party_weights, parties, upto),
        );
        lemma_sum_split(h, 0, a, b);
        assert(cong(blocks(upto - 1), sum(h, a, b)));
        lemma_cong_add(sum(blocks, 0, upto - 1), sum(h, 0, a), blocks(upto - 1), sum(h, a, b));
    } else {
        assert(parties.take(0) =~= Seq::<usize>::empty());
    }
}

/// The virtual share at a place of a party's part.
pub proof fn lemma_position_item(
    weights: Seq<usize>,
    parties: Seq<usize>,
    position: int,
    upto: int,
    k: int,
)
    requires
        0 <= position < upto <= parties.len(),
        0 <= k < weights[parties[position] as int],
    ensures
        position_offset(weights, parties, position) + weights[parties[position] as int]
            <= position_offset(weights, parties, upto),
        virtual_indices(weights, parties.take(upto))[position_offset(weights, parties, position)
            + k] == (offset(weights, parties[position] as int) + k) as usize,
    decreases upto,
{
    lemma_position_step(weights, parties, upto - 1);
    if position < upto - 1 {
        lemma_position_item(weights, parties, position, upto - 1, k);
    }
}

/// The virtual shares of the parties, and where each party's part begins; the
/// first party that does not exist, where there is one.
pub fn select_virtual(offsets: &Vec<usize>, parties: &Vec<usize>, Ghost(weights): Ghost<
    Seq<usize>,
>) -> (result: core::result::Result<(Vec<usize>, Vec<usize>), usize>)
    requires
        are_offsets(offsets@, weights),
        total(weights) <= usize::MAX,
    ensures
        match result {
            Ok((selected, starts)) => {
                &&& forall|i: int|
                    0 <= i < parties@.len() ==> (#[trigger] parties@[i]) < weights.len()
                &&& selected@ == virtual_indices(weights, parties@)
                &&& starts@.len() == parties@.len() + 1
                &&& forall|i: int|
                    0 <= i <= parties@.len() ==> #[trigger] starts@[i] == position_offset(
                        weights,
                        parties@,
                        i,
                    )
            },
            Err(party) => first_unknown(parties@, weights.len() as int, 0) == Some(party),
        },
{
    let mut selected: Vec<usize> = Vec::new();
    let mut starts: Vec<usize> = Vec::new();
    starts.push(0);
    let mut position: usize = 0;
    let party_count: usize = offsets.len() - 1;
    assert(parties@.take(0) =~= Seq::<usize>::empty());
    while position < parties.len()
        invariant
            are_offsets(offsets@, weights),
            total(weights) <= usize::MAX,
            party_count == weights.len(),
            position <= parties@.len(),
            forall|i: int| 0 <= i < position ==> (#[trigger] parties@[i]) < weights.len(),
            first_unknown(parties@, weights.len() as int, 0) == first_unknown(
                parties@,
                weights.len() as int,
                position as int,
            ),
            selected@ == virtual_indices(weights, parties@.take(position as int)),
            starts@.len() == position + 1,
            forall|i: int|
                0 <= i <= position ==> #[trigger] starts@[i] == position_offset(
                    weights,
                    parties@,
                    i,
                ),
        decreases parties@.len() - position,
    {
        let party = parties[position];
        if party >= party_count {
            return Err(party);
        }
        let begin = offsets[party];
        let end = offsets[party + 1];
        proof {
            lemma_offset_step(weights, party as int);
            lemma_offset_order(weights, party + 1, weights.len() as int);
            lemma_position_step(weights, parties@, position as int);
        }
        let ghost before = selected@;
        let mut index: usize = begin;
        while index < end
            invariant
                begin <= index <= end,
                begin == offset(weights, party as int),
                end == begin + weights[party as int],
                end <= usize::MAX,
                selected@ == before + party_indices_of(weights, party as int).take(index - begin),
            decreases end - index,
        {
            selected.push(index);
            index = index + 1;
            assert(selected@ =~= before + party_indices_of(weights, party as int).take(
                index - begin,
            ));
        }
        assert(party_indices_of(weights, party as int).take(index - begin) =~= party_indices_of(
            weights,
            party as int,
        ));
        starts.push(selected.len());
        position = position + 1;
    }
    assert(parties@.take(position as int) =~= parties@);
    Ok((selected, starts))
}

/// The first number, from `from` on, that is not below `count`.
pub open spec fn first_unknown(parties: Seq<usize>, count: int, from: int) -> Option<usize>
    decreases parties.len() - from,
{
    if from >= parties.len() {
        None
    } else if parties[from] >= count {
        Some(parties[from])
    } else {
        first_unknown(parties, count, from + 1)
    }
}

pub proof fn lemma_none_unknown(parties: Seq<usize>, count: int, from: int)
    requires
        0 <= from,
        forall|i: int| from <= i < parties.len() ==> (#[trigger] parties[i]) < count,
    ensures
        first_unknown(parties, count, from) is None,
    decreases parties.len() - from,
{
    if from < parties.len() {
        lemma_none_unknown(parties, count, from + 1);
    }
}

/// The virtual shares of different parties are different, and within the total.
pub proof fn lemma_virtual_selection(weights: Seq<usize>, parties: Seq<usize>)
    requires
        total(weights) <= usize::MAX,
        forall|i: int| 0 <= i < parties.len() ==> (#[trigger] parties[i]) < weights.len(),
        forall|i: int, j: int|
            0 <= i < j < parties.len() ==> #[trigger] parties[i] < #[trigger] parties[j],
    ensures
        ({
            let selected = virtual_indices(weights, parties);
            &&& selected.len() == party_weight_sum(weights, parties)
            &&& forall|i: int| 0 <= i < selected.len() ==> (#[trigger] selected[i]) < total(weights)
            &&& forall|i: int, j: int|
                0 <= i < j < selected.len() ==> #[trigger] selected[i] < #[trigger] selected[j]
            &&& parties.len() > 0 ==> forall|i: int|
                0 <= i < selected.len() ==> (#[trigger] selected[i]) < offset(
                    weights,
                    parties.last() + 1,
                )
        }),
    decreases parties.len(),
{
    if parties.len() > 0 {
        let shorter = parties.drop_last();
        let party = parties.last() as int;
        assert(party < weights.len()) by {
            assert(parties[parties.len() - 1] < weights.len());
        }
        assert forall|i: int, j: int| 0 <= i < j < shorter.len() implies #[trigger] shorter[i]
            < #[trigger] shorter[j] by {
            assert(parties[i] < parties[j]);
        }
        assert forall|i: int| 0 <= i < shorter.len() implies (#[trigger] shorter[i])
            < weights.len() by {
            assert(parties[i] < weights.len());
        }
        lemma_virtual_selection(weights, shorter);
        lemma_offset_step(weights, party);
        lemma_offset_order(weights, party + 1, weights.len() as int);
        lemma_offset_order(weights, party, party + 1);
        let before = virtual_indices(weights, shorter);
        let selected = virtual_indices(weights, parties);
        if shorter.len() > 0 {
            assert(parties[parties.len() - 2] < parties[parties.len() - 1]);
            lemma_offset_order(weights, shorter.last() + 1, party);
        }
        assert forall|i: int| 0 <= i < selected.len() implies (#[trigger] selected[i]) < offset(
            weights,
            party + 1,
        ) by {
            if i < before.len() {
                assert(selected[i] == before[i]);
            }
        }
        assert forall|i: int, j: int| 0 <= i < j < selected.len() implies #[trigger] selected[i]
            < #[trigger] selected[j] by {
            if j < before.len() {
                assert(before[i] < before[j]);
            } else if i < before.len() {
                assert(selected[i] == before[i]);
            }
        }
    }
}

/// The sum of the weights of parties.
pub open spec fn party_weight_sum(weights: Seq<usize>, parties: Seq<usize>) -> int
    decreases parties.len(),
{
    if parties.len() == 0 {
        0
    } else {
        party_weight_sum(weights, parties.drop_last()) + weights[parties.last() as int]
    }
}

/// The first party, from `from` on, whose weight is zero.
pub open spec fn first_zero(weights: Seq<usize>, from: int) -> Option<int>
    decreases weights.len() - from,
{
    if from >= weights.len() {
        None
    } else if weights[from] == 0 {
        Some(from)
    } else {
        first_zero(weights, from + 1)
    }
}

/// Finds the first party whose weight is zero.
pub fn find_zero(weights: &Vec<usize>) -> (result: Option<usize>)
    ensures
        match result {
            Some(party) => first_zero(weights@, 0) == Some(party as int) && weights@[party as int]
                == 0,
            None => first_zero(weights@, 0) is None && forall|i: int|
                0 <= i < weights@.len() ==> (#[trigger] weights@[i]) > 0,
        },
{
    let mut index: usize = 0;
    while index < weights.len()
        invariant
            index <= weights@.len(),
            first_zero(weights@, 0) == first_zero(weights@, index as int),
            forall|i: int| 0 <= i < index ==> (#[trigger] weights@[i]) > 0,
        decreases weights@.len() - index,
    {
        if weights[index] == 0 {
            return Some(index);
        }
        index = index + 1;
    }
    None
}

/// Whether there is a domain for so many virtual shares.
pub open spec fn has_domain(total_weight: int) -> bool {
    exists|size: int| #[trigger] is_domain_size(size) && is_share_domain(size, total_weight)
}

/// Whether a size is that of the smallest domain for so many virtual shares.
pub open spec fn is_share_domain(size: int, total_weight: int) -> bool {
    is_domain_size(size) && size <= usize::MAX && is_least_power(size, total_weight)
}

/// The smallest domain for so many virtual shares, where there is one.
pub fn share_domain(total_weight: usize) -> (result: Option<Radix2Domain>)
    requires
        total_weight > 0,
    ensures
        match result {
            Some(domain) => domain.wf() && is_share_domain(
                domain.spec_size(),
                total_weight as int,
            ) && has_domain(total_weight as int),
            None => !has_domain(total_weight as int),
        },
{
    let size = match next_power_of_two(total_weight) {
        Some(size) => size,
        None => {
            proof {
                if has_domain(total_weight as int) {
                    let size = choose|size: int| #[trigger]
                        is_domain_size(size) && is_share_domain(size, total_weight as int);
                    assert(is_power_of_two(size));
                }
            }
            return None;
        },
    };
    let result = Radix2Domain::new(size);
    proof {
        if result is Some {
            assert(is_domain_size(size as int));
        } else if has_domain(total_weight as int) {
            let other = choose|other: int| #[trigger]
                is_domain_size(other) && is_share_domain(other, total_weight as int);
            crate::interpolation::lemma_least_power_unique(
                size as int,
                other,
                total_weight as int,
            );
        }
    }
    result
}

/// What a batch is refused with where its transform is too large: the size of the
/// batch where a `usize` cannot hold that of the transform, else that of the transform.
pub open spec fn is_transform_error(batch_size: int, size: int) -> bool {
    &&& !has_domain(2 * batch_size)
    &&& is_least_power(size, 2 * batch_size) || (size == batch_size && forall|power: int|
        #[trigger] is_power_of_two(power) && power >= 2 * batch_size ==> power > usize::MAX)
}

/// The domain for the middle product of a batch, whose size is the least power of
/// two that is at least twice that of the batch.
pub fn transform_domain(batch_size: usize) -> (result: core::result::Result<Radix2Domain, usize>)
    requires
        batch_size > 0,
    ensures
        match result {
            Ok(domain) => domain.wf() && is_share_domain(domain.spec_size(), 2 * batch_size)
                && has_domain(2 * batch_size),
            Err(size) => is_transform_error(batch_size as int, size as int),
        },
{
    let doubled = match batch_size.checked_mul(2) {
        Some(doubled) => doubled,
        None => {
            return Err(batch_size);
        },
    };
    let size = match next_power_of_two(doubled) {
        Some(size) => size,
        None => {
            proof {
                if has_domain(doubled as int) {
                    let other = choose|other: int| #[trigger]
                        is_domain_size(other) && is_share_domain(other, doubled as int);
                    assert(is_power_of_two(other));
                }
            }
            return Err(batch_size);
        },
    };
    match Radix2Domain::new(size) {
        Some(domain) => {
            assert(is_domain_size(size as int) && is_share_domain(size as int, doubled as int));
            Ok(domain)
        },
        None => {
            proof {
                if has_domain(doubled as int) {
                    let other = choose|other: int| #[trigger]
                        is_domain_size(other) && is_share_domain(other, doubled as int);
                    crate::interpolation::lemma_least_power_unique(
                        size as int,
                        other,
                        doubled as int,
                    );
                }
            }
            Err(size)
        },
    }
}

/// The item of a table, kept row by row.
pub open spec fn cell(items: Seq<int>, width: int, row: int, column: int) -> int {
    items[row * width + column]
}

/// Whether a table of so many rows has the given items.
pub open spec fn is_table(
    items: Seq<int>,
    width: int,
    rows: int,
    f: spec_fn(int, int) -> int,
) -> bool {
    &&& items.len() == rows * width
    &&& forall|row: int, column: int|
        0 <= row < rows && 0 <= column < width ==> #[trigger] cell(items, width, row, column) == f(
            row,
            column,
        )
}

/// The place of an item lies within the table.
pub proof fn lemma_cell(width: int, rows: int, row: int, column: int)
    requires
        0 <= row < rows,
        0 <= column < width,
    ensures
        0 <= row * width,
        0 <= row * width + column < rows * width,
        row * width + width <= rows * width,
{
    assert(0 <= row * width) by (nonlinear_arith)
        requires
            0 <= row,
            0 < width,
    ;
    assert(row * width + width == (row + 1) * width) by (nonlinear_arith);
    assert((row + 1) * width <= rows * width) by (nonlinear_arith)
        requires
            row + 1 <= rows,
            0 < width,
    ;
}

/// One more row.
pub proof fn lemma_table_push(
    items: Seq<int>,
    next: Seq<int>,
    width: int,
    rows: int,
    f: spec_fn(int, int) -> int,
)
    requires
        0 <= rows,
        is_table(items, width, rows, f),
        next.len() == width,
        forall|column: int| 0 <= column < width ==> #[trigger] next[column] == f(rows, column),
    ensures
        is_table(items + next, width, rows + 1, f),
{
    let longer = items + next;
    assert((rows + 1) * width == rows * width + width) by (nonlinear_arith);
    assert forall|row: int, column: int|
        0 <= row < rows + 1 && 0 <= column < width implies #[trigger] cell(
        longer,
        width,
        row,
        column,
    ) == f(row, column) by {
        if row < rows {
            lemma_cell(width, rows, row, column);
            assert(cell(items, width, row, column) == f(row, column));
        } else {
            assert(longer[rows * width + column] == next[column]);
        }
    }
}

/// Numbers in ascending order below a bound are no more than the bound.
pub proof fn lemma_ascending_count(numbers: Seq<usize>, bound: int)
    requires
        0 <= bound,
        forall|i: int| 0 <= i < numbers.len() ==> (#[trigger] numbers[i]) < bound,
        forall|i: int, j: int|
            0 <= i < j < numbers.len() ==> #[trigger] numbers[i] < #[trigger] numbers[j],
    ensures
        numbers.len() <= bound,
    decreases numbers.len(),
{
    if numbers.len() > 0 {
        let front = numbers.drop_last();
        let last = numbers.last() as int;
        assert(numbers[numbers.len() - 1] < bound);
        assert forall|i: int| 0 <= i < front.len() implies (#[trigger] front[i]) < last by {
            assert(numbers[i] < numbers[numbers.len() - 1]);
        }
        assert forall|i: int, j: int| 0 <= i < j < front.len() implies #[trigger] front[i]
            < #[trigger] front[j] by {
            assert(numbers[i] < numbers[j]);
        }
        lemma_ascending_count(front, last);
    }
}

/// The first party without weight has none before it, and there is none where all have some.
pub proof fn law_first_zero(weights: Seq<usize>, from: int)
    requires
        0 <= from,
    ensures
        match first_zero(weights, from) {
            Some(party) => {
                &&& from <= party < weights.len()
                &&& weights[party] == 0
                &&& forall|i: int| from <= i < party ==> #[trigger] weights[i] > 0
            },
            None => forall|i: int| from <= i < weights.len() ==> #[trigger] weights[i] > 0,
        },
    decreases weights.len() - from,
{
    if from < weights.len() && weights[from] > 0 {
        law_first_zero(weights, from + 1);
    }
}

/// The total weight grows by the weight of each party.
pub proof fn law_total_weight(weights: Seq<usize>, weight: usize)
    ensures
        total(Seq::empty()) == 0,
        total(weights.push(weight)) == total(weights) + weight,
{
    assert(weights.push(weight).drop_last() =~= weights);
}

/// There is a domain for so many virtual shares where a power of two up to `2^32` that the
/// machine can count to is as large, and only there.
pub proof fn law_has_domain(total_weight: int)
    requires
        1 <= total_weight,
    ensures
        has_domain(total_weight) <==> exists|log: nat|
            log <= 32 && total_weight <= #[trigger] pow2(log) <= usize::MAX,
{
    if has_domain(total_weight) {
        let size = choose|size: int| #[trigger]
            is_domain_size(size) && is_share_domain(size, total_weight);
        let log = choose|log: nat| log <= 32 && size == #[trigger] pow2(log);
        assert(total_weight <= pow2(log) <= usize::MAX);
    }
    if exists|log: nat| log <= 32 && total_weight <= #[trigger] pow2(log) <= usize::MAX {
        let log = choose|log: nat|
            log <= 32 && total_weight <= #[trigger] pow2(log) <= usize::MAX;
        lemma_least_domain(total_weight, log);
    }
}

proof fn lemma_least_domain(total_weight: int, log: nat)
    requires
        1 <= total_weight <= pow2(log) <= usize::MAX,
        log <= 32,
    ensures
        has_domain(total_weight),
    decreases log,
{
    let size = pow2(log) as int;
    vstd::arithmetic::power2::lemma_pow2_pos(log);
    if log > 0 {
        vstd::arithmetic::power2::lemma_pow2_unfold(log);
    } else {
        vstd::arithmetic::power2::lemma2_to64();
    }
    if log > 0 && total_weight <= pow2((log - 1) as nat) {
        lemma_least_domain(total_weight, (log - 1) as nat);
    } else {
        assert(is_domain_size(size));
        assert(is_least_power(size, total_weight));
        assert(is_share_domain(size, total_weight));
    }
}

/// Weights that are none of them zero add up to something.
pub proof fn lemma_total_positive(weights: Seq<usize>)
    ensures
        0 <= total(weights),
        weights.len() > 0 && (forall|i: int|
            0 <= i < weights.len() ==> #[trigger] weights[i] > 0) ==> total(weights) > 0,
    decreases weights.len(),
{
    if weights.len() > 0 {
        lemma_total_positive(weights.drop_last());
        if forall|i: int| 0 <= i < weights.len() ==> #[trigger] weights[i] > 0 {
            assert(weights[weights.len() - 1] > 0);
        }
    }
}

} // verus!
