//! Proofs that two pairs of points have the same discrete logarithm.
//!
//! A proof is a challenge and a response; the commitments are computed again when
//! it is checked, as the response times a base without the challenge times its
//! target. What else a proof is about (a payload and its index, or a batch and a
//! party) goes into the challenge as a context.
use vstd::prelude::*;
use vstd::string::StringSliceAdditionalSpecFns;

use crate::algebra::primality::lemma_nonzero_is_unit;
use crate::algebra::residue::{
    cong, inv, is_unit, lemma_cong_add, lemma_cong_diff, lemma_cong_mul, lemma_cong_sub, lemma_inv,
    lemma_reduce, lemma_reduced, order,
};
use crate::bytes::{
    append, append_u64, le_bytes, lemma_le_digits, lemma_same_digits, lemma_same_parts,
};
use crate::curve::{g1_compressed, Element, Fr, G1Point, ScalarRng, G1};
use crate::encoding::is_g1_sized;
use crate::hash::{challenge, hash_to_scalar};

verus! {

/// What a proof is for.
#[derive(Clone, Copy, Debug, PartialEq, Eq, Structural)]
pub enum ProofPurpose {
    Client,
    Server,
}

impl ProofPurpose {
    pub open spec fn tag_bytes(self) -> Seq<u8> {
        match self {
            ProofPurpose::Client => "client-ciphertext".spec_bytes(),
            ProofPurpose::Server => "server-decryption-share".spec_bytes(),
        }
    }

    /// What tells the purposes apart in a challenge.
    pub fn tag(self) -> (result: &'static [u8])
        ensures
            result@ == self.tag_bytes(),
    {
        match self {
            ProofPurpose::Client => "client-ciphertext".as_bytes(),
            ProofPurpose::Server => "server-decryption-share".as_bytes(),
        }
    }
}

/// The two pairs of points that a proof is about, by their logarithms.
pub struct Statement {
    pub first_base: int,
    pub first_target: int,
    pub second_base: int,
    pub second_target: int,
}

/// What the challenge is the hash of.
pub open spec fn transcript(
    purpose: ProofPurpose,
    setup_id: Seq<u8>,
    context: Seq<u8>,
    statement: Statement,
    first_commitment: int,
    second_commitment: int,
) -> Seq<u8> {
    "WEIGHTED-INDEXED-BTE-DLEQ-BLS12381-v1".spec_bytes() + le_bytes(
        purpose.tag_bytes().len() as int,
        8,
    ) + purpose.tag_bytes() + setup_id + le_bytes(context.len() as int, 8) + context
        + g1_compressed(statement.first_base) + g1_compressed(statement.first_target)
        + g1_compressed(statement.second_base) + g1_compressed(statement.second_target)
        + g1_compressed(first_commitment) + g1_compressed(second_commitment)
}

/// The challenge of a statement and commitments to it.
pub open spec fn challenge_of(
    purpose: ProofPurpose,
    setup_id: Seq<u8>,
    context: Seq<u8>,
    statement: Statement,
    first_commitment: int,
    second_commitment: int,
) -> Option<int> {
    challenge(
        transcript(purpose, setup_id, context, statement, first_commitment, second_commitment),
    )
}

/// A proof that two pairs of points have the same discrete logarithm.
#[derive(Clone, Copy, Debug, PartialEq, Eq)]
pub struct DleqProof {
    pub challenge: Fr,
    pub response: Fr,
}

/// The two pairs of points that a proof is about.
#[derive(Clone, Copy, Debug)]
pub struct Pairs {
    pub first_base: G1Point,
    pub first_target: G1Point,
    pub second_base: G1Point,
    pub second_target: G1Point,
}

impl Pairs {
    pub open spec fn statement(self) -> Statement {
        Statement {
            first_base: self.first_base@,
            first_target: self.first_target@,
            second_base: self.second_base@,
            second_target: self.second_target@,
        }
    }
}

fn challenge_scalar(
    purpose: ProofPurpose,
    setup_id: [u8; 32],
    context: &[u8],
    pairs: Pairs,
    first_commitment: G1Point,
    second_commitment: G1Point,
) -> (result: Option<Fr>)
    ensures
        match result {
            Some(scalar) => challenge_of(
                purpose,
                setup_id@,
                context@,
                pairs.statement(),
                first_commitment@,
                second_commitment@,
            ) == Some(scalar@),
            None => challenge_of(
                purpose,
                setup_id@,
                context@,
                pairs.statement(),
                first_commitment@,
                second_commitment@,
            ) is None,
        },
{
    let mut bytes: Vec<u8> = Vec::new();
    append(&mut bytes, "WEIGHTED-INDEXED-BTE-DLEQ-BLS12381-v1".as_bytes());
    let tag = purpose.tag();
    append_u64(&mut bytes, tag.len() as u64);
    append(&mut bytes, tag);
    append(&mut bytes, setup_id.as_slice());
    append_u64(&mut bytes, context.len() as u64);
    append(&mut bytes, context);
    let b1 = pairs.first_base.to_compressed();
    append(&mut bytes, b1.as_slice());
    let t1 = pairs.first_target.to_compressed();
    append(&mut bytes, t1.as_slice());
    let b2 = pairs.second_base.to_compressed();
    append(&mut bytes, b2.as_slice());
    let t2 = pairs.second_target.to_compressed();
    append(&mut bytes, t2.as_slice());
    let c1 = first_commitment.to_compressed();
    append(&mut bytes, c1.as_slice());
    let c2 = second_commitment.to_compressed();
    append(&mut bytes, c2.as_slice());
    proof {
        assert(bytes@ =~= transcript(
            purpose,
            setup_id@,
            context@,
            pairs.statement(),
            first_commitment@,
            second_commitment@,
        ));
    }
    hash_to_scalar(&bytes)
}

impl DleqProof {
    /// The size of the canonical encoding.
    pub const SERIALIZED_SIZE: usize = 64;

    /// Whether the proof holds: its challenge is that of the commitments which the
    /// response and the challenge give.
    pub open spec fn accepts(
        self,
        purpose: ProofPurpose,
        setup_id: Seq<u8>,
        context: Seq<u8>,
        statement: Statement,
    ) -> bool {
        let c = self.challenge@;
        let r = self.response@;
        challenge_of(
            purpose,
            setup_id,
            context,
            statement,
            (statement.first_base * r - statement.first_target * c) % order(),
            (statement.second_base * r - statement.second_target * c) % order(),
        ) == Some(c)
    }

    /// The canonical encoding.
    pub open spec fn canonical(self) -> Seq<u8> {
        le_bytes(self.challenge@, 32) + le_bytes(self.response@, 32)
    }

    /// The proof made with the given nonce; there is none where the transcript
    /// has no challenge. It holds where both targets are the witness times their bases.
    pub fn create_with_nonce(
        purpose: ProofPurpose,
        setup_id: [u8; 32],
        context: &[u8],
        pairs: Pairs,
        witness: Fr,
        nonce: Fr,
    ) -> (result: Option<Self>)
        ensures
            ({
                let found = challenge_of(
                    purpose,
                    setup_id@,
                    context@,
                    pairs.statement(),
                    (pairs.first_base@ * nonce@) % order(),
                    (pairs.second_base@ * nonce@) % order(),
                );
                match result {
                    Some(made) => found == Some(made.challenge@) && made.response@ == (nonce@
                        + made.challenge@ * witness@) % order(),
                    None => found is None,
                }
            }),
            cong(pairs.first_target@, pairs.first_base@ * witness@) && cong(
                pairs.second_target@,
                pairs.second_base@ * witness@,
            ) ==> (result matches Some(made) ==> made.accepts(
                purpose,
                setup_id@,
                context@,
                pairs.statement(),
            )),
    {
        let first_commitment = G1::from_affine(pairs.first_base).times(nonce).to_affine();
        let second_commitment = G1::from_affine(pairs.second_base).times(nonce).to_affine();
        let challenge = challenge_scalar(
            purpose,
            setup_id,
            context,
            pairs,
            first_commitment,
            second_commitment,
        )?;
        let product = challenge.times(witness);
        let response = nonce.plus(product);
        proof {
            let (n, c, w) = (nonce@, challenge@, witness@);
            lemma_reduce(c * w);
            lemma_cong_add(n, n, product@, c * w);
            lemma_reduce(n + product@);
            if cong(pairs.first_target@, pairs.first_base@ * w) && cong(
                pairs.second_target@,
                pairs.second_base@ * w,
            ) {
                lemma_commitment(pairs.first_base@, pairs.first_target@, n, c, w, response@);
                lemma_commitment(pairs.second_base@, pairs.second_target@, n, c, w, response@);
            }
        }
        Some(DleqProof { challenge, response })
    }

    /// A proof with a nonce drawn from `rng`, as [`DleqProof::create_with_nonce`] makes it.
    pub fn create<R: ScalarRng>(
        purpose: ProofPurpose,
        setup_id: [u8; 32],
        context: &[u8],
        pairs: Pairs,
        witness: Fr,
        rng: &mut R,
    ) -> (result: Option<Self>)
        ensures
            ({
                let nonce = final(rng).drawn().last();
                let found = challenge_of(
                    purpose,
                    setup_id@,
                    context@,
                    pairs.statement(),
                    (pairs.first_base@ * nonce) % order(),
                    (pairs.second_base@ * nonce) % order(),
                );
                &&& final(rng).drawn() == old(rng).drawn().push(nonce)
                &&& match result {
                    Some(made) => found == Some(made.challenge@) && made.response@ == (nonce
                        + made.challenge@ * witness@) % order(),
                    None => found is None,
                }
            }),
            cong(pairs.first_target@, pairs.first_base@ * witness@) && cong(
                pairs.second_target@,
                pairs.second_base@ * witness@,
            ) ==> (result matches Some(made) ==> made.accepts(
                purpose,
                setup_id@,
                context@,
                pairs.statement(),
            )),
    {
        let nonce = rng.random_scalar();
        Self::create_with_nonce(purpose, setup_id, context, pairs, witness, nonce)
    }

    pub fn verify(
        &self,
        purpose: ProofPurpose,
        setup_id: [u8; 32],
        context: &[u8],
        pairs: Pairs,
    ) -> (result: bool)
        ensures
            result == self.accepts(purpose, setup_id@, context@, pairs.statement()),
    {
        let first_commitment = commitment(
            pairs.first_base,
            pairs.first_target,
            self.response,
            self.challenge,
        );
        let second_commitment = commitment(
            pairs.second_base,
            pairs.second_target,
            self.response,
            self.challenge,
        );
        match challenge_scalar(
            purpose,
            setup_id,
            context,
            pairs,
            first_commitment,
            second_commitment,
        ) {
            Some(expected) => expected == self.challenge,
            None => false,
        }
    }

    pub fn append_canonical(&self, output: &mut Vec<u8>)
        ensures
            final(output)@ == old(output)@ + self.canonical(),
    {
        let ghost start = output@;
        let challenge = self.challenge.to_bytes_le();
        append(output, challenge.as_slice());
        let response = self.response.to_bytes_le();
        append(output, response.as_slice());
        assert(output@ =~= start + self.canonical());
    }
}

/// The commitment that a response and a challenge give.
fn commitment(base: G1Point, target: G1Point, response: Fr, challenge: Fr) -> (result: G1Point)
    ensures
        result@ == (base@ * response@ - target@ * challenge@) % order(),
{
    let left = G1::from_affine(base).times(response);
    let right = G1::from_affine(target).times(challenge);
    proof {
        lemma_reduce(base@ * response@);
        lemma_reduce(target@ * challenge@);
        lemma_cong_sub(left@, base@ * response@, right@, target@ * challenge@);
    }
    left.minus(right).to_affine()
}

/// For the response to a challenge, the commitment comes back.
proof fn lemma_commitment(base: int, target: int, nonce: int, c: int, witness: int, response: int)
    requires
        cong(target, base * witness),
        cong(response, nonce + c * witness),
    ensures
        (base * response - target * c) % order() == (base * nonce) % order(),
{
    lemma_cong_mul(base, base, response, nonce + c * witness);
    lemma_cong_mul(target, base * witness, c, c);
    lemma_cong_sub(
        base * response,
        base * (nonce + c * witness),
        target * c,
        (base * witness) * c,
    );
    assert(base * (nonce + c * witness) - (base * witness) * c == base * nonce)
        by (nonlinear_arith);
}

/// What a proof is given for: its purpose, the setup, the context and the statement.
pub struct Claim {
    pub purpose: ProofPurpose,
    pub setup_id: Seq<u8>,
    pub context: Seq<u8>,
    pub statement: Statement,
}

impl Claim {
    /// Whether a proof holds of the claim.
    pub open spec fn holds(self, made: DleqProof) -> bool {
        made.accepts(self.purpose, self.setup_id, self.context, self.statement)
    }

    /// The challenge of the claim, over the commitments that a proof gives for it.
    pub open spec fn challenge(self, made: DleqProof) -> Option<int> {
        let (c, r, s) = (made.challenge@, made.response@, self.statement);
        challenge_of(
            self.purpose,
            self.setup_id,
            self.context,
            s,
            (s.first_base * r - s.first_target * c) % order(),
            (s.second_base * r - s.second_target * c) % order(),
        )
    }
}

/// A proof that holds of one claim holds of another, with another purpose, setup, context or
/// statement, exactly where the two challenges are the same.
pub proof fn law_changed_claim_needs_the_challenge(made: DleqProof, claim: Claim, other: Claim)
    requires
        claim.holds(made),
    ensures
        other.holds(made) <==> other.challenge(made) == claim.challenge(made),
{
}

/// A proof that was made with a nonce for a statement gives back the commitments to it, for
/// every purpose, setup and context: the challenges of such claims differ by what is hashed
/// beside the commitments alone.
pub proof fn law_made_proof_keeps_commitments(
    made: DleqProof,
    claim: Claim,
    nonce: int,
    witness: int,
)
    requires
        cong(claim.statement.first_target, claim.statement.first_base * witness),
        cong(claim.statement.second_target, claim.statement.second_base * witness),
        cong(made.response@, nonce + made.challenge@ * witness),
    ensures
        claim.challenge(made) == challenge_of(
            claim.purpose,
            claim.setup_id,
            claim.context,
            claim.statement,
            (claim.statement.first_base * nonce) % order(),
            (claim.statement.second_base * nonce) % order(),
        ),
{
    let s = claim.statement;
    let (c, r) = (made.challenge@, made.response@);
    lemma_commitment(s.first_base, s.first_target, nonce, c, witness, r);
    lemma_commitment(s.second_base, s.second_target, nonce, c, witness, r);
}

/// A proof whose challenge or response was changed holds exactly where the commitments that
/// it gives have its challenge.
pub proof fn law_changed_proof_needs_its_challenge(changed: DleqProof, claim: Claim)
    ensures
        claim.holds(changed) <==> claim.challenge(changed) == Some(changed.challenge@),
{
}

/// The purposes are told apart by the lengths of their names.
pub proof fn law_purposes_are_told_apart()
    ensures
        ProofPurpose::Client.tag_bytes() == "client-ciphertext".spec_bytes(),
        ProofPurpose::Server.tag_bytes() == "server-decryption-share".spec_bytes(),
        ProofPurpose::Client.tag_bytes().len() == 17,
        ProofPurpose::Server.tag_bytes().len() == 23,
{
    reveal_strlit("client-ciphertext");
    reveal_strlit("server-decryption-share");
    assert(vstd::string::is_ascii("client-ciphertext"));
    assert(vstd::string::is_ascii("server-decryption-share"));
    vstd::string::is_ascii_spec_bytes("client-ciphertext");
    vstd::string::is_ascii_spec_bytes("server-decryption-share");
}

/// The challenge of a claim is drawn from some string, and that string determines the purpose,
/// the setup, the context, the points of the statement and the commitments: two challenges are
/// drawn from the same string only where all are the same, the points by their encodings.
pub proof fn law_challenge_is_bound(
    a: Claim,
    commitments_a: (int, int),
    b: Claim,
    commitments_b: (int, int),
)
    requires
        a.setup_id.len() == b.setup_id.len() == 32,
        a.context.len() < 0x1_0000_0000_0000_0000,
        b.context.len() < 0x1_0000_0000_0000_0000,
        forall|i: int|
            0 <= i < 6 ==> is_g1_sized(#[trigger] points_of(a.statement, commitments_a)[i]),
        forall|i: int|
            0 <= i < 6 ==> is_g1_sized(#[trigger] points_of(b.statement, commitments_b)[i]),
    ensures
        exists|s: Seq<u8>, t: Seq<u8>|
            {
                &&& challenge_of(
                    a.purpose,
                    a.setup_id,
                    a.context,
                    a.statement,
                    commitments_a.0,
                    commitments_a.1,
                ) == #[trigger] challenge(s)
                &&& challenge_of(
                    b.purpose,
                    b.setup_id,
                    b.context,
                    b.statement,
                    commitments_b.0,
                    commitments_b.1,
                ) == #[trigger] challenge(t)
                &&& s == "WEIGHTED-INDEXED-BTE-DLEQ-BLS12381-v1".spec_bytes() + le_bytes(
                    a.purpose.tag_bytes().len() as int,
                    8,
                ) + a.purpose.tag_bytes() + a.setup_id + le_bytes(a.context.len() as int, 8)
                    + a.context + g1_compressed(a.statement.first_base) + g1_compressed(
                    a.statement.first_target,
                ) + g1_compressed(a.statement.second_base) + g1_compressed(
                    a.statement.second_target,
                ) + g1_compressed(commitments_a.0) + g1_compressed(commitments_a.1)
                &&& s == t ==> {
                    &&& a.purpose == b.purpose
                    &&& a.setup_id == b.setup_id
                    &&& a.context == b.context
                    &&& forall|i: int|
                        0 <= i < 6 ==> g1_compressed(
                            #[trigger] points_of(a.statement, commitments_a)[i],
                        ) == g1_compressed(points_of(b.statement, commitments_b)[i])
                }
            },
{
    let tag = "WEIGHTED-INDEXED-BTE-DLEQ-BLS12381-v1".spec_bytes();
    let s = transcript(
        a.purpose,
        a.setup_id,
        a.context,
        a.statement,
        commitments_a.0,
        commitments_a.1,
    );
    let t = transcript(
        b.purpose,
        b.setup_id,
        b.context,
        b.statement,
        commitments_b.0,
        commitments_b.1,
    );
    if s == t {
        let (p, q) = (points_of(a.statement, commitments_a), points_of(b.statement, commitments_b));
        let f = |log: int| g1_compressed(log);
        let ha = claim_head(a);
        let hb = claim_head(b);
        let (a0, a1, a2, a3, a4, a5) = (f(p[0]), f(p[1]), f(p[2]), f(p[3]), f(p[4]), f(p[5]));
        let (b0, b1, b2, b3, b4, b5) = (f(q[0]), f(q[1]), f(q[2]), f(q[3]), f(q[4]), f(q[5]));
        lemma_same_parts(ha + a0 + a1 + a2 + a3 + a4, a5, hb + b0 + b1 + b2 + b3 + b4, b5);
        lemma_same_parts(ha + a0 + a1 + a2 + a3, a4, hb + b0 + b1 + b2 + b3, b4);
        lemma_same_parts(ha + a0 + a1 + a2, a3, hb + b0 + b1 + b2, b3);
        lemma_same_parts(ha + a0 + a1, a2, hb + b0 + b1, b2);
        lemma_same_parts(ha + a0, a1, hb + b0, b1);
        lemma_same_parts(ha, a0, hb, b0);
        lemma_claim_head(a, b);
    }
    assert(challenge_of(
        a.purpose,
        a.setup_id,
        a.context,
        a.statement,
        commitments_a.0,
        commitments_a.1,
    ) == challenge(s));
    assert(challenge_of(
        b.purpose,
        b.setup_id,
        b.context,
        b.statement,
        commitments_b.0,
        commitments_b.1,
    ) == challenge(t));
}

/// The points of a statement and the commitments to it.
pub open spec fn points_of(statement: Statement, commitments: (int, int)) -> Seq<int> {
    seq![
        statement.first_base,
        statement.first_target,
        statement.second_base,
        statement.second_target,
        commitments.0,
        commitments.1,
    ]
}

/// What stands before the points in the string of a challenge.
spec fn claim_head(claim: Claim) -> Seq<u8> {
    let name = claim.purpose.tag_bytes();
    "WEIGHTED-INDEXED-BTE-DLEQ-BLS12381-v1".spec_bytes() + le_bytes(name.len() as int, 8) + name
        + claim.setup_id + le_bytes(claim.context.len() as int, 8) + claim.context
}

proof fn lemma_claim_head(a: Claim, b: Claim)
    requires
        a.setup_id.len() == b.setup_id.len() == 32,
        a.context.len() < 0x1_0000_0000_0000_0000,
        b.context.len() < 0x1_0000_0000_0000_0000,
        claim_head(a) == claim_head(b),
    ensures
        a.purpose == b.purpose,
        a.setup_id == b.setup_id,
        a.context == b.context,
{
    let tag = "WEIGHTED-INDEXED-BTE-DLEQ-BLS12381-v1".spec_bytes();
    let (na, nb) = (a.purpose.tag_bytes(), b.purpose.tag_bytes());
    let (la, lb) = (le_bytes(na.len() as int, 8), le_bytes(nb.len() as int, 8));
    let (ca, cb) = (le_bytes(a.context.len() as int, 8), le_bytes(b.context.len() as int, 8));
    law_purposes_are_told_apart();
    lemma_le_digits(na.len() as int, 8);
    lemma_le_digits(nb.len() as int, 8);
    lemma_le_digits(a.context.len() as int, 8);
    lemma_le_digits(b.context.len() as int, 8);
    // the length of the purpose's name comes first
    let rest_a = na + a.setup_id + ca + a.context;
    let rest_b = nb + b.setup_id + cb + b.context;
    assert(claim_head(a) =~= (tag + la) + rest_a);
    assert(claim_head(b) =~= (tag + lb) + rest_b);
    lemma_same_parts(tag + la, rest_a, tag + lb, rest_b);
    lemma_same_parts(tag, la, tag, lb);
    lemma_same_digits(na.len() as int, nb.len() as int);
    lemma_same_parts(na + a.setup_id + ca, a.context, nb + b.setup_id + cb, b.context);
    lemma_same_parts(na + a.setup_id, ca, nb + b.setup_id, cb);
    lemma_same_parts(na, a.setup_id, nb, b.setup_id);
}

/// Two answers to the same commitments under different challenges are there only where both
/// targets are the same multiple of their bases.
pub proof fn law_two_answers_need_a_true_statement(
    statement: Statement,
    made: (DleqProof, DleqProof),
)
    requires
        made.0.challenge@ != made.1.challenge@,
        cong(
            statement.first_base * made.0.response@ - statement.first_target * made.0.challenge@,
            statement.first_base * made.1.response@ - statement.first_target * made.1.challenge@,
        ),
        cong(
            statement.second_base * made.0.response@ - statement.second_target * made.0.challenge@,
            statement.second_base * made.1.response@ - statement.second_target * made.1.challenge@,
        ),
    ensures
        exists|witness: int|
            #![trigger cong(statement.first_target, statement.first_base * witness)]
            cong(statement.first_target, statement.first_base * witness) && cong(
                statement.second_target,
                statement.second_base * witness,
            ),
{
    let (c, d) = (made.0.challenge@, made.1.challenge@);
    let (r, s) = (made.0.response@, made.1.response@);
    made.0.challenge.lemma_range();
    made.1.challenge.lemma_range();
    lemma_reduced(c);
    lemma_reduced(d);
    lemma_cong_diff(c, d);
    lemma_nonzero_is_unit(c - d);
    lemma_inv(c - d);
    let witness = (r - s) * inv(c - d);
    lemma_answered(statement.first_base, statement.first_target, c, d, r, s);
    lemma_answered(statement.second_base, statement.second_target, c, d, r, s);
    assert(cong(statement.first_target, statement.first_base * witness));
}

proof fn lemma_answered(base: int, target: int, c: int, d: int, r: int, s: int)
    requires
        is_unit(c - d),
        cong(base * r - target * c, base * s - target * d),
    ensures
        cong(target, base * ((r - s) * inv(c - d))),
{
    let e = c - d;
    let i = inv(e);
    lemma_inv(e);
    lemma_cong_add(
        base * r - target * c,
        base * s - target * d,
        target * c - base * s,
        target * c - base * s,
    );
    assert((base * r - target * c) + (target * c - base * s)
        == base * (r - s)) by (nonlinear_arith);
    assert((base * s - target * d) + (target * c - base * s) == target * e) by (nonlinear_arith)
        requires
            e == c - d,
    ;
    lemma_cong_mul(base * (r - s), target * e, i, i);
    lemma_cong_mul(target, target, e * i, 1);
    assert(base * (r - s) * i == base * ((r - s) * i)) by (nonlinear_arith);
    assert(target * e * i == target * (e * i)) by (nonlinear_arith);
}

/// A proof that holds has for its challenge the one that its purpose, its setup, its context,
/// the statement and the commitments it answers give, and no other.
pub proof fn law_proof_answers_its_challenge(claim: Claim, made: DleqProof)
    ensures
        claim.holds(made) <==> challenge_of(
            claim.purpose,
            claim.setup_id,
            claim.context,
            claim.statement,
            (claim.statement.first_base * made.response@ - claim.statement.first_target
                * made.challenge@) % order(),
            (claim.statement.second_base * made.response@ - claim.statement.second_target
                * made.challenge@) % order(),
        ) == Some(made.challenge@),
{
}

} // verus!
