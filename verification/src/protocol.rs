//! The inner product argument as a function of numbers.
//!
//! Points stand here for their discrete logarithms, so that a commitment is an inner product, and
//! the transcript for its state. What the prover sends and what the verifier checks is stated over
//! these numbers.
#![allow(non_snake_case)]
use vstd::prelude::*;

use crate::algebra::{
    bytes_value, dot, inverse, inverses, is_inverse, is_reduced, le_bytes, lemma_residue_mul,
    lemma_residue_of_reduced, lemma_residue_reduced, product_sum, residue,
};
use crate::folding::{fold, folded_rounds, left, lemma_fold_shape, right};
use crate::point::point_encoding;
use crate::transcript::{
    absorbed, after_challenge, challenge, lemma_points_one_by_one, squeezed, with_points,
    with_scalar,
};

verus! {

/// What the prover sends in one round.
pub struct RoundModel {
    pub L_C: int,
    pub L_D: int,
    pub R_C: int,
    pub R_D: int,
}

/// A proof.
#[verifier::ext_equal]
pub struct ProofModel {
    pub B_c: int,
    pub B_d: int,
    pub rounds: Seq<RoundModel>,
    pub c_final: int,
    pub d_final: int,
}

/// What the prover folds: the two witness vectors and the two bases.
#[verifier::ext_equal]
pub struct Vectors {
    pub c: Seq<int>,
    pub d: Seq<int>,
    pub G: Seq<int>,
    pub G_prime: Seq<int>,
}

/// What prover and verifier know after the first step.
pub struct Opening {
    pub alpha: int,
    pub beta: int,
    pub state: Seq<u8>,
}

/// The rounds that the prover went through, the two entries that are left if every challenge was
/// invertible, and the state of the transcript.
#[verifier::ext_equal]
pub struct Rounds {
    pub sent: Seq<RoundModel>,
    pub finals: Option<(int, int)>,
    pub state: Seq<u8>,
}

/// The claim that the inner product of the scalars and the bases is the point.
#[verifier::ext_equal]
pub struct Check {
    pub point: int,
    pub scalars: Seq<int>,
    pub bases: Seq<int>,
}

/// `x` has an inverse.
pub open spec fn invertible(x: int) -> bool {
    is_inverse(x, inverse(x))
}

/// Every entry has an inverse.
pub open spec fn all_invertible(v: Seq<int>) -> bool {
    forall|i: int| 0 <= i < v.len() ==> invertible(#[trigger] v[i])
}

/// Every entry but 0 has an inverse.
pub open spec fn inverses_exist(v: Seq<int>) -> bool {
    forall|i: int| 0 <= i < v.len() && v[i] != 0 ==> invertible(#[trigger] v[i])
}

/// The first step: the statement and the blinder commitments are appended, and two challenges
/// drawn.
pub open spec fn opening(state: Seq<u8>, C: int, D: int, z: int, B_c: int, B_d: int) -> Opening {
    let s1 = with_points(state, "ipa_step1"@, seq![C, D]);
    let s2 = with_scalar(s1, "ipa_step1"@, z);
    let s3 = with_points(s2, "ipa_step1"@, seq![B_c, B_d]);
    let s4 = after_challenge(s3, "ipa_alpha"@);
    Opening {
        alpha: challenge(s3, "ipa_alpha"@),
        beta: challenge(s4, "ipa_beta"@),
        state: after_challenge(s4, "ipa_beta"@),
    }
}

/// The state after appending what was sent in a round.
pub open spec fn after_message(state: Seq<u8>, m: RoundModel) -> Seq<u8> {
    with_points(state, "ipa_loop"@, seq![m.L_C, m.L_D, m.R_C, m.R_D])
}

/// The challenge of a round.
pub open spec fn round_challenge(state: Seq<u8>, m: RoundModel) -> int {
    challenge(after_message(state, m), "ipa_gamma"@)
}

/// The state after a round.
pub open spec fn after_round(state: Seq<u8>, m: RoundModel) -> Seq<u8> {
    after_challenge(after_message(state, m), "ipa_gamma"@)
}

/// The challenges of all rounds.
pub open spec fn round_challenges(state: Seq<u8>, sent: Seq<RoundModel>) -> Seq<int>
    decreases sent.len(),
{
    if sent.len() == 0 {
        seq![]
    } else {
        seq![round_challenge(state, sent[0])] + round_challenges(
            after_round(state, sent[0]),
            sent.drop_first(),
        )
    }
}

/// The state after all rounds.
pub open spec fn after_rounds(state: Seq<u8>, sent: Seq<RoundModel>) -> Seq<u8>
    decreases sent.len(),
{
    if sent.len() == 0 {
        state
    } else {
        after_rounds(after_round(state, sent[0]), sent.drop_first())
    }
}

/// The vector `v`, multiplied by `alpha`, under the blinders `r`.
pub open spec fn blinded(v: Seq<int>, r: Seq<int>, alpha: int) -> Seq<int> {
    Seq::new(v.len(), |i: int| residue(r[i] + alpha * v[i]))
}

/// The blinder vectors `r` and `z` hide `c` and `d`: `<r, d> + <z, c> == 0` and `<r, z> == 0`.
pub open spec fn are_blinders(r: Seq<int>, z: Seq<int>, c: Seq<int>, d: Seq<int>) -> bool {
    &&& r.len() == z.len() == c.len() == d.len()
    &&& residue(product_sum(r, d) + product_sum(z, c)) == 0
    &&& dot(r, z) == 0
}

/// What the prover sends in a round, where `h` commits to inner products.
pub open spec fn round_message(v: Vectors, h: int) -> RoundModel {
    RoundModel {
        L_C: residue(dot(right(v.G), left(v.c)) + h * dot(left(v.c), right(v.d))),
        L_D: dot(left(v.G_prime), right(v.d)),
        R_C: residue(dot(left(v.G), right(v.c)) + h * dot(right(v.c), left(v.d))),
        R_D: dot(right(v.G_prime), left(v.d)),
    }
}

/// The vectors folded under the challenge `gamma`.
pub open spec fn folded(v: Vectors, gamma: int) -> Vectors {
    Vectors {
        c: fold(v.c, inverse(gamma)),
        d: fold(v.d, gamma),
        G: fold(v.G, gamma),
        G_prime: fold(v.G_prime, inverse(gamma)),
    }
}

/// The rounds of the prover: it sends and folds until one entry is left, and gives up at a
/// challenge that has no inverse.
pub open spec fn prove_rounds(v: Vectors, h: int, state: Seq<u8>) -> Rounds
    decreases v.c.len(),
{
    if v.c.len() <= 1 {
        Rounds { sent: seq![], finals: Some((v.c[0], v.d[0])), state }
    } else {
        proof {
            lemma_fold_shape(v.c.len());
        }
        let m = round_message(v, h);
        let gamma = round_challenge(state, m);
        let next = after_round(state, m);
        if invertible(gamma) {
            preceded(seq![m], prove_rounds(folded(v, gamma), h, next))
        } else {
            Rounds { sent: seq![m], finals: None, state: next }
        }
    }
}

/// Rounds after which others come.
pub open spec fn preceded(sent: Seq<RoundModel>, rounds: Rounds) -> Rounds {
    Rounds { sent: sent + rounds.sent, ..rounds }
}

/// The rounds of the prover after the first step.
pub open spec fn prover_rounds(
    v: Vectors,
    crs_H: int,
    r_c: Seq<int>,
    r_d: Seq<int>,
    o: Opening,
) -> Rounds {
    prove_rounds(
        Vectors { c: blinded(v.c, r_c, o.alpha), d: blinded(v.d, r_d, o.alpha), ..v },
        residue(crs_H * o.beta),
        o.state,
    )
}

/// The challenges that the prover meets with the blinders `r_c` and `r_d`.
pub open spec fn prover_challenges(
    v: Vectors,
    crs_H: int,
    C: int,
    D: int,
    z: int,
    r_c: Seq<int>,
    r_d: Seq<int>,
    state: Seq<u8>,
) -> Seq<int> {
    let o = opening(state, C, D, z, dot(v.G, r_c), dot(v.G_prime, r_d));
    round_challenges(o.state, prover_rounds(v, crs_H, r_c, r_d, o).sent)
}

/// What the prover does with the blinders `r_c` and `r_d`: the proof, if every challenge was
/// invertible, and the state of the transcript.
pub open spec fn prove(
    v: Vectors,
    crs_H: int,
    C: int,
    D: int,
    z: int,
    r_c: Seq<int>,
    r_d: Seq<int>,
    state: Seq<u8>,
) -> (Option<ProofModel>, Seq<u8>) {
    let B_c = dot(v.G, r_c);
    let B_d = dot(v.G_prime, r_d);
    let o = opening(state, C, D, z, B_c, B_d);
    let rounds = prover_rounds(v, crs_H, r_c, r_d, o);
    let proof = match rounds.finals {
        Some((c_final, d_final)) => Some(
            ProofModel { B_c, B_d, rounds: rounds.sent, c_final, d_final },
        ),
        None => None,
    };
    (proof, rounds.state)
}

/// The prover came from the state `before` to the state `after` and to the proof, or none, `made`
/// with some blinders that hide the vectors.
pub open spec fn proven(
    v: Vectors,
    crs_H: int,
    C: int,
    D: int,
    z: int,
    before: Seq<u8>,
    made: Option<ProofModel>,
    after: Seq<u8>,
) -> bool {
    exists|r_c: Seq<int>, r_d: Seq<int>|
        are_blinders(r_c, r_d, v.c, v.d) && #[trigger] prove(
            v,
            crs_H,
            C,
            D,
            z,
            r_c,
            r_d,
            before,
        ) == (made, after)
}

/// The product of the challenges of some rounds.
pub open spec fn challenge_product(challenges: Seq<int>, rounds: Seq<usize>) -> int
    decreases rounds.len(),
{
    if rounds.len() == 0 {
        1
    } else {
        residue(challenges[rounds[0] as int] * challenge_product(challenges, rounds.drop_first()))
    }
}

/// For each of `n` entries the product of the challenges of the rounds in which it is folded.
pub open spec fn folding_scalars(n: nat, challenges: Seq<int>) -> Seq<int> {
    Seq::new(
        n,
        |i: int| challenge_product(challenges, folded_rounds(n, i, 0, challenges.len())),
    )
}

/// One more round has one more challenge.
pub proof fn lemma_round_challenges_push(state: Seq<u8>, sent: Seq<RoundModel>, m: RoundModel)
    ensures
        round_challenges(state, sent.push(m)) == round_challenges(state, sent).push(
            round_challenge(after_rounds(state, sent), m),
        ),
        after_rounds(state, sent.push(m)) == after_round(after_rounds(state, sent), m),
    decreases sent.len(),
{
    let all = sent.push(m);
    if sent.len() == 0 {
        reveal_with_fuel(round_challenges, 2);
        reveal_with_fuel(after_rounds, 2);
        assert(all.drop_first() =~= seq![]);
    } else {
        assert(all.drop_first() =~= sent.drop_first().push(m));
        lemma_round_challenges_push(after_round(state, sent[0]), sent.drop_first(), m);
    }
    assert(round_challenges(state, all) =~= round_challenges(state, sent).push(
        round_challenge(after_rounds(state, sent), m),
    ));
}

/// Each round has one challenge.
pub proof fn lemma_round_challenges_len(state: Seq<u8>, sent: Seq<RoundModel>)
    ensures
        round_challenges(state, sent).len() == sent.len(),
    decreases sent.len(),
{
    if sent.len() != 0 {
        lemma_round_challenges_len(after_round(state, sent[0]), sent.drop_first());
    }
}

/// A product of challenges is reduced.
pub proof fn lemma_challenge_product_reduced(challenges: Seq<int>, rounds: Seq<usize>)
    ensures
        is_reduced(challenge_product(challenges, rounds)),
{
    if rounds.len() != 0 {
        lemma_residue_reduced(
            challenges[rounds[0] as int] * challenge_product(challenges, rounds.drop_first()),
        );
    }
}

/// What is sent as `L_C` in the rounds.
pub open spec fn sent_L_C(rounds: Seq<RoundModel>) -> Seq<int> {
    Seq::new(rounds.len(), |i: int| rounds[i].L_C)
}

/// What is sent as `L_D` in the rounds.
pub open spec fn sent_L_D(rounds: Seq<RoundModel>) -> Seq<int> {
    Seq::new(rounds.len(), |i: int| rounds[i].L_D)
}

/// What is sent as `R_C` in the rounds.
pub open spec fn sent_R_C(rounds: Seq<RoundModel>) -> Seq<int> {
    Seq::new(rounds.len(), |i: int| rounds[i].R_C)
}

/// What is sent as `R_D` in the rounds.
pub open spec fn sent_R_D(rounds: Seq<RoundModel>) -> Seq<int> {
    Seq::new(rounds.len(), |i: int| rounds[i].R_D)
}

/// The check on the commitment to `c`.
pub open spec fn first_check(
    p: ProofModel,
    G: Seq<int>,
    crs_H: int,
    C: int,
    z: int,
    alpha: int,
    beta: int,
    gammas: Seq<int>,
) -> Check {
    Check {
        point: residue(
            dot(sent_L_C(p.rounds), gammas) + p.B_c + alpha * C + alpha * alpha * z * (beta * crs_H)
                + dot(sent_R_C(p.rounds), inverses(gammas)),
        ),
        scalars: Seq::new(
            G.len(),
            |i: int| residue(p.c_final * folding_scalars(G.len(), gammas)[i]),
        ).push(residue(p.c_final * p.d_final * beta)),
        bases: G.push(crs_H),
    }
}

/// The check on the commitment to `d`, whose basis is `G` with its entries multiplied by those of
/// `u`.
pub open spec fn second_check(
    p: ProofModel,
    G: Seq<int>,
    D: int,
    u: Seq<int>,
    alpha: int,
    gammas: Seq<int>,
) -> Check {
    let len = if G.len() <= u.len() {
        G.len()
    } else {
        u.len()
    };
    Check {
        point: residue(
            dot(sent_L_D(p.rounds), gammas) + p.B_d + alpha * D + dot(
                sent_R_D(p.rounds),
                inverses(gammas),
            ),
        ),
        scalars: Seq::new(
            len,
            |i: int| residue(p.d_final * (inverse(folding_scalars(G.len(), gammas)[i]) * u[i])),
        ),
        bases: G,
    }
}

/// The challenges of the rounds that the verifier recomputes.
pub open spec fn verifier_challenges(
    p: ProofModel,
    C: int,
    D: int,
    z: int,
    state: Seq<u8>,
) -> Seq<int> {
    round_challenges(opening(state, C, D, z, p.B_c, p.B_d).state, p.rounds)
}

/// What the verifier does: the two checks, unless the proof has too many rounds, and the state of
/// the transcript.
pub open spec fn verification(
    p: ProofModel,
    G: Seq<int>,
    crs_H: int,
    C: int,
    D: int,
    z: int,
    u: Seq<int>,
    state: Seq<u8>,
) -> (Option<(Check, Check)>, Seq<u8>) {
    let o = opening(state, C, D, z, p.B_c, p.B_d);
    if p.rounds.len() >= 32 {
        (None, o.state)
    } else {
        let gammas = verifier_challenges(p, C, D, z, state);
        let checks = (
            first_check(p, G, crs_H, C, z, o.alpha, o.beta, gammas),
            second_check(p, G, D, u, o.alpha, gammas),
        );
        (Some(checks), after_rounds(o.state, p.rounds))
    }
}

/// The scalars of a check meet its bases pairwise, over the length of the shorter sequence; the
/// check holds if their inner product is the point.
pub open spec fn check_holds(check: Check) -> bool {
    check.point == dot(check.scalars, check.bases)
}

/// What the first step absorbs, in its order, and the challenges that are drawn after it.
pub proof fn lemma_opening_in_order(state: Seq<u8>, C: int, D: int, z: int, B_c: int, B_d: int)
    ensures
        ({
            let o = opening(state, C, D, z, B_c, B_d);
            let s1 = absorbed(state, "ipa_step1"@, point_encoding(C));
            let s2 = absorbed(s1, "ipa_step1"@, point_encoding(D));
            let s3 = absorbed(s2, "ipa_step1"@, le_bytes(z, 32));
            let s4 = absorbed(s3, "ipa_step1"@, point_encoding(B_c));
            let s5 = absorbed(s4, "ipa_step1"@, point_encoding(B_d));
            let (bytes, s6) = squeezed(s5, "ipa_alpha"@, 64);
            let s7 = absorbed(s6, "ipa_alpha"@, le_bytes(o.alpha, 32));
            let (more, s8) = squeezed(s7, "ipa_beta"@, 64);
            &&& o.alpha == residue(bytes_value(bytes))
            &&& o.beta == residue(bytes_value(more))
            &&& o.state == absorbed(s8, "ipa_beta"@, le_bytes(o.beta, 32))
        }),
{
    lemma_two_points(state, "ipa_step1"@, C, D);
    let s1 = with_points(state, "ipa_step1"@, seq![C, D]);
    lemma_two_points(with_scalar(s1, "ipa_step1"@, z), "ipa_step1"@, B_c, B_d);
}

/// Two points are absorbed one after the other.
proof fn lemma_two_points(state: Seq<u8>, label: Seq<char>, j: int, k: int)
    ensures
        with_points(state, label, seq![j, k]) == absorbed(
            absorbed(state, label, point_encoding(j)),
            label,
            point_encoding(k),
        ),
{
    lemma_points_one_by_one(state, label, seq![j], seq![k], j);
    lemma_points_one_by_one(with_points(state, label, seq![j]), label, seq![], seq![], k);
    assert(seq![j] + seq![k] =~= seq![j, k]);
}

/// What one round absorbs, in its order, and the challenge that is drawn after it; and the
/// challenges of some rounds and then others.
pub proof fn lemma_rounds_in_order(
    state: Seq<u8>,
    m: RoundModel,
    a: Seq<RoundModel>,
    b: Seq<RoundModel>,
)
    ensures
        ({
            let s1 = absorbed(state, "ipa_loop"@, point_encoding(m.L_C));
            let s2 = absorbed(s1, "ipa_loop"@, point_encoding(m.L_D));
            let s3 = absorbed(s2, "ipa_loop"@, point_encoding(m.R_C));
            let s4 = absorbed(s3, "ipa_loop"@, point_encoding(m.R_D));
            let (bytes, s5) = squeezed(s4, "ipa_gamma"@, 64);
            let gamma = residue(bytes_value(bytes));
            &&& round_challenges(state, seq![m]) == seq![gamma]
            &&& after_rounds(state, seq![m]) == absorbed(s5, "ipa_gamma"@, le_bytes(gamma, 32))
        }),
        round_challenges(state, Seq::empty()) == Seq::<int>::empty(),
        after_rounds(state, Seq::empty()) == state,
        round_challenges(state, a + b) == round_challenges(state, a) + round_challenges(
            after_rounds(state, a),
            b,
        ),
        after_rounds(state, a + b) == after_rounds(after_rounds(state, a), b),
    decreases a.len(),
{
    reveal_with_fuel(round_challenges, 2);
    reveal_with_fuel(after_rounds, 2);
    assert(seq![m].drop_first() =~= Seq::<RoundModel>::empty());
    assert(seq![round_challenge(state, m)] + Seq::<int>::empty() =~= seq![
        round_challenge(state, m),
    ]);
    lemma_two_points(state, "ipa_loop"@, m.L_C, m.L_D);
    let s2 = with_points(state, "ipa_loop"@, seq![m.L_C, m.L_D]);
    lemma_two_points(s2, "ipa_loop"@, m.R_C, m.R_D);
    lemma_points_one_by_one(
        state,
        "ipa_loop"@,
        seq![m.L_C, m.L_D],
        seq![m.R_C, m.R_D],
        0,
    );
    assert(seq![m.L_C, m.L_D] + seq![m.R_C, m.R_D] =~= seq![m.L_C, m.L_D, m.R_C, m.R_D]);
    if a.len() == 0 {
        assert(a + b =~= b);
        assert(Seq::<int>::empty() + round_challenges(state, b) =~= round_challenges(state, b));
    } else {
        let (next, rest) = (after_round(state, a[0]), a.drop_first());
        assert((a + b).drop_first() =~= rest + b);
        lemma_rounds_in_order(next, m, rest, b);
        assert(seq![round_challenge(state, a[0])] + (round_challenges(next, rest)
            + round_challenges(after_rounds(next, rest), b)) =~= seq![round_challenge(state, a[0])]
            + round_challenges(next, rest) + round_challenges(after_rounds(next, rest), b));
    }
}

/// The product over no rounds is 1, that over one round is its challenge, and that over a
/// concatenation is the product of the products.
pub proof fn lemma_challenge_product_concat(
    challenges: Seq<int>,
    a: Seq<usize>,
    b: Seq<usize>,
    j: usize,
)
    ensures
        challenge_product(challenges, Seq::empty()) == 1,
        challenge_product(challenges, seq![j]) == residue(challenges[j as int]),
        challenge_product(challenges, a + b) == residue(
            challenge_product(challenges, a) * challenge_product(challenges, b),
        ),
    decreases a.len(),
{
    reveal_with_fuel(challenge_product, 2);
    assert(seq![j].drop_first() =~= Seq::<usize>::empty());
    assert(challenges[j as int] * 1 == challenges[j as int]);
    let y = challenge_product(challenges, b);
    if a.len() == 0 {
        assert(a + b =~= b);
        lemma_challenge_product_reduced(challenges, b);
        lemma_residue_of_reduced(y);
        assert(1 * y == y);
    } else {
        let g = challenges[a[0] as int];
        let x = challenge_product(challenges, a.drop_first());
        assert((a + b).drop_first() =~= a.drop_first() + b);
        lemma_challenge_product_concat(challenges, a.drop_first(), b, j);
        lemma_residue_mul(g, x * y);
        lemma_residue_mul(g * x, y);
        assert(g * (x * y) == (g * x) * y) by (nonlinear_arith);
    }
}

/// The verifier refuses a proof exactly if it has 32 rounds or more, and otherwise makes both
/// checks with the challenges that it recomputes.
pub proof fn lemma_refused_by_rounds(
    p: ProofModel,
    G: Seq<int>,
    crs_H: int,
    C: int,
    D: int,
    z: int,
    u: Seq<int>,
    state: Seq<u8>,
)
    ensures
        verification(p, G, crs_H, C, D, z, u, state).0 is None <==> p.rounds.len() >= 32,
        p.rounds.len() < 32 ==> ({
            let o = opening(state, C, D, z, p.B_c, p.B_d);
            let gammas = round_challenges(o.state, p.rounds);
            let (first, second) = verification(p, G, crs_H, C, D, z, u, state).0->Some_0;
            &&& first == first_check(p, G, crs_H, C, z, o.alpha, o.beta, gammas)
            &&& second == second_check(p, G, D, u, o.alpha, gammas)
        }),
        p.rounds.len() < 32 ==> verification(p, G, crs_H, C, D, z, u, state).1 == after_rounds(
            opening(state, C, D, z, p.B_c, p.B_d).state,
            p.rounds,
        ),
        p.rounds.len() >= 32 ==> verification(p, G, crs_H, C, D, z, u, state).1 == opening(
            state,
            C,
            D,
            z,
            p.B_c,
            p.B_d,
        ).state,
{
}

} // verus!
