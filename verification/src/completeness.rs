//! Why honest proofs are accepted.
#![allow(non_snake_case)]
use vstd::arithmetic::mul::lemma_mul_is_commutative;
use vstd::arithmetic::power2::{lemma2_to64, lemma_pow2_strictly_increases};
use vstd::prelude::*;

use crate::algebra::{
    dot, inverse, inverses, is_reduced, lemma_congruent_add, lemma_congruent_mul,
    lemma_congruent_sub, lemma_dot_reduced, lemma_inverse_of_one, lemma_inverse_of_product,
    lemma_inverse_of_zero, lemma_product_sum_commutes, lemma_product_sum_concat,
    lemma_product_sum_congruent, lemma_product_sum_push, lemma_residue_mul,
    lemma_residue_of_reduced, lemma_residue_reduced, lemma_residue_twice, lemma_scaled_dot,
    product_sum, residue,
};
use crate::blinders::{draw_outcome, proven_from_draws};
use crate::folding::{
    ceil_log2, fold, fold_count, fold_first, fold_start, folded_rounds, left, lemma_ceil_log2,
    lemma_fold_shape, lemma_folded_rounds_in_order, right,
};
use crate::msm_accumulator::{accumulated, both_accumulated, imbalance, lemma_passing_check};
use crate::protocol::{
    after_round, after_rounds, all_invertible, are_blinders, blinded, challenge_product,
    check_holds, first_check, folded, folding_scalars, invertible, opening, prove, prove_rounds,
    proven, prover_challenges, round_challenge, round_challenges, round_message, second_check,
    sent_L_C, sent_L_D, sent_R_C, sent_R_D, verification, verifier_challenges, Check, ProofModel,
    RoundModel, Vectors,
};

verus! {

/// The entries of `R`, multiplied by `w`, added to those of `L`.
spec fn mixed(L: Seq<int>, R: Seq<int>, w: int) -> Seq<int> {
    Seq::new(L.len(), |i: int| residue(L[i] + w * R[i]))
}

/// The entries before those that others are folded into.
spec fn head(v: Seq<int>) -> Seq<int> {
    v.subrange(0, fold_start(v.len()) as int)
}

/// The entries after those that others are folded into, and before those that are folded.
spec fn middle(v: Seq<int>) -> Seq<int> {
    v.subrange((fold_start(v.len()) + fold_count(v.len())) as int, fold_first(v.len()) as int)
}

/// A vector and what it is folded to, by their parts.
proof fn lemma_fold_parts(v: Seq<int>, w: int)
    requires
        v.len() >= 2,
    ensures
        v == head(v) + left(v) + middle(v) + right(v),
        fold(v, w) == head(v) + mixed(left(v), right(v), w) + middle(v),
        head(v).len() == fold_start(v.len()),
        left(v).len() == right(v).len() == fold_count(v.len()),
        middle(v).len() == fold_first(v.len()) - fold_start(v.len()) - fold_count(v.len()),
{
    lemma_fold_shape(v.len());
    assert(v =~= head(v) + left(v) + middle(v) + right(v));
    assert(fold(v, w) =~= head(v) + mixed(left(v), right(v), w) + middle(v));
}

/// The sum of products of two vectors in four parts.
proof fn lemma_product_sum_parts(
    a1: Seq<int>,
    a2: Seq<int>,
    a3: Seq<int>,
    a4: Seq<int>,
    b1: Seq<int>,
    b2: Seq<int>,
    b3: Seq<int>,
    b4: Seq<int>,
)
    requires
        a1.len() == b1.len(),
        a2.len() == b2.len(),
        a3.len() == b3.len(),
    ensures
        product_sum(a1 + a2 + a3 + a4, b1 + b2 + b3 + b4) == product_sum(a1, b1) + product_sum(
            a2,
            b2,
        ) + product_sum(a3, b3) + product_sum(a4, b4),
        product_sum(a1 + a2 + a3, b1 + b2 + b3) == product_sum(a1, b1) + product_sum(a2, b2)
            + product_sum(a3, b3),
{
    lemma_product_sum_concat(a1, b1, a2, b2);
    lemma_product_sum_concat(a1 + a2, b1 + b2, a3, b3);
    lemma_product_sum_concat(a1 + a2 + a3, b1 + b2 + b3, a4, b4);
}

/// One product of folded entries, where the weights are inverse to each other.
proof fn lemma_mixed_product(la: int, ra: int, lb: int, rb: int, w: int, v: int)
    requires
        residue(w * v) == 1,
    ensures
        residue(residue(la + w * ra) * residue(lb + v * rb)) == residue(
            la * lb + ra * rb + v * (la * rb) + w * (ra * lb),
        ),
{
    let t = la * lb + v * (la * rb) + w * (ra * lb);
    lemma_residue_mul(la + w * ra, lb + v * rb);
    assert((la + w * ra) * (lb + v * rb) == t + (w * v) * (ra * rb)) by {
        let x = w * ra;
        let y = v * rb;
        assert((la + x) * (lb + y) == la * lb + la * y + x * lb + x * y) by (nonlinear_arith);
        assert(la * (v * rb) == v * (la * rb)) by (nonlinear_arith);
        assert((w * ra) * lb == w * (ra * lb)) by (nonlinear_arith);
        assert((w * ra) * (v * rb) == (w * v) * (ra * rb)) by (nonlinear_arith);
    }
    lemma_residue_of_reduced(1);
    lemma_congruent_mul(w * v, 1, ra * rb, ra * rb);
    lemma_congruent_add(t, t, (w * v) * (ra * rb), ra * rb);
}

/// The inner product of folded parts, where the weights are inverse to each other.
proof fn lemma_mixed_dot(
    LA: Seq<int>,
    RA: Seq<int>,
    LB: Seq<int>,
    RB: Seq<int>,
    w: int,
    v: int,
)
    requires
        LA.len() == RA.len() == LB.len() == RB.len(),
        residue(w * v) == 1,
    ensures
        dot(mixed(LA, RA, w), mixed(LB, RB, v)) == residue(
            product_sum(LA, LB) + product_sum(RA, RB) + v * product_sum(LA, RB) + w * product_sum(
                RA,
                LB,
            ),
        ),
    decreases LA.len(),
{
    if LA.len() == 0 {
        assert(v * 0 == 0 && w * 0 == 0);
    } else {
        let (LA1, RA1, LB1, RB1) = (
            LA.drop_first(),
            RA.drop_first(),
            LB.drop_first(),
            RB.drop_first(),
        );
        lemma_mixed_dot(LA1, RA1, LB1, RB1, w, v);
        assert(mixed(LA, RA, w).drop_first() =~= mixed(LA1, RA1, w));
        assert(mixed(LB, RB, v).drop_first() =~= mixed(LB1, RB1, v));
        lemma_mixed_product(LA[0], RA[0], LB[0], RB[0], w, v);
        let rest = product_sum(LA1, LB1) + product_sum(RA1, RB1) + v * product_sum(LA1, RB1) + w
            * product_sum(RA1, LB1);
        lemma_congruent_add(
            residue(LA[0] + w * RA[0]) * residue(LB[0] + v * RB[0]),
            LA[0] * LB[0] + RA[0] * RB[0] + v * (LA[0] * RB[0]) + w * (RA[0] * LB[0]),
            product_sum(mixed(LA1, RA1, w), mixed(LB1, RB1, v)),
            rest,
        );
        assert(v * (LA[0] * RB[0] + product_sum(LA1, RB1)) == v * (LA[0] * RB[0]) + v * product_sum(
            LA1,
            RB1,
        )) by (nonlinear_arith);
        assert(w * (RA[0] * LB[0] + product_sum(RA1, LB1)) == w * (RA[0] * LB[0]) + w * product_sum(
            RA1,
            LB1,
        )) by (nonlinear_arith);
    }
}

/// Folding two vectors with weights that are inverse to each other adds the inner products of the
/// parts that met, each multiplied by the weight of its right part.
pub proof fn lemma_fold_dot(a: Seq<int>, b: Seq<int>, w: int, v: int)
    requires
        a.len() == b.len(),
        a.len() >= 2,
        residue(w * v) == 1,
    ensures
        dot(fold(a, w), fold(b, v)) == residue(
            product_sum(a, b) + v * product_sum(left(a), right(b)) + w * product_sum(
                right(a),
                left(b),
            ),
        ),
{
    lemma_fold_parts(a, w);
    lemma_fold_parts(b, v);
    let (ma, mb) = (mixed(left(a), right(a), w), mixed(left(b), right(b), v));
    lemma_product_sum_parts(
        head(a),
        left(a),
        middle(a),
        right(a),
        head(b),
        left(b),
        middle(b),
        right(b),
    );
    lemma_product_sum_parts(head(a), ma, middle(a), right(a), head(b), mb, middle(b), right(b));
    lemma_mixed_dot(left(a), right(a), left(b), right(b), w, v);
    let kept = product_sum(head(a), head(b)) + product_sum(middle(a), middle(b));
    lemma_congruent_add(
        kept,
        kept,
        product_sum(ma, mb),
        product_sum(left(a), left(b)) + product_sum(right(a), right(b)) + v * product_sum(
            left(a),
            right(b),
        ) + w * product_sum(right(a), left(b)),
    );
}

/// The one entry that is left after folding `v` once with each weight.
pub open spec fn folded_down(v: Seq<int>, weights: Seq<int>) -> int
    decreases weights.len(),
{
    if weights.len() == 0 {
        v[0]
    } else {
        folded_down(fold(v, weights[0]), weights.drop_first())
    }
}

/// For each of `n` entries the product of the challenges of the rounds in which it is folded, where
/// folding starts in round `round`.
spec fn scalars_from(n: nat, challenges: Seq<int>, round: nat) -> Seq<int> {
    Seq::new(
        n,
        |k: int| challenge_product(challenges, folded_rounds(n, k, round, challenges.len())),
    )
}

/// Multiplying the entries of a vector commutes with folding the part that they stand in.
proof fn lemma_weighted_mixed(s: Seq<int>, ws: Seq<int>, L: Seq<int>, R: Seq<int>, w: int)
    requires
        s.len() == L.len() == R.len(),
        ws == Seq::new(s.len(), |i: int| residue(w * s[i])),
    ensures
        dot(s, mixed(L, R, w)) == residue(product_sum(s, L) + product_sum(ws, R)),
    decreases s.len(),
{
    if s.len() != 0 {
        let (s1, ws1, L1, R1) = (
            s.drop_first(),
            ws.drop_first(),
            L.drop_first(),
            R.drop_first(),
        );
        assert(ws1 =~= Seq::new(s1.len(), |i: int| residue(w * s1[i])));
        lemma_weighted_mixed(s1, ws1, L1, R1, w);
        assert(mixed(L, R, w).drop_first() =~= mixed(L1, R1, w));
        let (a, l, r) = (s[0], L[0], R[0]);
        lemma_residue_mul(a, l + w * r);
        lemma_residue_twice(w * a);
        lemma_congruent_mul(residue(w * a), w * a, r, r);
        lemma_congruent_add(a * l, a * l, residue(w * a) * r, (w * a) * r);
        assert(a * (l + w * r) == a * l + (w * a) * r) by (nonlinear_arith);
        lemma_congruent_add(
            a * residue(l + w * r),
            a * l + residue(w * a) * r,
            product_sum(s1, mixed(L1, R1, w)),
            product_sum(s1, L1) + product_sum(ws1, R1),
        );
    }
}

/// The products before a round come from those after it: an entry that is folded gets the factor of
/// the entry that it is folded into, multiplied by the challenge.
proof fn lemma_scalars_before_round(n: nat, challenges: Seq<int>, round: nat)
    requires
        n >= 2,
        round < challenges.len() <= usize::MAX,
    ensures
        ({
            let before = scalars_from(n, challenges, round);
            let after = scalars_from(fold_first(n), challenges, round + 1);
            &&& before.take(fold_first(n) as int) == after
            &&& right(before) == Seq::new(
                fold_count(n),
                |i: int| residue(challenges[round as int] * after[fold_start(n) + i]),
            )
        }),
{
    lemma_fold_shape(n);
    let f = fold_first(n);
    let before = scalars_from(n, challenges, round);
    let after = scalars_from(f, challenges, round + 1);
    assert(before.take(f as int) =~= after);
    assert forall|i: int| 0 <= i < fold_count(n) implies #[trigger] right(before)[i] == residue(
        challenges[round as int] * after[fold_start(n) + i],
    ) by {
        let rest = folded_rounds(f, fold_start(n) + i, round + 1, challenges.len());
        let rounds = folded_rounds(n, f + i, round, challenges.len());
        assert(rounds =~= seq![round as usize] + rest);
        assert(rounds.drop_first() =~= rest);
    }
    assert(right(before) =~= Seq::new(
        fold_count(n),
        |i: int| residue(challenges[round as int] * after[fold_start(n) + i]),
    ));
}

/// Folding a vector and multiplying its entries by the factors before or after the round give the
/// same inner product.
proof fn lemma_scalars_fold(n: nat, challenges: Seq<int>, round: nat, v: Seq<int>)
    requires
        n >= 2,
        v.len() == n,
        round < challenges.len() <= usize::MAX,
    ensures
        dot(scalars_from(fold_first(n), challenges, round + 1), fold(v, challenges[round as int]))
            == dot(scalars_from(n, challenges, round), v),
{
    let w = challenges[round as int];
    let before = scalars_from(n, challenges, round);
    let after = scalars_from(fold_first(n), challenges, round + 1);
    lemma_fold_shape(n);
    lemma_scalars_before_round(n, challenges, round);
    lemma_fold_parts(v, w);
    lemma_fold_parts(before, w);
    let m = mixed(left(v), right(v), w);
    let s = fold_start(n) as int;
    assert(after =~= head(before) + left(before) + middle(before)) by {
        assert(after =~= before.take(fold_first(n) as int));
    }
    lemma_product_sum_parts(
        head(before),
        left(before),
        middle(before),
        right(before),
        head(v),
        m,
        middle(v),
        right(v),
    );
    lemma_product_sum_parts(
        head(before),
        left(before),
        middle(before),
        right(before),
        head(v),
        left(v),
        middle(v),
        right(v),
    );
    assert forall|i: int| 0 <= i < fold_count(n) implies #[trigger] left(before)[i] == after[s
        + i] by {
        assert(after[s + i] == before.take(fold_first(n) as int)[s + i]);
    }
    assert(right(before) =~= Seq::new(left(before).len(), |i: int| residue(w * left(before)[i])));
    lemma_weighted_mixed(left(before), right(before), left(v), right(v), w);
    let kept = product_sum(head(before), head(v)) + product_sum(middle(before), middle(v));
    lemma_congruent_add(
        kept,
        kept,
        product_sum(left(before), m),
        product_sum(left(before), left(v)) + product_sum(right(before), right(v)),
    );
}

proof fn lemma_scalars_fold_down(n: nat, challenges: Seq<int>, round: nat, v: Seq<int>)
    requires
        n >= 1,
        v.len() == n,
        round + ceil_log2(n) == challenges.len() <= usize::MAX,
    ensures
        dot(scalars_from(n, challenges, round), v) == residue(
            folded_down(v, challenges.skip(round as int)),
        ),
    decreases n,
{
    if n == 1 {
        let s = scalars_from(n, challenges, round);
        assert(s[0] == 1);
        reveal_with_fuel(product_sum, 2);
        assert(product_sum(s, v) == v[0]);
    } else {
        lemma_fold_shape(n);
        let w = challenges[round as int];
        lemma_scalars_fold(n, challenges, round, v);
        lemma_scalars_fold_down(fold_first(n), challenges, round + 1, fold(v, w));
        assert(challenges.skip(round as int).drop_first() =~= challenges.skip((round + 1) as int));
    }
}

/// Folding a vector down to one entry gives its inner product with the folding scalars.
pub proof fn lemma_folding_scalars(v: Seq<int>, challenges: Seq<int>)
    requires
        v.len() >= 1,
        challenges.len() == ceil_log2(v.len()) <= usize::MAX,
    ensures
        dot(folding_scalars(v.len(), challenges), v) == residue(folded_down(v, challenges)),
{
    lemma_scalars_fold_down(v.len(), challenges, 0, v);
    assert(challenges.skip(0) =~= challenges);
    assert(folding_scalars(v.len(), challenges) =~= scalars_from(v.len(), challenges, 0));
}

proof fn lemma_inverse_of_challenge_product(challenges: Seq<int>, rounds: Seq<usize>)
    requires
        forall|i: int| 0 <= i < challenges.len() ==> invertible(#[trigger] challenges[i]),
        forall|i: int| 0 <= i < rounds.len() ==> #[trigger] rounds[i] < challenges.len(),
    ensures
        invertible(challenge_product(challenges, rounds)),
        inverse(challenge_product(challenges, rounds)) == challenge_product(
            inverses(challenges),
            rounds,
        ),
    decreases rounds.len(),
{
    if rounds.len() == 0 {
        lemma_inverse_of_one();
    } else {
        let rest = rounds.drop_first();
        assert forall|i: int| 0 <= i < rest.len() implies #[trigger] rest[i] < challenges.len() by {
            assert(rest[i] == rounds[i + 1]);
        }
        lemma_inverse_of_challenge_product(challenges, rest);
        assert(rounds[0] < challenges.len());
        assert(invertible(challenges[rounds[0] as int]));
        lemma_inverse_of_product(
            challenges[rounds[0] as int],
            challenge_product(challenges, rest),
        );
    }
}

/// The inverses of the folding scalars are the folding scalars of the inverses.
pub proof fn lemma_inverse_folding_scalars(n: nat, challenges: Seq<int>)
    requires
        challenges.len() <= usize::MAX,
        forall|i: int| 0 <= i < challenges.len() ==> invertible(#[trigger] challenges[i]),
    ensures
        inverses(folding_scalars(n, challenges)) == folding_scalars(n, inverses(challenges)),
{
    assert forall|i: int| 0 <= i < n implies inverse(
        #[trigger] folding_scalars(n, challenges)[i],
    ) == folding_scalars(n, inverses(challenges))[i] by {
        lemma_folded_rounds_in_order(n, i, 0, challenges.len());
        lemma_inverse_of_challenge_product(
            challenges,
            folded_rounds(n, i, 0, challenges.len()),
        );
    }
    assert(inverses(folding_scalars(n, challenges)) =~= folding_scalars(n, inverses(challenges)));
}

/// What the messages of the rounds keep in balance for `c`.
pub open spec fn committed_c(v: Vectors, h: int) -> int {
    product_sum(v.G, v.c) + h * product_sum(v.c, v.d)
}

/// What the messages of the rounds keep in balance for `d`.
pub open spec fn committed_d(v: Vectors) -> int {
    product_sum(v.G_prime, v.d)
}

/// All vectors have one length.
pub open spec fn same_length(v: Vectors) -> bool {
    v.c.len() == v.d.len() == v.G.len() == v.G_prime.len()
}

/// The part of a message that commits to `c`, multiplied by its challenge, without the residues in
/// between.
proof fn lemma_message_term(g: int, h: int, x: int, y: int)
    ensures
        residue(g * residue(residue(x) + h * residue(y))) == residue(g * x + h * (g * y)),
{
    lemma_residue_twice(x);
    lemma_residue_twice(y);
    lemma_congruent_mul(h, h, residue(y), y);
    lemma_congruent_add(residue(x), x, h * residue(y), h * y);
    lemma_residue_twice(residue(x) + h * residue(y));
    lemma_congruent_mul(g, g, residue(residue(x) + h * residue(y)), x + h * y);
    assert(g * (x + h * y) == g * x + h * (g * y)) by (nonlinear_arith);
}

/// A round keeps the commitment to `c` in balance.
proof fn lemma_round_c(v: Vectors, h: int, gamma: int)
    requires
        same_length(v),
        v.c.len() >= 2,
        invertible(gamma),
    ensures
        residue(committed_c(folded(v, gamma), h)) == residue(
            committed_c(v, h) + gamma * round_message(v, h).L_C + inverse(gamma) * round_message(
                v,
                h,
            ).R_C,
        ),
{
    let inv = inverse(gamma);
    let next = folded(v, gamma);
    assert(inv * gamma == gamma * inv) by (nonlinear_arith);
    lemma_fold_dot(v.G, v.c, gamma, inv);
    lemma_fold_dot(v.c, v.d, inv, gamma);
    let lx = product_sum(right(v.G), left(v.c));
    let ly = product_sum(left(v.c), right(v.d));
    let rx = product_sum(left(v.G), right(v.c));
    let ry = product_sum(right(v.c), left(v.d));
    let gc = product_sum(v.G, v.c);
    let cd = product_sum(v.c, v.d);
    lemma_congruent_mul(h, h, product_sum(next.c, next.d), cd + gamma * ly + inv * ry);
    lemma_congruent_add(
        product_sum(next.G, next.c),
        gc + inv * rx + gamma * lx,
        h * product_sum(next.c, next.d),
        h * (cd + gamma * ly + inv * ry),
    );
    assert(h * (cd + gamma * ly + inv * ry) == h * cd + h * (gamma * ly) + h * (inv * ry))
        by (nonlinear_arith);
    lemma_message_term(gamma, h, lx, ly);
    lemma_message_term(inv, h, rx, ry);
    let m = round_message(v, h);
    lemma_congruent_add(
        gamma * m.L_C,
        gamma * lx + h * (gamma * ly),
        inv * m.R_C,
        inv * rx + h * (inv * ry),
    );
    lemma_congruent_add(
        gc + h * cd,
        gc + h * cd,
        gamma * m.L_C + inv * m.R_C,
        gamma * lx + h * (gamma * ly) + (inv * rx + h * (inv * ry)),
    );
}

/// A round keeps the commitment to `d` in balance.
proof fn lemma_round_d(v: Vectors, h: int, gamma: int)
    requires
        same_length(v),
        v.c.len() >= 2,
        invertible(gamma),
    ensures
        residue(committed_d(folded(v, gamma))) == residue(
            committed_d(v) + gamma * round_message(v, h).L_D + inverse(gamma) * round_message(
                v,
                h,
            ).R_D,
        ),
{
    let inv = inverse(gamma);
    let m = round_message(v, h);
    assert(inv * gamma == gamma * inv) by (nonlinear_arith);
    lemma_fold_dot(v.G_prime, v.d, inv, gamma);
    let l = product_sum(left(v.G_prime), right(v.d));
    let r = product_sum(right(v.G_prime), left(v.d));
    lemma_residue_twice(l);
    lemma_residue_twice(r);
    lemma_congruent_mul(gamma, gamma, m.L_D, l);
    lemma_congruent_mul(inv, inv, m.R_D, r);
    lemma_congruent_add(gamma * m.L_D, gamma * l, inv * m.R_D, inv * r);
    lemma_congruent_add(
        committed_d(v),
        committed_d(v),
        gamma * m.L_D + inv * m.R_D,
        gamma * l + inv * r,
    );
}

/// The sums over what was sent, when one more round comes first.
proof fn lemma_sums_preceded(first: int, rest: Seq<int>, all: Seq<int>, w: int, ws: Seq<int>)
    requires
        all == seq![first] + rest,
        rest.len() == ws.len(),
    ensures
        product_sum(all, seq![w] + ws) == w * first + product_sum(rest, ws),
{
    assert(all.drop_first() =~= rest);
    assert((seq![w] + ws).drop_first() =~= ws);
    assert(first * w == w * first) by (nonlinear_arith);
}

/// What the rounds of the prover amount to: the verifier draws the same challenges, and what was
/// sent accounts for the difference between the vectors and what is left of them.
pub proof fn lemma_rounds(v: Vectors, h: int, state: Seq<u8>)
    requires
        same_length(v),
        v.c.len() >= 1,
        prove_rounds(v, h, state).finals is Some,
    ensures
        ({
            let rounds = prove_rounds(v, h, state);
            let gammas = round_challenges(state, rounds.sent);
            let (c, d) = rounds.finals->Some_0;
            &&& rounds.sent.len() == gammas.len() == ceil_log2(v.c.len())
            &&& rounds.state == after_rounds(state, rounds.sent)
            &&& forall|i: int| 0 <= i < gammas.len() ==> invertible(#[trigger] gammas[i])
            &&& residue(
                committed_c(v, h) + product_sum(sent_L_C(rounds.sent), gammas) + product_sum(
                    sent_R_C(rounds.sent),
                    inverses(gammas),
                ),
            ) == residue(folded_down(v.G, gammas) * c + h * (c * d))
            &&& residue(
                committed_d(v) + product_sum(sent_L_D(rounds.sent), gammas) + product_sum(
                    sent_R_D(rounds.sent),
                    inverses(gammas),
                ),
            ) == residue(folded_down(v.G_prime, inverses(gammas)) * d)
        }),
    decreases v.c.len(),
{
    let rounds = prove_rounds(v, h, state);
    let gammas = round_challenges(state, rounds.sent);
    if v.c.len() == 1 {
        reveal_with_fuel(product_sum, 2);
        assert(inverses(gammas) =~= seq![]);
    } else {
        lemma_fold_shape(v.c.len());
        let m = round_message(v, h);
        let gamma = round_challenge(state, m);
        let inv = inverse(gamma);
        let next = folded(v, gamma);
        lemma_rounds(next, h, after_round(state, m));
        let later = prove_rounds(next, h, after_round(state, m));
        let later_gammas = round_challenges(after_round(state, m), later.sent);
        assert(rounds.sent.drop_first() =~= later.sent);
        assert(gammas =~= seq![gamma] + later_gammas);
        assert(gammas.drop_first() =~= later_gammas);
        assert(inverses(gammas) =~= seq![inv] + inverses(later_gammas));
        assert(inverses(gammas).drop_first() =~= inverses(later_gammas));
        assert forall|i: int| 0 <= i < gammas.len() implies invertible(#[trigger] gammas[i]) by {
            if i > 0 {
                assert(gammas[i] == later_gammas[i - 1]);
            }
        }
        assert(sent_L_C(rounds.sent) =~= seq![m.L_C] + sent_L_C(later.sent));
        assert(sent_R_C(rounds.sent) =~= seq![m.R_C] + sent_R_C(later.sent));
        assert(sent_L_D(rounds.sent) =~= seq![m.L_D] + sent_L_D(later.sent));
        assert(sent_R_D(rounds.sent) =~= seq![m.R_D] + sent_R_D(later.sent));
        let (lc, rc, ld, rd) = (
            sent_L_C(later.sent),
            sent_R_C(later.sent),
            sent_L_D(later.sent),
            sent_R_D(later.sent),
        );
        let later_invs = inverses(later_gammas);
        lemma_sums_preceded(m.L_C, lc, sent_L_C(rounds.sent), gamma, later_gammas);
        lemma_sums_preceded(m.R_C, rc, sent_R_C(rounds.sent), inv, later_invs);
        lemma_sums_preceded(m.L_D, ld, sent_L_D(rounds.sent), gamma, later_gammas);
        lemma_sums_preceded(m.R_D, rd, sent_R_D(rounds.sent), inv, later_invs);
        lemma_round_c(v, h, gamma);
        lemma_round_d(v, h, gamma);
        let sums_c = product_sum(lc, later_gammas) + product_sum(rc, later_invs);
        let sums_d = product_sum(ld, later_gammas) + product_sum(rd, later_invs);
        lemma_congruent_add(
            committed_c(next, h),
            committed_c(v, h) + gamma * m.L_C + inv * m.R_C,
            sums_c,
            sums_c,
        );
        lemma_congruent_add(
            committed_d(next),
            committed_d(v) + gamma * m.L_D + inv * m.R_D,
            sums_d,
            sums_d,
        );
    }
}

/// The inner product of a vector with a blinded one.
proof fn lemma_blinded_dot(b: Seq<int>, v: Seq<int>, r: Seq<int>, alpha: int)
    requires
        b.len() == v.len() == r.len(),
    ensures
        dot(b, blinded(v, r, alpha)) == residue(product_sum(b, r) + alpha * product_sum(b, v)),
    decreases b.len(),
{
    if b.len() == 0 {
        assert(alpha * 0 == 0);
    } else {
        let (b1, v1, r1) = (b.drop_first(), v.drop_first(), r.drop_first());
        lemma_blinded_dot(b1, v1, r1, alpha);
        assert(blinded(v, r, alpha).drop_first() =~= blinded(v1, r1, alpha));
        let (x, y, z) = (b[0], r[0], v[0]);
        lemma_residue_mul(x, y + alpha * z);
        assert(x * (y + alpha * z) == x * y + alpha * (x * z)) by (nonlinear_arith);
        let rest = product_sum(b1, v1);
        assert(alpha * (x * z + rest) == alpha * (x * z) + alpha * rest) by (nonlinear_arith);
        lemma_congruent_add(
            x * residue(y + alpha * z),
            x * y + alpha * (x * z),
            product_sum(b1, blinded(v1, r1, alpha)),
            product_sum(b1, r1) + alpha * rest,
        );
    }
}

/// The blinders drop out of the inner product of the blinded vectors.
proof fn lemma_blinded_product(c: Seq<int>, d: Seq<int>, r_c: Seq<int>, r_d: Seq<int>, alpha: int)
    requires
        are_blinders(r_c, r_d, c, d),
    ensures
        dot(blinded(c, r_c, alpha), blinded(d, r_d, alpha)) == residue(
            alpha * alpha * product_sum(c, d),
        ),
{
    let bc = blinded(c, r_c, alpha);
    lemma_blinded_dot(bc, d, r_d, alpha);
    lemma_blinded_dot(r_d, c, r_c, alpha);
    lemma_blinded_dot(d, c, r_c, alpha);
    lemma_product_sum_commutes(bc, r_d);
    lemma_product_sum_commutes(bc, d);
    lemma_product_sum_commutes(r_d, r_c);
    lemma_product_sum_commutes(d, r_c);
    lemma_product_sum_commutes(d, c);
    let rr = product_sum(r_c, r_d);
    let rc = product_sum(r_d, c);
    let rd = product_sum(r_c, d);
    let cd = product_sum(c, d);
    lemma_residue_of_reduced(0);
    lemma_congruent_mul(alpha, alpha, product_sum(d, bc), rd + alpha * cd);
    lemma_congruent_add(
        product_sum(r_d, bc),
        rr + alpha * rc,
        alpha * product_sum(d, bc),
        alpha * (rd + alpha * cd),
    );
    assert(alpha * (rd + alpha * cd) == alpha * rd + alpha * alpha * cd) by (nonlinear_arith);
    assert(alpha * rc + alpha * rd == alpha * (rd + rc)) by (nonlinear_arith);
    lemma_congruent_mul(alpha, alpha, rd + rc, 0);
    lemma_congruent_add(rr, 0, alpha * (rd + rc), 0);
    lemma_congruent_add(
        rr + alpha * (rd + rc),
        0,
        alpha * alpha * cd,
        alpha * alpha * cd,
    );
}

/// The statement is true: `C` and `D` commit to `c` and `d` and `z` is their inner product, where
/// the basis of `D` is that of `C` with its entries multiplied by those of `u`.
pub open spec fn true_statement(v: Vectors, u: Seq<int>, C: int, D: int, z: int) -> bool {
    &&& v.c.len() >= 1
    &&& same_length(v)
    &&& u.len() == v.c.len()
    &&& v.G_prime == Seq::new(v.G.len(), |i: int| residue(u[i] * v.G[i]))
    &&& C == dot(v.G, v.c)
    &&& D == dot(v.G_prime, v.d)
    &&& z == dot(v.c, v.d)
}

/// The vectors that the prover folds after the first step.
spec fn opened(v: Vectors, r_c: Seq<int>, r_d: Seq<int>, alpha: int) -> Vectors {
    Vectors { c: blinded(v.c, r_c, alpha), d: blinded(v.d, r_d, alpha), ..v }
}

/// What the first step commits to, in terms of the statement.
proof fn lemma_opened(
    v: Vectors,
    C: int,
    D: int,
    z: int,
    r_c: Seq<int>,
    r_d: Seq<int>,
    alpha: int,
    beta: int,
    crs_H: int,
)
    requires
        same_length(v),
        C == dot(v.G, v.c),
        D == dot(v.G_prime, v.d),
        z == dot(v.c, v.d),
        are_blinders(r_c, r_d, v.c, v.d),
    ensures
        residue(committed_c(opened(v, r_c, r_d, alpha), residue(crs_H * beta))) == residue(
            dot(v.G, r_c) + alpha * C + alpha * alpha * z * (beta * crs_H),
        ),
        residue(committed_d(opened(v, r_c, r_d, alpha))) == residue(
            dot(v.G_prime, r_d) + alpha * D,
        ),
{
    let o = opened(v, r_c, r_d, alpha);
    let h = residue(crs_H * beta);
    let gc = product_sum(v.G, v.c);
    let gd = product_sum(v.G_prime, v.d);
    let cd = product_sum(v.c, v.d);
    let gr_c = product_sum(v.G, r_c);
    let gr_d = product_sum(v.G_prime, r_d);
    lemma_blinded_dot(v.G, v.c, r_c, alpha);
    lemma_blinded_dot(v.G_prime, v.d, r_d, alpha);
    lemma_blinded_product(v.c, v.d, r_c, r_d, alpha);
    lemma_residue_twice(gc);
    lemma_residue_twice(gd);
    lemma_residue_twice(cd);
    lemma_residue_twice(gr_c);
    lemma_residue_twice(gr_d);
    lemma_residue_twice(crs_H * beta);
    // The terms of the commitment to d
    lemma_congruent_mul(alpha, alpha, D, gd);
    lemma_congruent_add(dot(v.G_prime, r_d), gr_d, alpha * D, alpha * gd);
    // The terms of the commitment to c
    lemma_congruent_mul(alpha, alpha, C, gc);
    lemma_congruent_add(dot(v.G, r_c), gr_c, alpha * C, alpha * gc);
    lemma_congruent_mul(alpha * alpha, alpha * alpha, z, cd);
    lemma_congruent_mul(h, crs_H * beta, product_sum(o.c, o.d), alpha * alpha * z);
    lemma_mul_is_commutative(crs_H, beta);
    lemma_mul_is_commutative(crs_H * beta, alpha * alpha * z);
    lemma_congruent_add(
        product_sum(v.G, o.c),
        dot(v.G, r_c) + alpha * C,
        h * product_sum(o.c, o.d),
        alpha * alpha * z * (beta * crs_H),
    );
}

/// The right-hand side of the first check is what the folded basis and `H` commit to the final
/// entries with.
pub proof fn lemma_first_rhs(
    p: ProofModel,
    G: Seq<int>,
    crs_H: int,
    C: int,
    z: int,
    alpha: int,
    beta: int,
    gammas: Seq<int>,
)
    requires
        G.len() >= 1,
        gammas.len() == ceil_log2(G.len()) <= usize::MAX,
    ensures
        ({
            let check = first_check(p, G, crs_H, C, z, alpha, beta, gammas);
            dot(check.scalars, check.bases) == residue(
                folded_down(G, gammas) * p.c_final + residue(crs_H * beta) * (p.c_final
                    * p.d_final),
            )
        }),
{
    let check = first_check(p, G, crs_H, C, z, alpha, beta, gammas);
    let (c, d) = (p.c_final, p.d_final);
    let s = folding_scalars(G.len(), gammas);
    let cs = Seq::new(G.len(), |i: int| residue(c * s[i]));
    let last = residue(c * d * beta);
    let h = residue(crs_H * beta);
    assert(check.scalars =~= cs.push(last));
    lemma_product_sum_push(cs, G, last, crs_H);
    lemma_scaled_dot(c, s, cs, G);
    lemma_folding_scalars(G, gammas);
    let f = folded_down(G, gammas);
    lemma_congruent_mul(c, c, product_sum(s, G), f);
    lemma_mul_is_commutative(c, f);
    lemma_residue_mul(c * d * beta, crs_H);
    lemma_residue_mul(crs_H * beta, c * d);
    assert((c * d * beta) * crs_H == (crs_H * beta) * (c * d)) by {
        assert((c * d) * beta * crs_H == (c * d) * (beta * crs_H)) by (nonlinear_arith);
        lemma_mul_is_commutative(beta, crs_H);
        lemma_mul_is_commutative(c * d, crs_H * beta);
    }
    lemma_congruent_add(product_sum(cs, G), f * c, last * crs_H, h * (c * d));
}

/// The right-hand side of the second check is what the second folded basis commits to the final
/// entry of `d` with.
pub proof fn lemma_second_rhs(
    p: ProofModel,
    G: Seq<int>,
    G_prime: Seq<int>,
    D: int,
    u: Seq<int>,
    alpha: int,
    gammas: Seq<int>,
)
    requires
        G.len() >= 1,
        u.len() == G.len(),
        G_prime == Seq::new(G.len(), |i: int| residue(u[i] * G[i])),
        gammas.len() == ceil_log2(G.len()) <= usize::MAX,
        forall|i: int| 0 <= i < gammas.len() ==> invertible(#[trigger] gammas[i]),
    ensures
        ({
            let check = second_check(p, G, D, u, alpha, gammas);
            dot(check.scalars, check.bases) == residue(
                folded_down(G_prime, inverses(gammas)) * p.d_final,
            )
        }),
{
    let check = second_check(p, G, D, u, alpha, gammas);
    let d = p.d_final;
    let s = folding_scalars(G.len(), gammas);
    let inv_s = folding_scalars(G.len(), inverses(gammas));
    lemma_inverse_folding_scalars(G.len(), gammas);
    let ds = Seq::new(inv_s.len(), |i: int| residue(d * inv_s[i]));
    // Each factor of u moves from the scalar to the base
    assert forall|i: int| 0 <= i < G.len() implies residue(#[trigger] check.scalars[i] * G[i])
        == residue(ds[i] * G_prime[i]) by {
        assert(inverses(s)[i] == inv_s[i]);
        let (x, y, g) = (inv_s[i], u[i], G[i]);
        lemma_residue_mul(d * (x * y), g);
        lemma_residue_mul(d * x, y * g);
        assert((d * (x * y)) * g == (d * x) * (y * g)) by (nonlinear_arith);
    }
    lemma_product_sum_congruent(check.scalars, G, ds, G_prime);
    lemma_scaled_dot(d, inv_s, ds, G_prime);
    lemma_folding_scalars(G_prime, inverses(gammas));
    let f = folded_down(G_prime, inverses(gammas));
    lemma_congruent_mul(d, d, product_sum(inv_s, G_prime), f);
    lemma_mul_is_commutative(d, f);
}

/// A vector of at most 2^31 entries is folded at most 31 times.
proof fn lemma_few_rounds(n: nat)
    requires
        n <= 0x8000_0000,
    ensures
        ceil_log2(n) < 32,
{
    if n >= 2 {
        lemma_ceil_log2(n);
        lemma2_to64();
        if ceil_log2(n) > 32 {
            lemma_pow2_strictly_increases(31, (ceil_log2(n) - 1) as nat);
        }
    }
}

/// Completeness for given blinders.
proof fn lemma_completeness_with_blinders(
    v: Vectors,
    u: Seq<int>,
    crs_H: int,
    C: int,
    D: int,
    z: int,
    r_c: Seq<int>,
    r_d: Seq<int>,
    state: Seq<u8>,
)
    requires
        true_statement(v, u, C, D, z),
        are_blinders(r_c, r_d, v.c, v.d),
        v.c.len() <= 0x8000_0000,
        prove(v, crs_H, C, D, z, r_c, r_d, state).0 is Some,
    ensures
        ({
            let (made, proven) = prove(v, crs_H, C, D, z, r_c, r_d, state);
            let p = made->Some_0;
            let (checks, verified) = verification(p, v.G, crs_H, C, D, z, u, state);
            &&& p.rounds.len() == ceil_log2(v.c.len())
            &&& checks is Some
            &&& check_holds(checks->Some_0.0)
            &&& check_holds(checks->Some_0.1)
            &&& verified == proven
        }),
{
    let (made, proven) = prove(v, crs_H, C, D, z, r_c, r_d, state);
    let p = made->Some_0;
    let o = opening(state, C, D, z, p.B_c, p.B_d);
    let start = opened(v, r_c, r_d, o.alpha);
    let h = residue(crs_H * o.beta);
    let gammas = round_challenges(o.state, p.rounds);
    lemma_few_rounds(v.c.len());
    lemma_rounds(start, h, o.state);
    lemma_opened(v, C, D, z, r_c, r_d, o.alpha, o.beta, crs_H);
    lemma_first_rhs(p, v.G, crs_H, C, z, o.alpha, o.beta, gammas);
    lemma_second_rhs(p, v.G, v.G_prime, D, u, o.alpha, gammas);
    let (lc, rc) = (
        product_sum(sent_L_C(p.rounds), gammas),
        product_sum(sent_R_C(p.rounds), inverses(gammas)),
    );
    let (ld, rd) = (
        product_sum(sent_L_D(p.rounds), gammas),
        product_sum(sent_R_D(p.rounds), inverses(gammas)),
    );
    lemma_residue_twice(lc);
    lemma_residue_twice(rc);
    lemma_residue_twice(ld);
    lemma_residue_twice(rd);
    let statement_c = p.B_c + o.alpha * C + o.alpha * o.alpha * z * (o.beta * crs_H);
    let statement_d = p.B_d + o.alpha * D;
    lemma_congruent_add(residue(lc), lc, residue(rc), rc);
    lemma_congruent_add(
        statement_c,
        committed_c(start, h),
        residue(lc) + residue(rc),
        lc + rc,
    );
    lemma_congruent_add(residue(ld), ld, residue(rd), rd);
    lemma_congruent_add(statement_d, committed_d(start), residue(ld) + residue(rd), ld + rd);
}

/// Completeness: a proof of a true statement passes both checks of the verifier, who ends with the
/// same transcript as the prover.
///
/// The verifier refuses proofs of 32 rounds or more, so the vectors have at most 2^31 entries.
pub proof fn lemma_completeness(
    v: Vectors,
    u: Seq<int>,
    crs_H: int,
    C: int,
    D: int,
    z: int,
    state: Seq<u8>,
    p: ProofModel,
    after: Seq<u8>,
)
    requires
        true_statement(v, u, C, D, z),
        v.c.len() <= 0x8000_0000,
        proven(v, crs_H, C, D, z, state, Some(p), after),
    ensures
        ({
            let (checks, verified) = verification(p, v.G, crs_H, C, D, z, u, state);
            &&& p.rounds.len() == ceil_log2(v.c.len())
            &&& checks is Some
            &&& check_holds(checks->Some_0.0)
            &&& check_holds(checks->Some_0.1)
            &&& verified == after
        }),
{
    let (r_c, r_d): (Seq<int>, Seq<int>) = choose|r_c: Seq<int>, r_d: Seq<int>|
        are_blinders(r_c, r_d, v.c, v.d) && #[trigger] prove(
            v,
            crs_H,
            C,
            D,
            z,
            r_c,
            r_d,
            state,
        ) == (Some(p), after);
    lemma_completeness_with_blinders(v, u, crs_H, C, D, z, r_c, r_d, state);
}

/// An accumulator whose checks hold still verifies after a proof of a true statement was verified
/// with it.
pub proof fn lemma_true_statement_accepted(
    v: Vectors,
    u: Seq<int>,
    crs_H: int,
    C: int,
    D: int,
    z: int,
    state: Seq<u8>,
    p: ProofModel,
    after: Seq<u8>,
    sum: Check,
    new_sum: Check,
)
    requires
        true_statement(v, u, C, D, z),
        v.c.len() <= 0x8000_0000,
        proven(v, crs_H, C, D, z, state, Some(p), after),
        sum.scalars.len() == sum.bases.len(),
        is_reduced(sum.point),
        check_holds(sum),
        both_accumulated(
            sum,
            verification(p, v.G, crs_H, C, D, z, u, state).0->Some_0,
            new_sum,
        ),
    ensures
        check_holds(new_sum),
{
    lemma_completeness(v, u, crs_H, C, D, z, state, p, after);
    let (first, second) = verification(p, v.G, crs_H, C, D, z, u, state).0->Some_0;
    let (w1, w2): (int, int) = choose|w1: int, w2: int|
        is_reduced(w1) && is_reduced(w2) && new_sum == #[trigger] accumulated(
            #[trigger] accumulated(sum, first, w1),
            second,
            w2,
        );
    lemma_dot_reduced(first.scalars, first.bases);
    lemma_dot_reduced(second.scalars, second.bases);
    lemma_residue_reduced(sum.point + w1 * first.point);
    lemma_passing_check(sum, first, w1);
    lemma_passing_check(accumulated(sum, first, w1), second, w2);
}

/// Under given challenges a proof passes the first check for one inner product only, if the factor
/// that `z` is multiplied by in the check is invertible.
pub proof fn lemma_one_inner_product(
    p: ProofModel,
    G: Seq<int>,
    crs_H: int,
    C: int,
    z1: int,
    z2: int,
    alpha: int,
    beta: int,
    gammas: Seq<int>,
)
    requires
        is_reduced(z1),
        is_reduced(z2),
        invertible(alpha * alpha * (beta * crs_H)),
        check_holds(first_check(p, G, crs_H, C, z1, alpha, beta, gammas)),
        check_holds(first_check(p, G, crs_H, C, z2, alpha, beta, gammas)),
    ensures
        z1 == z2,
{
    let k = alpha * alpha * (beta * crs_H);
    let rest = dot(sent_L_C(p.rounds), gammas) + p.B_c + alpha * C + dot(
        sent_R_C(p.rounds),
        inverses(gammas),
    );
    let h = beta * crs_H;
    let a = alpha * alpha;
    assert(a * z1 * h == (a * h) * z1) by (nonlinear_arith);
    assert(a * z2 * h == (a * h) * z2) by (nonlinear_arith);
    lemma_congruent_sub(rest + k * z1, rest + k * z2, rest, rest);
    let inv = inverse(k);
    lemma_congruent_mul(inv, inv, k * z1, k * z2);
    lemma_residue_of_reduced(1);
    lemma_congruent_mul(k * inv, 1, z1, z1);
    lemma_congruent_mul(k * inv, 1, z2, z2);
    assert(inv * (k * z1) == (k * inv) * z1) by (nonlinear_arith);
    assert(inv * (k * z2) == (k * inv) * z2) by (nonlinear_arith);
    assert(1 * z1 == z1 && 1 * z2 == z2);
    lemma_residue_of_reduced(z1);
    lemma_residue_of_reduced(z2);
}

/// The prover gets through exactly if every challenge that it meets is invertible.
proof fn lemma_rounds_succeed(v: Vectors, h: int, state: Seq<u8>)
    ensures
        ({
            let rounds = prove_rounds(v, h, state);
            let gammas = round_challenges(state, rounds.sent);
            &&& gammas.len() == rounds.sent.len()
            &&& after_rounds(state, rounds.sent) == rounds.state
            &&& rounds.finals is Some <==> all_invertible(gammas)
        }),
    decreases v.c.len(),
{
    let rounds = prove_rounds(v, h, state);
    let gammas = round_challenges(state, rounds.sent);
    if v.c.len() > 1 {
        lemma_fold_shape(v.c.len());
        let m = round_message(v, h);
        let gamma = round_challenge(state, m);
        let next = after_round(state, m);
        assert(rounds.sent[0] == m);
        if invertible(gamma) {
            lemma_rounds_succeed(folded(v, gamma), h, next);
            let later = prove_rounds(folded(v, gamma), h, next);
            let later_gammas = round_challenges(next, later.sent);
            assert(rounds.sent.drop_first() =~= later.sent);
            assert(gammas =~= seq![gamma] + later_gammas);
            assert forall|i: int| 0 <= i < later_gammas.len() implies #[trigger] later_gammas[i]
                == gammas[i + 1] by {}
            if rounds.finals is Some {
                assert forall|i: int| 0 <= i < gammas.len() implies invertible(
                    #[trigger] gammas[i],
                ) by {
                    if i > 0 {
                        assert(gammas[i] == later_gammas[i - 1]);
                    }
                }
            } else {
                let i = choose|i: int|
                    0 <= i < later_gammas.len() && !invertible(#[trigger] later_gammas[i]);
                assert(!invertible(gammas[i + 1]));
            }
        } else {
            reveal_with_fuel(round_challenges, 2);
            reveal_with_fuel(after_rounds, 2);
            assert(rounds.sent.drop_first() =~= Seq::<RoundModel>::empty());
            assert(gammas[0] == gamma);
        }
    }
}

/// When a proof is made, and what it is made of: it is made exactly if every challenge that the
/// prover meets is invertible. It then commits to the blinders, has as many rounds as the
/// vectors are folded, and its challenges are those that the verifier recomputes.
pub proof fn lemma_proof_made(
    v: Vectors,
    crs_H: int,
    C: int,
    D: int,
    z: int,
    r_c: Seq<int>,
    r_d: Seq<int>,
    state: Seq<u8>,
)
    requires
        v.c.len() >= 1,
        same_length(v),
    ensures
        ({
            let (made, after) = prove(v, crs_H, C, D, z, r_c, r_d, state);
            let challenges = prover_challenges(v, crs_H, C, D, z, r_c, r_d, state);
            &&& made is Some <==> all_invertible(challenges)
            &&& made is Some ==> {
                let p = made->Some_0;
                &&& p.B_c == dot(v.G, r_c)
                &&& p.B_d == dot(v.G_prime, r_d)
                &&& p.rounds.len() == ceil_log2(v.c.len())
                &&& challenges == verifier_challenges(p, C, D, z, state)
                &&& after == after_rounds(opening(state, C, D, z, p.B_c, p.B_d).state, p.rounds)
            }
        }),
{
    let (made, after) = prove(v, crs_H, C, D, z, r_c, r_d, state);
    let o = opening(state, C, D, z, dot(v.G, r_c), dot(v.G_prime, r_d));
    let start = opened(v, r_c, r_d, o.alpha);
    let h = residue(crs_H * o.beta);
    lemma_rounds_succeed(start, h, o.state);
    if made is Some {
        lemma_rounds(start, h, o.state);
    }
}

/// The entries that are left are the vectors folded with the challenges.
proof fn lemma_rounds_fold_down(v: Vectors, h: int, state: Seq<u8>)
    requires
        same_length(v),
        v.c.len() >= 1,
        prove_rounds(v, h, state).finals is Some,
    ensures
        ({
            let rounds = prove_rounds(v, h, state);
            let gammas = round_challenges(state, rounds.sent);
            rounds.finals == Some(
                (folded_down(v.c, inverses(gammas)), folded_down(v.d, gammas)),
            )
        }),
    decreases v.c.len(),
{
    let rounds = prove_rounds(v, h, state);
    let gammas = round_challenges(state, rounds.sent);
    if v.c.len() == 1 {
        assert(inverses(gammas) =~= seq![]);
    } else {
        lemma_fold_shape(v.c.len());
        let m = round_message(v, h);
        let gamma = round_challenge(state, m);
        let next = after_round(state, m);
        lemma_rounds_fold_down(folded(v, gamma), h, next);
        let later = prove_rounds(folded(v, gamma), h, next);
        let later_gammas = round_challenges(next, later.sent);
        assert(rounds.sent.drop_first() =~= later.sent);
        assert(gammas =~= seq![gamma] + later_gammas);
        assert(gammas.drop_first() =~= later_gammas);
        assert(inverses(gammas).drop_first() =~= inverses(later_gammas));
    }
}

/// The final entries of a proof: the blinders plus `alpha` times the vector, both met with the
/// folding scalars, of the inverse challenges for `c` and of the challenges for `d`.
pub proof fn lemma_final_entries(
    v: Vectors,
    crs_H: int,
    C: int,
    D: int,
    z: int,
    r_c: Seq<int>,
    r_d: Seq<int>,
    state: Seq<u8>,
)
    requires
        v.c.len() >= 1,
        same_length(v),
        r_c.len() == v.c.len(),
        r_d.len() == v.c.len(),
        ceil_log2(v.c.len()) <= usize::MAX,
        prove(v, crs_H, C, D, z, r_c, r_d, state).0 is Some,
    ensures
        ({
            let p = prove(v, crs_H, C, D, z, r_c, r_d, state).0->Some_0;
            let alpha = opening(state, C, D, z, p.B_c, p.B_d).alpha;
            let gammas = verifier_challenges(p, C, D, z, state);
            let s_c = folding_scalars(v.c.len(), inverses(gammas));
            let s_d = folding_scalars(v.c.len(), gammas);
            &&& residue(p.c_final) == residue(
                product_sum(s_c, r_c) + alpha * product_sum(s_c, v.c),
            )
            &&& residue(p.d_final) == residue(
                product_sum(s_d, r_d) + alpha * product_sum(s_d, v.d),
            )
        }),
{
    let p = prove(v, crs_H, C, D, z, r_c, r_d, state).0->Some_0;
    let o = opening(state, C, D, z, p.B_c, p.B_d);
    let start = opened(v, r_c, r_d, o.alpha);
    let h = residue(crs_H * o.beta);
    let gammas = round_challenges(o.state, p.rounds);
    lemma_rounds(start, h, o.state);
    lemma_rounds_fold_down(start, h, o.state);
    lemma_folding_scalars(start.c, inverses(gammas));
    lemma_folding_scalars(start.d, gammas);
    lemma_blinded_dot(folding_scalars(v.c.len(), inverses(gammas)), v.c, r_c, o.alpha);
    lemma_blinded_dot(folding_scalars(v.c.len(), gammas), v.d, r_d, o.alpha);
}

/// What the prover makes of given draws: where the determinant of the two equations vanishes it
/// makes nothing and leaves the transcript, and where it is invertible it makes its proof with
/// blinders that begin with the draws and hide the vectors. It makes none then only if it meets
/// a challenge that has no inverse.
pub proof fn lemma_proven_from_draws(
    v: Vectors,
    crs_H: int,
    C: int,
    D: int,
    z: int,
    r: Seq<int>,
    z_head: Seq<int>,
    before: Seq<u8>,
    made: Option<ProofModel>,
    after: Seq<u8>,
) -> (r_d: Seq<int>)
    requires
        v.c.len() >= 2,
        same_length(v),
        proven_from_draws(v, crs_H, C, D, z, r, z_head, before, made, after),
    ensures
        ({
            let n = v.c.len() as int;
            let determinant = residue(v.c[n - 2] * r[n - 1] - v.c[n - 1] * r[n - 2]);
            let challenges = prover_challenges(v, crs_H, C, D, z, r, r_d, before);
            &&& determinant == 0 || invertible(determinant)
            &&& determinant == 0 ==> made is None && after == before
            &&& invertible(determinant) ==> {
                &&& are_blinders(r, r_d, v.c, v.d)
                &&& r_d.take(z_head.len() as int) == z_head
                &&& prove(v, crs_H, C, D, z, r, r_d, before) == (made, after)
                &&& made is Some <==> all_invertible(challenges)
            }
        }),
{
    lemma_inverse_of_zero();
    lemma_residue_of_reduced(0);
    assert(!invertible(0));
    let outcome = choose|outcome: Option<(Seq<int>, Seq<int>)>| #[trigger]
        draw_outcome(r, z_head, v.c, v.d, outcome) && match outcome {
            Some((r_c, r_d)) => {
                &&& prove(v, crs_H, C, D, z, r_c, r_d, before) == (made, after)
                &&& made is None <==> prover_challenges(
                    v,
                    crs_H,
                    C,
                    D,
                    z,
                    r_c,
                    r_d,
                    before,
                ).contains(0)
            },
            None => made is None && after == before,
        };
    let r_d = match outcome {
        Some((r_c, r_d)) => r_d,
        None => r,
    };
    if outcome is Some {
        lemma_proof_made(v, crs_H, C, D, z, r, r_d, before);
    }
    r_d
}

/// What the checks measure: for a proof that the prover made with proper blinders, of whatever
/// statement, the first check is off by `alpha` times the error of `C` and `alpha^2 * beta * H`
/// times the error of `z`, and the second one by `alpha` times the error of `D`, where the
/// basis of `D` is that of `C` with its entries multiplied by those of `u`.
pub proof fn lemma_checks_measure_statement(
    v: Vectors,
    u: Seq<int>,
    crs_H: int,
    C: int,
    D: int,
    z: int,
    r_c: Seq<int>,
    r_d: Seq<int>,
    state: Seq<u8>,
)
    requires
        v.c.len() >= 1,
        same_length(v),
        u.len() == v.c.len(),
        v.G_prime == Seq::new(v.G.len(), |i: int| residue(u[i] * v.G[i])),
        are_blinders(r_c, r_d, v.c, v.d),
        v.c.len() <= 0x8000_0000,
        prove(v, crs_H, C, D, z, r_c, r_d, state).0 is Some,
    ensures
        ({
            let p = prove(v, crs_H, C, D, z, r_c, r_d, state).0->Some_0;
            let o = opening(state, C, D, z, p.B_c, p.B_d);
            let checks = verification(p, v.G, crs_H, C, D, z, u, state).0;
            let k = o.alpha * o.alpha * (o.beta * crs_H);
            &&& checks is Some
            &&& imbalance(checks->Some_0.0) == residue(
                o.alpha * (C - dot(v.G, v.c)) + k * (z - dot(v.c, v.d)),
            )
            &&& imbalance(checks->Some_0.1) == residue(o.alpha * (D - dot(v.G_prime, v.d)))
        }),
{
    let p = prove(v, crs_H, C, D, z, r_c, r_d, state).0->Some_0;
    let o = opening(state, C, D, z, p.B_c, p.B_d);
    let start = opened(v, r_c, r_d, o.alpha);
    let h = residue(crs_H * o.beta);
    let gammas = round_challenges(o.state, p.rounds);
    let (C0, D0, z0) = (dot(v.G, v.c), dot(v.G_prime, v.d), dot(v.c, v.d));
    lemma_few_rounds(v.c.len());
    lemma_rounds(start, h, o.state);
    lemma_opened(v, C0, D0, z0, r_c, r_d, o.alpha, o.beta, crs_H);
    lemma_first_rhs(p, v.G, crs_H, C, z, o.alpha, o.beta, gammas);
    lemma_second_rhs(p, v.G, v.G_prime, D, u, o.alpha, gammas);
    let (lc, rc) = (
        product_sum(sent_L_C(p.rounds), gammas),
        product_sum(sent_R_C(p.rounds), inverses(gammas)),
    );
    let (ld, rd) = (
        product_sum(sent_L_D(p.rounds), gammas),
        product_sum(sent_R_D(p.rounds), inverses(gammas)),
    );
    let (a, f) = (o.alpha * o.alpha, o.beta * crs_H);
    let first = first_check(p, v.G, crs_H, C, z, o.alpha, o.beta, gammas);
    let second = second_check(p, v.G, D, u, o.alpha, gammas);
    let claimed_c = p.B_c + o.alpha * C + a * z * f;
    let actual_c = p.B_c + o.alpha * C0 + a * z0 * f;
    let claimed_d = p.B_d + o.alpha * D;
    let actual_d = p.B_d + o.alpha * D0;
    // What the other sides amount to
    lemma_congruent_add(actual_c, committed_c(start, h), lc + rc, lc + rc);
    lemma_congruent_add(actual_d, committed_d(start), ld + rd, ld + rd);
    lemma_imbalance_of(first, lc, rc, claimed_c, actual_c);
    lemma_imbalance_of(second, ld, rd, claimed_d, actual_d);
    assert(o.alpha * (C - C0) == o.alpha * C - o.alpha * C0) by (nonlinear_arith);
    assert(o.alpha * (D - D0) == o.alpha * D - o.alpha * D0) by (nonlinear_arith);
    assert((a * f) * (z - z0) == a * z * f - a * z0 * f) by (nonlinear_arith);
}

/// By how much a check is off whose sides differ in one part.
proof fn lemma_imbalance_of(check: Check, l: int, r: int, claimed: int, actual: int)
    requires
        check.point == residue(residue(l) + claimed + residue(r)),
        dot(check.scalars, check.bases) == residue(actual + (l + r)),
    ensures
        imbalance(check) == residue(claimed - actual),
{
    let sum = product_sum(check.scalars, check.bases);
    lemma_residue_twice(l);
    lemma_residue_twice(r);
    lemma_congruent_add(residue(l), l, residue(r), r);
    lemma_congruent_add(claimed, claimed, residue(l) + residue(r), l + r);
    lemma_residue_twice(residue(l) + claimed + residue(r));
    lemma_congruent_sub(check.point, claimed + (l + r), sum, actual + (l + r));
}

} // verus!
