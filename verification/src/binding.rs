//! What the checks of the verifier bind.
#![allow(non_snake_case)]
use vstd::prelude::*;

use crate::algebra::{
    differences, inverse, inverses, is_inverse, is_reduced, lemma_congruent_add,
    lemma_congruent_mul, lemma_congruent_sub, lemma_inverse_unique, lemma_product_sum_differences,
    lemma_residue_mul, lemma_residue_of_reduced, lemma_residue_twice, product_sum, residue,
};
use crate::blinders::lemma_cancelled;
use crate::protocol::{
    check_holds, first_check, folding_scalars, invertible, second_check, sent_L_C, sent_L_D,
    sent_R_C, sent_R_D, ProofModel,
};

verus! {

/// An invertible number and its residue are invertible together.
proof fn lemma_residue_invertible(x: int)
    requires
        invertible(x),
    ensures
        invertible(residue(x)),
{
    let inv = inverse(x);
    lemma_residue_mul(x, inv);
    assert(is_inverse(residue(x), inv));
    lemma_inverse_unique(residue(x), inv);
}

/// The difference of two points, each the sum of two inner products and a rest.
proof fn lemma_point_difference(l1: int, r1: int, k1: int, l2: int, r2: int, k2: int)
    ensures
        residue(
            residue(residue(l2) + k2 + residue(r2)) - residue(residue(l1) + k1 + residue(r1)),
        ) == residue((l2 - l1) + (k2 - k1) + (r2 - r1)),
{
    lemma_flat_point(l1, r1, k1);
    lemma_flat_point(l2, r2, k2);
    lemma_congruent_sub(
        residue(residue(l2) + k2 + residue(r2)),
        l2 + k2 + r2,
        residue(residue(l1) + k1 + residue(r1)),
        l1 + k1 + r1,
    );
}

proof fn lemma_flat_point(l: int, r: int, k: int)
    ensures
        residue(residue(residue(l) + k + residue(r))) == residue(l + k + r),
{
    lemma_residue_twice(l);
    lemma_residue_twice(r);
    lemma_congruent_add(residue(l), l, k, k);
    lemma_congruent_add(residue(l) + k, l + k, residue(r), r);
    lemma_residue_twice(residue(l) + k + residue(r));
}

/// How the first check depends on what it is about: between two proofs with the same final entries,
/// and two statements about `c` and `z`, the point differs by the difference of the blinder
/// commitments, that of the commitments times `alpha`, that of the inner products times
/// `alpha^2 * beta * H`, and those of the messages times their challenges or the inverses of these.
/// The other side stays.
pub proof fn lemma_first_check_difference(
    p: ProofModel,
    q: ProofModel,
    G: Seq<int>,
    crs_H: int,
    C1: int,
    C2: int,
    z1: int,
    z2: int,
    alpha: int,
    beta: int,
    gammas: Seq<int>,
)
    requires
        p.rounds.len() == q.rounds.len(),
        p.c_final == q.c_final,
        p.d_final == q.d_final,
    ensures
        ({
            let one = first_check(p, G, crs_H, C1, z1, alpha, beta, gammas);
            let two = first_check(q, G, crs_H, C2, z2, alpha, beta, gammas);
            &&& one.scalars == two.scalars
            &&& one.bases == two.bases
            &&& residue(two.point - one.point) == residue(
                (q.B_c - p.B_c) + alpha * (C2 - C1) + (alpha * alpha * (beta * crs_H)) * (z2 - z1)
                    + product_sum(differences(sent_L_C(q.rounds), sent_L_C(p.rounds)), gammas)
                    + product_sum(
                    differences(sent_R_C(q.rounds), sent_R_C(p.rounds)),
                    inverses(gammas),
                ),
            )
        }),
{
    let one = first_check(p, G, crs_H, C1, z1, alpha, beta, gammas);
    let two = first_check(q, G, crs_H, C2, z2, alpha, beta, gammas);
    assert(one.scalars =~= two.scalars);
    let (l1, l2) = (
        product_sum(sent_L_C(p.rounds), gammas),
        product_sum(sent_L_C(q.rounds), gammas),
    );
    let (r1, r2) = (
        product_sum(sent_R_C(p.rounds), inverses(gammas)),
        product_sum(sent_R_C(q.rounds), inverses(gammas)),
    );
    let (a, h) = (alpha * alpha, beta * crs_H);
    let k1 = p.B_c + alpha * C1 + a * z1 * h;
    let k2 = q.B_c + alpha * C2 + a * z2 * h;
    lemma_product_sum_differences(sent_L_C(q.rounds), sent_L_C(p.rounds), gammas);
    lemma_product_sum_differences(sent_R_C(q.rounds), sent_R_C(p.rounds), inverses(gammas));
    lemma_point_difference(l1, r1, k1, l2, r2, k2);
    assert(alpha * (C2 - C1) == alpha * C2 - alpha * C1) by (nonlinear_arith);
    assert((a * h) * (z2 - z1) == a * z2 * h - a * z1 * h) by (nonlinear_arith);
}

/// How the second check depends on what it is about: between two proofs with the same final
/// entries, and two commitments `D`, the point differs by the difference of the blinder
/// commitments, that of the commitments times `alpha`, and those of the messages times their
/// challenges or the inverses of these. The other side stays.
pub proof fn lemma_second_check_difference(
    p: ProofModel,
    q: ProofModel,
    G: Seq<int>,
    D1: int,
    D2: int,
    u: Seq<int>,
    alpha: int,
    gammas: Seq<int>,
)
    requires
        p.rounds.len() == q.rounds.len(),
        p.d_final == q.d_final,
    ensures
        ({
            let one = second_check(p, G, D1, u, alpha, gammas);
            let two = second_check(q, G, D2, u, alpha, gammas);
            &&& one.scalars == two.scalars
            &&& one.bases == two.bases
            &&& residue(two.point - one.point) == residue(
                (q.B_d - p.B_d) + alpha * (D2 - D1) + product_sum(
                    differences(sent_L_D(q.rounds), sent_L_D(p.rounds)),
                    gammas,
                ) + product_sum(
                    differences(sent_R_D(q.rounds), sent_R_D(p.rounds)),
                    inverses(gammas),
                ),
            )
        }),
{
    let one = second_check(p, G, D1, u, alpha, gammas);
    let two = second_check(q, G, D2, u, alpha, gammas);
    assert(one.scalars =~= two.scalars);
    let (l1, l2) = (
        product_sum(sent_L_D(p.rounds), gammas),
        product_sum(sent_L_D(q.rounds), gammas),
    );
    let (r1, r2) = (
        product_sum(sent_R_D(p.rounds), inverses(gammas)),
        product_sum(sent_R_D(q.rounds), inverses(gammas)),
    );
    let k1 = p.B_d + alpha * D1;
    let k2 = q.B_d + alpha * D2;
    lemma_product_sum_differences(sent_L_D(q.rounds), sent_L_D(p.rounds), gammas);
    lemma_product_sum_differences(sent_R_D(q.rounds), sent_R_D(p.rounds), inverses(gammas));
    lemma_point_difference(l1, r1, k1, l2, r2, k2);
    assert(alpha * (D2 - D1) == alpha * D2 - alpha * D1) by (nonlinear_arith);
}

/// Equal sequences have no differences.
proof fn lemma_no_differences(a: Seq<int>, w: Seq<int>)
    ensures
        product_sum(differences(a, a), w) == 0,
{
    lemma_product_sum_differences(a, a, w);
}

/// The second check binds `D`: under given challenges a proof passes it for one commitment only, if
/// `alpha` is invertible.
pub proof fn lemma_one_commitment_to_d(
    p: ProofModel,
    G: Seq<int>,
    D1: int,
    D2: int,
    u: Seq<int>,
    alpha: int,
    gammas: Seq<int>,
)
    requires
        is_reduced(D1),
        is_reduced(D2),
        invertible(alpha),
        check_holds(second_check(p, G, D1, u, alpha, gammas)),
        check_holds(second_check(p, G, D2, u, alpha, gammas)),
    ensures
        D1 == D2,
{
    lemma_second_check_difference(p, p, G, D2, D1, u, alpha, gammas);
    lemma_no_differences(sent_L_D(p.rounds), gammas);
    lemma_no_differences(sent_R_D(p.rounds), inverses(gammas));
    lemma_residue_of_reduced(0);
    lemma_residue_invertible(alpha);
    lemma_cancelled(alpha, D1, D2);
}

/// The first check binds `C`: under given challenges a proof passes it for one commitment only, if
/// `alpha` is invertible.
pub proof fn lemma_one_commitment_to_c(
    p: ProofModel,
    G: Seq<int>,
    crs_H: int,
    C1: int,
    C2: int,
    z: int,
    alpha: int,
    beta: int,
    gammas: Seq<int>,
)
    requires
        is_reduced(C1),
        is_reduced(C2),
        invertible(alpha),
        check_holds(first_check(p, G, crs_H, C1, z, alpha, beta, gammas)),
        check_holds(first_check(p, G, crs_H, C2, z, alpha, beta, gammas)),
    ensures
        C1 == C2,
{
    lemma_first_check_difference(p, p, G, crs_H, C2, C1, z, z, alpha, beta, gammas);
    lemma_no_differences(sent_L_C(p.rounds), gammas);
    lemma_no_differences(sent_R_C(p.rounds), inverses(gammas));
    assert((alpha * alpha * (beta * crs_H)) * 0 == 0) by (nonlinear_arith);
    lemma_residue_of_reduced(0);
    lemma_residue_invertible(alpha);
    lemma_cancelled(alpha, C1, C2);
}

/// The scalars of the first check: multiplied back by the inverse of its folding scalar, each gives
/// the final entry of `c`. They meet the basis, and the last one, which commits to the product of
/// the final entries, meets `H`.
pub proof fn lemma_first_scalars(
    p: ProofModel,
    G: Seq<int>,
    crs_H: int,
    C: int,
    z: int,
    alpha: int,
    beta: int,
    gammas: Seq<int>,
    i: int,
)
    requires
        0 <= i < G.len(),
        invertible(folding_scalars(G.len(), gammas)[i]),
    ensures
        ({
            let check = first_check(p, G, crs_H, C, z, alpha, beta, gammas);
            let s = folding_scalars(G.len(), gammas)[i];
            &&& check.scalars.len() == G.len() + 1
            &&& check.bases == G.push(crs_H)
            &&& residue(check.scalars[i] * inverse(s)) == residue(p.c_final)
            &&& check.scalars.last() == residue(p.c_final * p.d_final * beta)
        }),
{
    let s = folding_scalars(G.len(), gammas)[i];
    let (c, inv) = (p.c_final, inverse(s));
    lemma_residue_mul(c * s, inv);
    assert((c * s) * inv == c * (s * inv)) by (nonlinear_arith);
    lemma_residue_of_reduced(1);
    lemma_congruent_mul(c, c, s * inv, 1);
    assert(c * 1 == c);
}

/// The scalars of the second check: multiplied back by its folding scalar, each gives the final
/// entry of `d` times the factor of its base. They meet the basis, as far as there are factors.
pub proof fn lemma_second_scalars(
    p: ProofModel,
    G: Seq<int>,
    D: int,
    u: Seq<int>,
    alpha: int,
    gammas: Seq<int>,
    i: int,
)
    requires
        0 <= i < G.len(),
        i < u.len(),
        invertible(folding_scalars(G.len(), gammas)[i]),
    ensures
        ({
            let check = second_check(p, G, D, u, alpha, gammas);
            let s = folding_scalars(G.len(), gammas)[i];
            &&& check.scalars.len() <= G.len()
            &&& check.scalars.len() <= u.len()
            &&& check.scalars.len() == G.len() || check.scalars.len() == u.len()
            &&& check.bases == G
            &&& residue(check.scalars[i] * s) == residue(p.d_final * u[i])
        }),
{
    let s = folding_scalars(G.len(), gammas)[i];
    let (d, inv, y) = (p.d_final, inverse(s), u[i]);
    lemma_residue_mul(d * (inv * y), s);
    assert((d * (inv * y)) * s == (d * y) * (s * inv)) by (nonlinear_arith);
    lemma_residue_of_reduced(1);
    lemma_congruent_mul(d * y, d * y, s * inv, 1);
    assert((d * y) * 1 == d * y);
}

} // verus!
