//! Many checks of multiscalar multiplications in one.
#![allow(non_snake_case)]
use ark_std::rand::rngs::StdRng;
use vstd::prelude::*;

use crate::algebra::{
    dot, inverse, is_reduced, lemma_congruent_add, lemma_congruent_mul, lemma_congruent_sub,
    lemma_product_sum_commutes, lemma_product_sum_concat, lemma_product_sum_take, lemma_residue_add,
    lemma_residue_of_reduced, lemma_residue_reduced, lemma_residue_twice, lemma_scaled_dot,
    product_sum, residue,
};
use crate::errors::ProofError;
use crate::point::{
    affine_values, lemma_projective_reduced, projective_add, projective_mul, projective_zero,
    AffinePoint, ProjectivePoint,
};
use crate::protocol::{check_holds, invertible, Check};
use crate::scalar::{draw, lemma_scalar_reduced, scalar_mul, scalar_random, scalar_values, Scalar};
use crate::util::msm;

verus! {

/// The claim that a point is the sum of the bases, each multiplied by its scalar.
pub struct MsmCheck {
    pub point: ProjectivePoint,
    pub scalars: Vec<Scalar>,
    pub bases: Vec<AffinePoint>,
}

impl View for MsmCheck {
    type V = Check;

    open spec fn view(&self) -> Check {
        Check {
            point: self.point@,
            scalars: scalar_values(self.scalars@),
            bases: affine_values(self.bases@),
        }
    }
}

/// Collects checks, each multiplied by a weight of its own, to verify them all with one multiscalar
/// multiplication.
///
/// Its view is the check that they add up to.
pub struct MsmAccumulator {
    A_c: ProjectivePoint,
    terms: Vec<(Scalar, AffinePoint)>,
}

impl View for MsmAccumulator {
    type V = Check;

    closed spec fn view(&self) -> Check {
        Check {
            point: self.A_c@,
            scalars: Seq::new(self.terms@.len(), |i: int| self.terms@[i].0@),
            bases: Seq::new(self.terms@.len(), |i: int| self.terms@[i].1@),
        }
    }
}

/// An accumulator has one base for each scalar, and its point is reduced.
pub proof fn lemma_accumulator_shape(acc: MsmAccumulator)
    ensures
        acc@.scalars.len() == acc@.bases.len(),
        is_reduced(acc@.point),
{
    lemma_projective_reduced(acc.A_c);
}

/// The check that `check`, multiplied by `weight`, and `sum` add up to.
pub open spec fn accumulated(sum: Check, check: Check, weight: int) -> Check {
    let len = if check.scalars.len() <= check.bases.len() {
        check.scalars.len()
    } else {
        check.bases.len()
    };
    Check {
        point: residue(sum.point + weight * check.point),
        scalars: sum.scalars + Seq::new(len, |i: int| residue(weight * check.scalars[i])),
        bases: sum.bases + check.bases.take(len as int),
    }
}

/// Two checks were accumulated, each under some weight.
pub open spec fn both_accumulated(before: Check, checks: (Check, Check), after: Check) -> bool {
    exists|w1: int, w2: int|
        is_reduced(w1) && is_reduced(w2) && after == #[trigger] accumulated(
            #[trigger] accumulated(before, checks.0, w1),
            checks.1,
            w2,
        )
}

/// Checks that were accumulated one after the other were both accumulated.
pub proof fn lemma_both_accumulated(
    before: Check,
    checks: (Check, Check),
    between: Check,
    after: Check,
    w1: int,
    w2: int,
)
    requires
        is_reduced(w1),
        is_reduced(w2),
        between == accumulated(before, checks.0, w1),
        after == accumulated(between, checks.1, w2),
    ensures
        both_accumulated(before, checks, after),
{
}

/// By how much a check is off.
pub open spec fn imbalance(check: Check) -> int {
    residue(check.point - product_sum(check.scalars, check.bases))
}

/// A check holds exactly if it is not off.
pub proof fn lemma_holds_in_balance(check: Check)
    requires
        is_reduced(check.point),
    ensures
        check_holds(check) <==> imbalance(check) == 0,
{
    let sum = product_sum(check.scalars, check.bases);
    lemma_residue_of_reduced(check.point);
    lemma_residue_of_reduced(0);
    if imbalance(check) == 0 {
        lemma_congruent_add(check.point - sum, 0, sum, sum);
    }
    if check_holds(check) {
        lemma_congruent_sub(check.point, sum, sum, sum);
    }
}

/// Accumulating a check adds what it is off by, multiplied by the weight.
pub proof fn lemma_accumulated_imbalance(sum: Check, check: Check, weight: int)
    requires
        sum.scalars.len() == sum.bases.len(),
    ensures
        imbalance(accumulated(sum, check, weight)) == residue(
            imbalance(sum) + weight * imbalance(check),
        ),
{
    let len = if check.scalars.len() <= check.bases.len() {
        check.scalars.len()
    } else {
        check.bases.len()
    };
    let scalars = check.scalars.take(len as int);
    let bases = check.bases.take(len as int);
    let weighted = Seq::new(len, |i: int| residue(weight * check.scalars[i]));
    let sum_rhs = product_sum(sum.scalars, sum.bases);
    let rhs = product_sum(check.scalars, check.bases);
    assert(weighted =~= Seq::new(scalars.len(), |i: int| residue(weight * scalars[i])));
    lemma_product_sum_take(check.scalars, check.bases, len as int);
    lemma_scaled_dot(weight, scalars, weighted, bases);
    lemma_product_sum_concat(sum.scalars, sum.bases, weighted, bases);
    lemma_residue_twice(sum.point + weight * check.point);
    lemma_congruent_add(sum_rhs, sum_rhs, product_sum(weighted, bases), weight * rhs);
    lemma_congruent_sub(
        residue(sum.point + weight * check.point),
        sum.point + weight * check.point,
        sum_rhs + product_sum(weighted, bases),
        sum_rhs + weight * rhs,
    );
    assert(weight * check.point - weight * rhs == weight * (check.point - rhs))
        by (nonlinear_arith);
    lemma_residue_twice(check.point - rhs);
    lemma_congruent_mul(weight, weight, imbalance(check), check.point - rhs);
    lemma_residue_twice(sum.point - sum_rhs);
    lemma_congruent_add(
        imbalance(sum),
        sum.point - sum_rhs,
        weight * imbalance(check),
        weight * (check.point - rhs),
    );
}

/// Checks that hold add up to one that holds, whatever the weight.
pub proof fn lemma_passing_check(sum: Check, check: Check, weight: int)
    requires
        sum.scalars.len() == sum.bases.len(),
        is_reduced(sum.point),
        is_reduced(check.point),
        check_holds(sum),
        check_holds(check),
    ensures
        check_holds(accumulated(sum, check, weight)),
{
    lemma_holds_in_balance(sum);
    lemma_holds_in_balance(check);
    lemma_accumulated_imbalance(sum, check, weight);
    assert(weight * 0 == 0);
    lemma_residue_of_reduced(0);
    lemma_residue_reduced(sum.point + weight * check.point);
    lemma_holds_in_balance(accumulated(sum, check, weight));
}

/// A check that is off by an invertible amount adds up to one that holds under one weight at most.
pub proof fn lemma_failing_check(sum: Check, check: Check, w1: int, w2: int)
    requires
        sum.scalars.len() == sum.bases.len(),
        invertible(imbalance(check)),
        is_reduced(w1),
        is_reduced(w2),
        check_holds(accumulated(sum, check, w1)),
        check_holds(accumulated(sum, check, w2)),
    ensures
        w1 == w2,
{
    let e = imbalance(check);
    let inv = inverse(e);
    lemma_residue_reduced(sum.point + w1 * check.point);
    lemma_residue_reduced(sum.point + w2 * check.point);
    lemma_holds_in_balance(accumulated(sum, check, w1));
    lemma_holds_in_balance(accumulated(sum, check, w2));
    lemma_accumulated_imbalance(sum, check, w1);
    lemma_accumulated_imbalance(sum, check, w2);
    // w1 * e = w2 * e, and e has an inverse
    let s = imbalance(sum);
    lemma_congruent_sub(s + w1 * e, s + w2 * e, s, s);
    lemma_congruent_mul(w1 * e, w2 * e, inv, inv);
    lemma_residue_of_reduced(1);
    lemma_congruent_mul(w1, w1, e * inv, 1);
    lemma_congruent_mul(w2, w2, e * inv, 1);
    assert((w1 * e) * inv == w1 * (e * inv)) by (nonlinear_arith);
    assert((w2 * e) * inv == w2 * (e * inv)) by (nonlinear_arith);
    assert(w1 * 1 == w1 && w2 * 1 == w2);
    lemma_residue_of_reduced(w1);
    lemma_residue_of_reduced(w2);
}

impl MsmAccumulator {
    /// An accumulator without checks.
    pub fn new() -> (res: MsmAccumulator)
        ensures
            res@ == (Check { point: 0, scalars: seq![], bases: seq![] }),
    {
        let res = MsmAccumulator { A_c: projective_zero(), terms: Vec::new() };
        assert(res@ =~= (Check { point: 0, scalars: seq![], bases: seq![] }));
        res
    }

    /// Adds the check that `C` is the sum of the bases, each multiplied by its scalar, under a
    /// random weight.
    pub fn accumulate_check(
        &mut self,
        C: &ProjectivePoint,
        vec_x: &[Scalar],
        vec_V: &[AffinePoint],
        rng: &mut StdRng,
    )
        ensures
            exists|weight: int|
                is_reduced(weight) && final(self)@ == #[trigger] accumulated(
                    old(self)@,
                    Check {
                        point: C@,
                        scalars: scalar_values(vec_x@),
                        bases: affine_values(vec_V@),
                    },
                    weight,
                ),
            final(self)@ == accumulated(
                old(self)@,
                Check {
                    point: C@,
                    scalars: scalar_values(vec_x@),
                    bases: affine_values(vec_V@),
                },
                draw(*old(rng)).0,
            ),
            *final(rng) == draw(*old(rng)).1,
    {
        let weight = scalar_random(rng);
        proof {
            lemma_scalar_reduced(weight);
        }
        self.accumulate_weighted(C, vec_x, vec_V, &weight);
    }

    /// Adds the check that `C` is the sum of the bases, each multiplied by its scalar, under a
    /// given weight. Where one of the slices is longer, the rest of it is left out.
    pub fn accumulate_weighted(
        &mut self,
        C: &ProjectivePoint,
        vec_x: &[Scalar],
        vec_V: &[AffinePoint],
        weight: &Scalar,
    )
        ensures
            final(self)@ == accumulated(
                old(self)@,
                Check {
                    point: C@,
                    scalars: scalar_values(vec_x@),
                    bases: affine_values(vec_V@),
                },
                weight@,
            ),
    {
        let ghost before = self@;
        let ghost terms = self.terms@;
        let ghost check = Check {
            point: C@,
            scalars: scalar_values(vec_x@),
            bases: affine_values(vec_V@),
        };
        proof {
            lemma_residue_add(self.A_c@, C@ * weight@);
            assert(C@ * weight@ == weight@ * C@) by (nonlinear_arith);
        }
        self.A_c = projective_add(&self.A_c, &projective_mul(C, weight));
        let len = if vec_x.len() <= vec_V.len() {
            vec_x.len()
        } else {
            vec_V.len()
        };
        let mut i: usize = 0;
        while i < len
            invariant
                i <= len,
                len <= vec_x@.len(),
                len <= vec_V@.len(),
                self.A_c@ == residue(before.point + weight@ * C@),
                self.terms@.len() == terms.len() + i,
                forall|k: int| 0 <= k < terms.len() ==> #[trigger] self.terms@[k] == terms[k],
                forall|k: int|
                    terms.len() <= k < self.terms@.len() ==> (#[trigger] self.terms@[k]).0@
                        == residue(weight@ * vec_x@[k - terms.len()]@) && self.terms@[k].1
                        == vec_V@[k - terms.len()],
            decreases len - i,
        {
            self.terms.push((scalar_mul(weight, &vec_x[i]), vec_V[i]));
            i += 1;
        }
        assert(self@ =~= accumulated(before, check, weight@));
    }

    /// Adds two checks, each under a given weight.
    pub fn accumulate_both(
        &mut self,
        first: &MsmCheck,
        second: &MsmCheck,
        first_weight: &Scalar,
        second_weight: &Scalar,
    )
        ensures
            final(self)@ == accumulated(
                accumulated(old(self)@, first@, first_weight@),
                second@,
                second_weight@,
            ),
            both_accumulated(old(self)@, (first@, second@), final(self)@),
    {
        self.accumulate_weighted(&first.point, &first.scalars, &first.bases, first_weight);
        let ghost between = self@;
        self.accumulate_weighted(&second.point, &second.scalars, &second.bases, second_weight);
        proof {
            lemma_scalar_reduced(*first_weight);
            lemma_scalar_reduced(*second_weight);
            lemma_both_accumulated(
                old(self)@,
                (first@, second@),
                between,
                self@,
                first_weight@,
                second_weight@,
            );
        }
    }

    /// Verifies all checks at once.
    pub fn verify(self) -> (res: Result<(), ProofError>)
        ensures
            res is Ok <==> check_holds(self@),
            res is Ok <==> self@.point == dot(self@.scalars, self@.bases),
            res matches Err(e) ==> e == ProofError::VerificationError,
    {
        let mut scalars: Vec<Scalar> = Vec::new();
        let mut bases: Vec<AffinePoint> = Vec::new();
        let mut i: usize = 0;
        while i < self.terms.len()
            invariant
                i <= self.terms@.len(),
                scalars@.len() == i,
                bases@.len() == i,
                forall|k: int| 0 <= k < i ==> #[trigger] scalars@[k] == self.terms@[k].0,
                forall|k: int| 0 <= k < i ==> #[trigger] bases@[k] == self.terms@[k].1,
            decreases self.terms@.len() - i,
        {
            scalars.push(self.terms[i].0);
            bases.push(self.terms[i].1);
            i += 1;
        }
        proof {
            assert(scalar_values(scalars@) =~= self@.scalars);
            assert(affine_values(bases@) =~= self@.bases);
            lemma_product_sum_commutes(self@.scalars, self@.bases);
        }
        if msm(&bases, &scalars).same_point(&self.A_c) {
            Ok(())
        } else {
            Err(ProofError::VerificationError)
        }
    }
}

} // verus!
