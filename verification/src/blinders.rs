//! Blinders that drop out of an inner product.
#![allow(non_snake_case)]
use ark_std::rand::rngs::StdRng;
use vstd::prelude::*;
use vstd::slice::slice_subrange;

use crate::algebra::{
    all_reduced, inverse, is_reduced, lemma_congruent_add, lemma_congruent_mul, lemma_congruent_sub,
    lemma_inverse_of_product, lemma_inverse_of_zero, lemma_inverse_unique,
    lemma_product_sum_commutes, lemma_product_sum_push, lemma_residue_add, lemma_residue_mul,
    lemma_residue_of_reduced, lemma_residue_twice, product_sum, residue,
};
use crate::protocol::{are_blinders, invertible, prove, prover_challenges, ProofModel, Vectors};
use crate::scalar::{
    after_draws, drawn_scalars, lemma_scalar_reduced, scalar_add, scalar_inverse, scalar_mul,
    scalar_neg, scalar_sub, scalar_values, Scalar,
};
use crate::util::{generate_blinders, inner_product};

verus! {

/// The determinant of the two linear equations that the last two entries of `z` have to satisfy.
pub open spec fn blinder_determinant(r: Seq<int>, c: Seq<int>) -> int {
    let n = c.len() as int;
    residue(c[n - 2] * r[n - 1] - c[n - 1] * r[n - 2])
}

/// What becomes of the draws `r`, all of the first vector, and `z_head`, all but the last two
/// entries of the second one: two vectors that begin with the draws and hide `c` and `d`, or none
/// where the equations do not determine the last two entries.
pub open spec fn draw_outcome(
    r: Seq<int>,
    z_head: Seq<int>,
    c: Seq<int>,
    d: Seq<int>,
    outcome: Option<(Seq<int>, Seq<int>)>,
) -> bool {
    match outcome {
        Some((first, second)) => {
            &&& invertible(blinder_determinant(r, c))
            &&& first == r
            &&& second.take(z_head.len() as int) == z_head
            &&& all_reduced(second)
            &&& are_blinders(first, second, c, d)
        },
        None => blinder_determinant(r, c) == 0,
    }
}

/// The last two entries of `z` solve the first equation.
///
/// `omega` stands for the part of the equation without the two entries.
proof fn lemma_first_equation(omega: int, c_p: int, c_l: int, inv_c: int, z_p: int, z_l: int)
    requires
        residue(c_p * inv_c) == 1,
        residue(z_p) == residue(-inv_c * (z_l * c_l + omega)),
    ensures
        residue(omega + z_p * c_p + z_l * c_l) == 0,
{
    let x = z_l * c_l + omega;
    lemma_residue_of_reduced(1);
    lemma_residue_of_reduced(0);
    lemma_congruent_mul(z_p, -inv_c * x, c_p, c_p);
    assert((-inv_c * x) * c_p == (c_p * inv_c) * (-x)) by (nonlinear_arith);
    lemma_congruent_mul(c_p * inv_c, 1, -x, -x);
    lemma_congruent_add(x, x, z_p * c_p, -x);
}

/// The last two entries of `z` solve the second equation.
///
/// `delta` stands for the part of the equation without the two entries.
proof fn lemma_second_equation(
    omega: int,
    delta: int,
    c_l: int,
    inv_c: int,
    r_p: int,
    r_l: int,
    inv: int,
    z_p: int,
    z_l: int,
)
    requires
        residue((-r_p * inv_c * c_l + r_l) * inv) == 1,
        residue(z_l) == residue((r_p * inv_c * omega - delta) * inv),
        residue(z_p) == residue(-inv_c * (z_l * c_l + omega)),
    ensures
        residue(delta + r_p * z_p + r_l * z_l) == 0,
{
    let x = z_l * c_l + omega;
    let k = r_p * inv_c;
    let divisor = -r_p * inv_c * c_l + r_l;
    let dividend = k * omega - delta;
    lemma_residue_of_reduced(1);
    lemma_residue_of_reduced(0);
    // r_p * z_p = -k * x
    lemma_congruent_mul(r_p, r_p, z_p, -inv_c * x);
    // divisor * z_l = dividend
    lemma_congruent_mul(divisor, divisor, z_l, dividend * inv);
    assert(divisor * (dividend * inv) == (divisor * inv) * dividend) by (nonlinear_arith);
    lemma_congruent_mul(divisor * inv, 1, dividend, dividend);
    assert(r_p * (-inv_c * x) + r_l * z_l == divisor * z_l - k * omega) by {
        assert(r_p * (-inv_c * x) == -((r_p * inv_c) * x)) by (nonlinear_arith);
        assert(k * (z_l * c_l + omega) == k * (z_l * c_l) + k * omega) by (nonlinear_arith);
        assert(-r_p * inv_c * c_l == -((r_p * inv_c) * c_l)) by (nonlinear_arith);
        assert((-(k * c_l) + r_l) * z_l == -(k * (z_l * c_l)) + r_l * z_l) by (nonlinear_arith);
    }
    lemma_congruent_add(r_p * z_p, r_p * (-inv_c * x), r_l * z_l, r_l * z_l);
    lemma_congruent_add(divisor * z_l, dividend, delta - k * omega, delta - k * omega);
    lemma_congruent_add(delta, delta, r_p * z_p + r_l * z_l, divisor * z_l - k * omega);
}

/// The divisor in the solution vanishes exactly where the determinant does.
proof fn lemma_blinder_divisor(c_p: int, c_l: int, inv_c: int, r_p: int, r_l: int)
    requires
        residue(c_p * inv_c) == 1,
    ensures
        residue(-r_p * inv_c * c_l + r_l) == 0 ==> residue(c_p * r_l - c_l * r_p) == 0,
        residue(c_p * residue(-r_p * inv_c * c_l + r_l)) == residue(c_p * r_l - c_l * r_p),
{
    let divisor = -r_p * inv_c * c_l + r_l;
    let det = c_p * r_l - c_l * r_p;
    lemma_residue_of_reduced(1);
    lemma_residue_of_reduced(0);
    // c_p * divisor = det
    assert(c_p * divisor == c_p * r_l - (c_p * inv_c) * (r_p * c_l)) by (nonlinear_arith)
        requires
            divisor == -r_p * inv_c * c_l + r_l,
    ;
    assert(c_l * r_p == r_p * c_l) by (nonlinear_arith);
    lemma_congruent_mul(c_p * inv_c, 1, r_p * c_l, r_p * c_l);
    lemma_congruent_sub(c_p * r_l, c_p * r_l, (c_p * inv_c) * (r_p * c_l), r_p * c_l);
    if residue(divisor) == 0 {
        lemma_congruent_mul(c_p, c_p, divisor, 0);
    }
    lemma_residue_mul(c_p, divisor);
}

/// Completes the blinder vector `z` from all but its last two entries, so that
///    <r, d> + <z, c> == 0
/// ^  <r, z> == 0
///
/// `None` means that the two equations do not determine the two entries.
pub fn solve_ipa_blinders(r: &[Scalar], z_head: &[Scalar], c: &[Scalar], d: &[Scalar]) -> (res:
    Option<Vec<Scalar>>)
    requires
        c@.len() >= 2,
        c@.len() == d@.len() == r@.len(),
        z_head@.len() == c@.len() - 2,
        c@[c@.len() - 2]@ != 0,
    ensures
        match res {
            Some(z) => {
                &&& invertible(blinder_determinant(scalar_values(r@), scalar_values(c@)))
                &&& z@.take(z_head@.len() as int) == z_head@
                &&& are_blinders(
                    scalar_values(r@),
                    scalar_values(z@),
                    scalar_values(c@),
                    scalar_values(d@),
                )
            },
            None => blinder_determinant(scalar_values(r@), scalar_values(c@)) == 0,
        },
        ({
            let n = c@.len() as int;
            let determinant = c@[n - 2]@ * r@[n - 1]@ - c@[n - 1]@ * r@[n - 2]@;
            &&& res is None <==> residue(determinant) == 0
            &&& res is Some <==> invertible(residue(determinant))
        }),
        draw_outcome(
            scalar_values(r@),
            scalar_values(z_head@),
            scalar_values(c@),
            scalar_values(d@),
            match res {
                Some(z) => Some((scalar_values(r@), scalar_values(z@))),
                None => None,
            },
        ),
{
    let n = c.len();
    let r_p = &r[n - 2];
    let r_l = &r[n - 1];
    let c_l = &c[n - 1];
    let c_head = slice_subrange(c, 0, n - 2);
    let r_head = slice_subrange(r, 0, n - 2);
    let omega = scalar_add(&inner_product(r, d), &inner_product(z_head, c_head));
    let delta = inner_product(r_head, z_head);
    let inv_c = match scalar_inverse(&c[n - 2]) {
        Some(inv) => inv,
        None => return None,
    };
    let divisor = scalar_add(&scalar_mul(&scalar_mul(&scalar_neg(r_p), &inv_c), c_l), r_l);
    proof {
        lemma_inverse_of_zero();
        lemma_residue_of_reduced(0);
        assert(!invertible(0));
        lemma_scalar_reduced(divisor);
        lemma_residue_of_reduced(divisor@);
        lemma_residue_twice(-r_p@);
        lemma_residue_mul(-r_p@, inv_c@);
        lemma_residue_mul(-r_p@ * inv_c@, c_l@);
        lemma_residue_add(-r_p@ * inv_c@ * c_l@, r_l@);
        assert(divisor@ == residue(-r_p@ * inv_c@ * c_l@ + r_l@));
        lemma_blinder_divisor(c@[n - 2]@, c_l@, inv_c@, r_p@, r_l@);
    }
    let inv = match scalar_inverse(&divisor) {
        Some(inv) => inv,
        None => return None,
    };
    let dividend = scalar_sub(&scalar_mul(&scalar_mul(r_p, &inv_c), &omega), &delta);
    let last_z = scalar_mul(&dividend, &inv);
    let penultimate_z = scalar_mul(
        &scalar_neg(&inv_c),
        &scalar_add(&scalar_mul(&last_z, c_l), &omega),
    );
    let mut z: Vec<Scalar> = Vec::new();
    z.extend_from_slice(z_head);
    z.push(penultimate_z);
    z.push(last_z);
    proof {
        lemma_inverse_unique(c@[n - 2]@, inv_c@);
        lemma_inverse_unique(divisor@, inv@);
        lemma_inverse_of_product(c@[n - 2]@, divisor@);
        let (rs, cs, ds, zs) = (
            scalar_values(r@),
            scalar_values(c@),
            scalar_values(d@),
            scalar_values(z@),
        );
        let heads = (scalar_values(r_head@), scalar_values(z_head@), scalar_values(c_head@));
        assert(z@.take(z_head@.len() as int) =~= z_head@);
        assert(zs.take(z_head@.len() as int) =~= heads.1);
        assert(all_reduced(zs)) by {
            broadcast use lemma_scalar_reduced;
        }
        assert(rs =~= heads.0.push(r_p@).push(r_l@));
        assert(cs =~= heads.2.push(c@[n - 2]@).push(c_l@));
        assert(zs =~= heads.1.push(penultimate_z@).push(last_z@));
        lemma_product_sum_push(heads.1, heads.2, penultimate_z@, c@[n - 2]@);
        lemma_product_sum_push(
            heads.1.push(penultimate_z@),
            heads.2.push(c@[n - 2]@),
            last_z@,
            c_l@,
        );
        lemma_product_sum_push(heads.0, heads.1, r_p@, penultimate_z@);
        lemma_product_sum_push(
            heads.0.push(r_p@),
            heads.1.push(penultimate_z@),
            r_l@,
            last_z@,
        );
        // What was computed, without the residues in between.
        lemma_residue_mul(r_p@, inv_c@);
        lemma_residue_mul(r_p@ * inv_c@, omega@);
        lemma_residue_twice(r_p@ * inv_c@ * omega@);
        lemma_congruent_sub(
            residue(r_p@ * inv_c@ * omega@),
            r_p@ * inv_c@ * omega@,
            delta@,
            delta@,
        );
        lemma_residue_mul(r_p@ * inv_c@ * omega@ - delta@, inv@);
        lemma_residue_twice((r_p@ * inv_c@ * omega@ - delta@) * inv@);
        lemma_residue_twice(last_z@ * c_l@);
        lemma_residue_add(last_z@ * c_l@, omega@);
        lemma_residue_mul(-inv_c@, last_z@ * c_l@ + omega@);
        lemma_residue_twice(-inv_c@ * (last_z@ * c_l@ + omega@));
        lemma_residue_mul(-r_p@ * inv_c@ * c_l@ + r_l@, inv@);
        lemma_first_equation(
            omega@,
            c@[n - 2]@,
            c_l@,
            inv_c@,
            penultimate_z@,
            last_z@,
        );
        lemma_second_equation(
            omega@,
            delta@,
            c_l@,
            inv_c@,
            r_p@,
            r_l@,
            inv@,
            penultimate_z@,
            last_z@,
        );
        let tail_c = penultimate_z@ * c@[n - 2]@ + last_z@ * c_l@;
        let tail_r = r_p@ * penultimate_z@ + r_l@ * last_z@;
        let head_c = product_sum(heads.1, heads.2);
        lemma_residue_add(product_sum(rs, ds), head_c);
        lemma_residue_twice(product_sum(rs, ds) + head_c);
        lemma_congruent_add(omega@, product_sum(rs, ds) + head_c, tail_c, tail_c);
        lemma_residue_twice(product_sum(heads.0, heads.1));
        lemma_congruent_add(delta@, product_sum(heads.0, heads.1), tail_r, tail_r);
    }
    Some(z)
}

/// Where the determinant is invertible, all but the last two entries of `z` determine these.
pub proof fn lemma_blinders_determined(
    r: Seq<int>,
    z1: Seq<int>,
    z2: Seq<int>,
    c: Seq<int>,
    d: Seq<int>,
)
    requires
        c.len() >= 2,
        are_blinders(r, z1, c, d),
        are_blinders(r, z2, c, d),
        all_reduced(z1),
        all_reduced(z2),
        z1.take(c.len() - 2) == z2.take(c.len() - 2),
        invertible(blinder_determinant(r, c)),
    ensures
        z1 == z2,
{
    let n = c.len() as int;
    let (c_p, c_l, r_p, r_l) = (c[n - 2], c[n - 1], r[n - 2], r[n - 1]);
    let x = z1[n - 2] - z2[n - 2];
    let y = z1[n - 1] - z2[n - 1];
    lemma_product_sum_last_two(z1, c);
    lemma_product_sum_last_two(z2, c);
    lemma_product_sum_last_two(z1, r);
    lemma_product_sum_last_two(z2, r);
    lemma_product_sum_commutes(r, z1);
    lemma_product_sum_commutes(r, z2);
    let rd = product_sum(r, d);
    lemma_residue_of_reduced(0);
    // c_p * x + c_l * y = 0 and r_p * x + r_l * y = 0
    lemma_congruent_sub(
        rd + product_sum(z1, c),
        0,
        rd + product_sum(z2, c),
        0,
    );
    lemma_congruent_sub(product_sum(z1, r), 0, product_sum(z2, r), 0);
    let e1 = c_p * x + c_l * y;
    let e2 = r_p * x + r_l * y;
    assert(z1[n - 2] * c_p + z1[n - 1] * c_l - (z2[n - 2] * c_p + z2[n - 1] * c_l) == e1)
        by (nonlinear_arith)
        requires
            x == z1[n - 2] - z2[n - 2],
            y == z1[n - 1] - z2[n - 1],
            e1 == c_p * x + c_l * y,
    ;
    assert(z1[n - 2] * r_p + z1[n - 1] * r_l - (z2[n - 2] * r_p + z2[n - 1] * r_l) == e2)
        by (nonlinear_arith)
        requires
            x == z1[n - 2] - z2[n - 2],
            y == z1[n - 1] - z2[n - 1],
            e2 == r_p * x + r_l * y,
    ;
    assert(residue(e1) == 0 && residue(e2) == 0);
    // det * x = r_l * e1 - c_l * e2 and det * y = c_p * e2 - r_p * e1
    let det = c_p * r_l - c_l * r_p;
    assert(det * x == r_l * e1 - c_l * e2) by (nonlinear_arith)
        requires
            det == c_p * r_l - c_l * r_p,
            e1 == c_p * x + c_l * y,
            e2 == r_p * x + r_l * y,
    ;
    assert(det * y == c_p * e2 - r_p * e1) by (nonlinear_arith)
        requires
            det == c_p * r_l - c_l * r_p,
            e1 == c_p * x + c_l * y,
            e2 == r_p * x + r_l * y,
    ;
    lemma_congruent_mul(r_l, r_l, e1, 0);
    lemma_congruent_mul(c_l, c_l, e2, 0);
    lemma_congruent_sub(r_l * e1, 0, c_l * e2, 0);
    lemma_congruent_mul(c_p, c_p, e2, 0);
    lemma_congruent_mul(r_p, r_p, e1, 0);
    lemma_congruent_sub(c_p * e2, 0, r_p * e1, 0);
    lemma_cancelled(det, z1[n - 2], z2[n - 2]);
    lemma_cancelled(det, z1[n - 1], z2[n - 1]);
    assert forall|i: int| 0 <= i < n implies z1[i] == z2[i] by {
        if i < n - 2 {
            assert(z1[i] == z1.take(n - 2)[i]);
            assert(z2[i] == z2.take(n - 2)[i]);
        }
    }
    assert(z1 =~= z2);
}

/// Two reduced numbers are equal if an invertible multiple of their difference vanishes.
pub proof fn lemma_cancelled(k: int, x: int, y: int)
    requires
        invertible(residue(k)),
        residue(k * (x - y)) == 0,
        is_reduced(x),
        is_reduced(y),
    ensures
        x == y,
{
    let inv = inverse(residue(k));
    lemma_residue_of_reduced(0);
    lemma_residue_of_reduced(1);
    lemma_residue_mul(k, inv);
    lemma_congruent_mul(k * inv, 1, x - y, x - y);
    lemma_congruent_mul(inv, inv, k * (x - y), 0);
    assert(inv * (k * (x - y)) == (k * inv) * (x - y)) by (nonlinear_arith);
    lemma_congruent_add(x - y, 0, y, y);
    lemma_residue_of_reduced(x);
    lemma_residue_of_reduced(y);
}

/// The last two products of a sum stand apart.
proof fn lemma_product_sum_last_two(a: Seq<int>, b: Seq<int>)
    requires
        a.len() == b.len(),
        a.len() >= 2,
    ensures
        product_sum(a, b) == product_sum(a.take(a.len() - 2), b.take(a.len() - 2)) + a[a.len() - 2]
            * b[a.len() - 2] + a[a.len() - 1] * b[a.len() - 1],
{
    let n = a.len() as int;
    let (a1, b1) = (a.take(n - 2), b.take(n - 2));
    assert(a =~= a1.push(a[n - 2]).push(a[n - 1]));
    assert(b =~= b1.push(b[n - 2]).push(b[n - 1]));
    lemma_product_sum_push(a1, b1, a[n - 2], b[n - 2]);
    lemma_product_sum_push(a1.push(a[n - 2]), b1.push(b[n - 2]), a[n - 1], b[n - 1]);
}

/// `outcome` is what becomes of some draws.
pub open spec fn blinders_drawn(
    c: Seq<int>,
    d: Seq<int>,
    outcome: Option<(Seq<int>, Seq<int>)>,
) -> bool {
    exists|r: Seq<int>, z_head: Seq<int>|
        all_reduced(r) && all_reduced(z_head) && r.len() == c.len() && z_head.len() + 2 == c.len()
            && #[trigger] draw_outcome(r, z_head, c, d, outcome)
}

/// The draws determine what becomes of them.
pub proof fn lemma_draw_outcome_determined(
    r: Seq<int>,
    z_head: Seq<int>,
    c: Seq<int>,
    d: Seq<int>,
    one: Option<(Seq<int>, Seq<int>)>,
    other: Option<(Seq<int>, Seq<int>)>,
)
    requires
        c.len() >= 2,
        z_head.len() + 2 == c.len(),
        draw_outcome(r, z_head, c, d, one),
        draw_outcome(r, z_head, c, d, other),
    ensures
        one == other,
{
    lemma_inverse_of_zero();
    lemma_residue_of_reduced(0);
    assert(!invertible(0));
    if one is Some && other is Some {
        lemma_blinders_determined(r, one->Some_0.1, other->Some_0.1, c, d);
    }
}

/// Where the prover ends that was given the draws `r` and `z_head` in the state `before`: it gives
/// up at once where they lead to no blinders, and makes its proof with these otherwise, unless a
/// challenge is 0.
pub open spec fn proven_from_draws(
    v: Vectors,
    crs_H: int,
    C: int,
    D: int,
    z: int,
    r: Seq<int>,
    z_head: Seq<int>,
    before: Seq<u8>,
    made: Option<ProofModel>,
    after: Seq<u8>,
) -> bool {
    exists|outcome: Option<(Seq<int>, Seq<int>)>| #[trigger]
        draw_outcome(r, z_head, v.c, v.d, outcome) && match outcome {
            Some((r_c, r_d)) => {
                &&& prove(v, crs_H, C, D, z, r_c, r_d, before) == (made, after)
                &&& made is None <==> prover_challenges(
                    v,
                    crs_H,
                    C,
                    D,
                    z,
                    r_c,
                    r_d,
                    before,
                ).contains(0)
            },
            None => made is None && after == before,
        }
}

/// Where the prover ends that draws its blinders itself.
pub open spec fn proven_with_draws(
    v: Vectors,
    crs_H: int,
    C: int,
    D: int,
    z: int,
    before: Seq<u8>,
    made: Option<ProofModel>,
    after: Seq<u8>,
) -> bool {
    exists|r: Seq<int>, z_head: Seq<int>|
        all_reduced(r) && all_reduced(z_head) && r.len() == v.c.len() && z_head.len() + 2
            == v.c.len() && #[trigger] proven_from_draws(
            v,
            crs_H,
            C,
            D,
            z,
            r,
            z_head,
            before,
            made,
            after,
        )
}

/// Generate two blinder vectors `r` and `z` that satisfy the following constraints:
///    <r, d> + <z, c> == 0
/// ^  <r, z> == 0
///
/// We do this by solving a system of two equations over two unknowns. `None` means that what was
/// drawn does not determine them.
pub fn generate_ipa_blinders(rng: &mut StdRng, c: &[Scalar], d: &[Scalar]) -> (res: Option<
    (Vec<Scalar>, Vec<Scalar>),
>)
    requires
        c@.len() >= 2,
        c@.len() == d@.len(),
        c@[c@.len() - 2]@ != 0,
    ensures
        res matches Some((r, z)) ==> are_blinders(
            scalar_values(r@),
            scalar_values(z@),
            scalar_values(c@),
            scalar_values(d@),
        ),
        blinders_drawn(
            scalar_values(c@),
            scalar_values(d@),
            match res {
                Some((r, z)) => Some((scalar_values(r@), scalar_values(z@))),
                None => None,
            },
        ),
        draw_outcome(
            drawn_scalars(*old(rng), c@.len()),
            drawn_scalars(after_draws(*old(rng), c@.len()), (c@.len() - 2) as nat),
            scalar_values(c@),
            scalar_values(d@),
            match res {
                Some((r, z)) => Some((scalar_values(r@), scalar_values(z@))),
                None => None,
            },
        ),
        *final(rng) == after_draws(after_draws(*old(rng), c@.len()), (c@.len() - 2) as nat),
{
    let n = c.len();
    // Generate all the blinders but leave out two blinders from z
    let r = generate_blinders(rng, n);
    let z_head = generate_blinders(rng, n - 2);
    let ghost (rs, heads) = (scalar_values(r@), scalar_values(z_head@));
    proof {
        broadcast use lemma_scalar_reduced;
        assert(all_reduced(rs) && all_reduced(heads));
    }
    match solve_ipa_blinders(&r, &z_head, c, d) {
        Some(z) => Some((r, z)),
        None => None,
    }
}

} // verus!
