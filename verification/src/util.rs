//! Utility functions used around the proofs.
#![allow(non_snake_case)]
use ark_std::rand::rngs::StdRng;
use vstd::prelude::*;
use vstd::slice::slice_subrange;

use crate::algebra::{
    all_reduced, dot, is_reduced, lemma_product_sum_push, lemma_product_sum_update,
    lemma_product_sum_zeros, lemma_residue_add, lemma_residue_mul, lemma_residue_of_reduced,
    lemma_residue_twice, product_sum, residue, total,
};
use crate::crs::{CurdleproofsCrs, N_BLINDERS};
use crate::encoding::{
    lemma_points_decoding_error, lemma_points_encoding_prefix, points_decoding, points_encoding,
};
use crate::errors::SerializationError;
use crate::folding::{
    ceil_log2, first_len, fold_count, fold_first, fold_start, folded_rounds, lemma_fold_shape,
};

use crate::point::{
    affine_add, affine_msm, affine_values, point_encoding, projective_add,
    projective_normalize_batch, projective_values, projective_zero, AffinePoint, ProjectivePoint,
};
use crate::scalar::{
    after_draws, draw, drawn_scalars, scalar_add, scalar_mul, scalar_random, scalar_values, Scalar,
};

verus! {

/// An ergonomic MSM function: the sum of the points, each multiplied by its scalar.
pub fn msm(points: &[AffinePoint], scalars: &[Scalar]) -> (res: ProjectivePoint)
    requires
        points@.len() == scalars@.len(),
    ensures
        res@ == dot(affine_values(points@), scalar_values(scalars@)),
{
    affine_msm(points, scalars)
}

/// An ergonomic MSM function that works with projective points.
pub fn msm_from_projective(points: &[ProjectivePoint], scalars: &[Scalar]) -> (res: ProjectivePoint)
    requires
        points@.len() == scalars@.len(),
    ensures
        res@ == dot(projective_values(points@), scalar_values(scalars@)),
{
    let points_affine = projective_normalize_batch(points);
    assert(points_affine@.len() == affine_values(points_affine@).len());
    assert(points@.len() == projective_values(points@).len());
    msm(&points_affine, scalars)
}

/// Generate and return `n` blinders.
pub fn generate_blinders(rng: &mut StdRng, n: usize) -> (res: Vec<Scalar>)
    ensures
        res@.len() == n,
        forall|i: int|
            0 <= i < n ==> (#[trigger] res@[i])@ == draw(after_draws(*old(rng), i as nat)).0,
        scalar_values(res@) == drawn_scalars(*old(rng), n as nat),
        *final(rng) == after_draws(*old(rng), n as nat),
        n == 0 ==> *final(rng) == *old(rng),
{
    let mut res: Vec<Scalar> = Vec::new();
    let mut i: usize = 0;
    while i < n
        invariant
            i <= n,
            res@.len() == i,
            forall|j: int|
                0 <= j < i ==> (#[trigger] res@[j])@ == draw(after_draws(*old(rng), j as nat)).0,
            *rng == after_draws(*old(rng), i as nat),
        decreases n - i,
    {
        res.push(scalar_random(rng));
        i += 1;
    }
    assert(scalar_values(res@) =~= drawn_scalars(*old(rng), n as nat));
    res
}

/// Return the inner product of two field vectors.
pub fn inner_product(a: &[Scalar], b: &[Scalar]) -> (res: Scalar)
    requires
        a@.len() == b@.len(),
    ensures
        res@ == dot(scalar_values(a@), scalar_values(b@)),
{
    let mut c = Scalar::from_u64(0);
    let ghost x = scalar_values(a@);
    let ghost y = scalar_values(b@);
    let mut i: usize = 0;
    assert(c@ == dot(x.take(0), y.take(0))) by {
        lemma_residue_of_reduced(0);
    }
    while i < a.len()
        invariant
            i <= a@.len(),
            a@.len() == b@.len(),
            x == scalar_values(a@),
            y == scalar_values(b@),
            c@ == dot(x.take(i as int), y.take(i as int)),
        decreases a@.len() - i,
    {
        c = scalar_add(&c, &scalar_mul(&a[i], &b[i]));
        proof {
            let (p, q) = (x.take(i as int), y.take(i as int));
            let (u, v) = (x[i as int], y[i as int]);
            assert(x.take(i + 1) =~= p.push(u));
            assert(y.take(i + 1) =~= q.push(v));
            lemma_product_sum_push(p, q, u, v);
            let sum = crate::algebra::product_sum(p, q);
            lemma_residue_add(sum, u * v);
        }
        i += 1;
    }
    assert(x.take(i as int) =~= x);
    assert(y.take(i as int) =~= y);
    c
}

/// Return `vec_a` permuted.
pub fn get_permutation<T: Copy>(vec_a: &[T], permutation: &[u32]) -> (res: Vec<T>)
    requires
        forall|i: int| 0 <= i < permutation@.len() ==> #[trigger] permutation@[i] < vec_a@.len(),
    ensures
        res@ == Seq::new(permutation@.len(), |i: int| vec_a@[permutation@[i] as int]),
{
    let mut res: Vec<T> = Vec::new();
    let mut i: usize = 0;
    while i < permutation.len()
        invariant
            i <= permutation@.len(),
            res@.len() == i,
            forall|j: int|
                0 <= j < permutation@.len() ==> #[trigger] permutation@[j] < vec_a@.len(),
            forall|j: int| 0 <= j < i ==> res@[j] == vec_a@[permutation@[j] as int],
        decreases permutation@.len() - i,
    {
        res.push(vec_a[permutation[i] as usize]);
        i += 1;
    }
    res
}
/// Get a bitstring to derive the verification scalars using binary decomposition: for each index of
/// a vector of `n` entries, the rounds of folding, out of the first `logn`, in which the entry that
/// stood there is folded into another one.
pub fn get_verification_scalars_bitstring(n: usize, logn: usize) -> (res: Vec<Vec<usize>>)
    requires
        n == 0 || logn <= ceil_log2(n as nat),
    ensures
        res@.len() == n,
        forall|i: int|
            0 <= i < n ==> (#[trigger] res@[i])@ == folded_rounds(n as nat, i, 0, logn as nat),
{
    let mut bitstring: Vec<Vec<usize>> = Vec::new();
    let mut positions: Vec<usize> = Vec::new();
    let mut i: usize = 0;
    while i < n
        invariant
            i <= n,
            bitstring@.len() == i,
            positions@.len() == i,
            forall|k: int| 0 <= k < i ==> (#[trigger] bitstring@[k])@ == Seq::<usize>::empty(),
            forall|k: int| 0 <= k < i ==> #[trigger] positions@[k] == k,
        decreases n - i,
    {
        bitstring.push(Vec::new());
        positions.push(i);
        i += 1;
    }
    let mut current_n: usize = n;
    let mut j: usize = 0;
    proof {
        assert forall|k: int| 0 <= k < n implies folded_rounds(n as nat, k, 0, logn as nat) == (
        #[trigger] bitstring@[k])@ + folded_rounds(
            current_n as nat,
            positions@[k] as int,
            j as nat,
            logn as nat,
        ) by {
            assert(positions@[k] == k);
            let rounds = folded_rounds(n as nat, k, 0, logn as nat);
            assert(Seq::<usize>::empty() + rounds =~= rounds);
        }
    }
    while j < logn
        invariant
            j <= logn,
            n == 0 || logn <= ceil_log2(n as nat),
            n == 0 || ceil_log2(current_n as nat) + j == ceil_log2(n as nat),
            bitstring@.len() == n,
            positions@.len() == n,
            forall|k: int| 0 <= k < n ==> #[trigger] positions@[k] < current_n,
            forall|k: int|
                0 <= k < n ==> folded_rounds(n as nat, k, 0, logn as nat) == (
                #[trigger] bitstring@[k])@ + folded_rounds(
                    current_n as nat,
                    positions@[k] as int,
                    j as nat,
                    logn as nat,
                ),
        decreases logn - j,
    {
        if n == 0 {
            return bitstring;
        }
        proof {
            lemma_fold_shape(current_n as nat);
        }
        let n_first = first_len(current_n);
        let n_fold = current_n - n_first;
        let ih = (n_first - n_fold) / 2;
        let mut i: usize = 0;
        while i < n
            invariant
                i <= n,
                j < logn,
                bitstring@.len() == n,
                positions@.len() == n,
                current_n >= 2,
                n_first == fold_first(current_n as nat),
                n_fold == fold_count(current_n as nat),
                ih == fold_start(current_n as nat),
                n_first < current_n,
                n_first + n_fold == current_n,
                ih + n_fold <= n_first,
                forall|k: int| 0 <= k < i ==> #[trigger] positions@[k] < n_first,
                forall|k: int| i <= k < n ==> #[trigger] positions@[k] < current_n,
                forall|k: int|
                    0 <= k < i ==> folded_rounds(n as nat, k, 0, logn as nat) == (
                    #[trigger] bitstring@[k])@ + folded_rounds(
                        n_first as nat,
                        positions@[k] as int,
                        (j + 1) as nat,
                        logn as nat,
                    ),
                forall|k: int|
                    i <= k < n ==> folded_rounds(n as nat, k, 0, logn as nat) == (
                    #[trigger] bitstring@[k])@ + folded_rounds(
                        current_n as nat,
                        positions@[k] as int,
                        j as nat,
                        logn as nat,
                    ),
            decreases n - i,
        {
            let k = positions[i];
            let ghost before = bitstring@[i as int]@;
            if k >= n_first {
                bitstring[i].push(j);
                let new_pos: usize = k - n_first + ih;
                positions[i] = new_pos;
                proof {
                    let rest = folded_rounds(
                        n_first as nat,
                        new_pos as int,
                        (j + 1) as nat,
                        logn as nat,
                    );
                    assert(before + (seq![j] + rest) =~= before.push(j) + rest);
                }
            }
            i += 1;
        }
        current_n = n_first;
        j += 1;
    }
    proof {
        assert forall|k: int| 0 <= k < n implies (#[trigger] bitstring@[k])@ == folded_rounds(
            n as nat,
            k,
            0,
            logn as nat,
        ) by {
            assert(bitstring@[k]@ + Seq::<usize>::empty() =~= bitstring@[k]@);
        }
    }
    bitstring
}

/// `n` distinct indices below `n` are all of these.
proof fn lemma_all_indices_occur(permutation: Seq<u32>, i: int)
    requires
        permutation.no_duplicates(),
        0 <= i < permutation.len(),
        forall|j: int|
            0 <= j < permutation.len() ==> #[trigger] permutation[j] < permutation.len(),
    ensures
        exists|j: int| 0 <= j < permutation.len() && permutation[j] == i,
{
    let n = permutation.len() as int;
    let indices = Seq::new(permutation.len(), |j: int| permutation[j] as int);
    let range = vstd::set_lib::set_int_range(0, n);
    indices.unique_seq_to_set();
    vstd::set_lib::lemma_int_range(0, n);
    vstd::seq_lib::seq_to_set_is_finite(indices);
    assert(indices.to_set().subset_of(range)) by {
        assert forall|x: int| indices.to_set().contains(x) implies range.contains(x) by {
            let j = choose|j: int| 0 <= j < indices.len() && indices[j] == x;
            assert(permutation[j] < permutation.len());
        }
    }
    vstd::set_lib::lemma_subset_equality(indices.to_set(), range);
    assert(range.contains(i));
    assert(indices.to_set().contains(i));
    assert(indices.contains(i));
    let j = choose|j: int| 0 <= j < indices.len() && indices[j] == i;
    assert(permutation[j] == i);
}

/// Permuting a vector by distinct indices keeps its entries, each as often as it occurs.
pub proof fn lemma_permutation_keeps_entries<T>(v: Seq<T>, permutation: Seq<u32>)
    requires
        permutation.len() == v.len(),
        permutation.no_duplicates(),
        forall|i: int| 0 <= i < permutation.len() ==> #[trigger] permutation[i] < v.len(),
    ensures
        Seq::new(permutation.len(), |i: int| v[permutation[i] as int]).to_multiset()
            == v.to_multiset(),
    decreases v.len(),
{
    let n = v.len() as int;
    let permuted = Seq::new(permutation.len(), |i: int| v[permutation[i] as int]);
    if n == 0 {
        assert(permuted =~= v);
    } else {
        lemma_all_indices_occur(permutation, n - 1);
        let j = choose|j: int| 0 <= j < n && permutation[j] == n - 1;
        let fewer = permutation.remove(j);
        let shorter = v.drop_last();
        assert forall|i: int| 0 <= i < fewer.len() implies #[trigger] fewer[i] < shorter.len() by {
            let at = if i < j {
                i
            } else {
                i + 1
            };
            assert(fewer[i] == permutation[at]);
            assert(permutation[at] < v.len());
            assert(permutation[at] != permutation[j]);
        }
        assert(fewer.no_duplicates());
        lemma_permutation_keeps_entries(shorter, fewer);
        assert(permuted.remove(j) =~= Seq::new(fewer.len(), |i: int| shorter[fewer[i] as int]));
        vstd::seq_lib::to_multiset_remove(permuted, j);
        vstd::seq_lib::to_multiset_build(shorter, v.last());
        assert(shorter.push(v.last()) =~= v);
        permuted.to_multiset_ensures();
        assert(permuted[j] == v.last());
        assert(permuted.to_multiset().count(permuted[j]) > 0) by {
            assert(permuted.contains(permuted[j]));
        }
        assert(permuted.to_multiset() =~= permuted.to_multiset().remove(permuted[j]).insert(
            permuted[j],
        ));
    }
}

/// Multiplies every point by `k`.
fn multiply_all(points: &[AffinePoint], k: &Scalar) -> (res: Vec<AffinePoint>)
    ensures
        res@.len() == points@.len(),
        forall|i: int|
            0 <= i < points@.len() ==> (#[trigger] res@[i])@ == residue(points@[i]@ * k@),
{
    let mut res: Vec<AffinePoint> = Vec::new();
    let mut i: usize = 0;
    while i < points.len()
        invariant
            i <= points@.len(),
            res@.len() == i,
            forall|j: int| 0 <= j < i ==> (#[trigger] res@[j])@ == residue(points@[j]@ * k@),
        decreases points@.len() - i,
    {
        res.push(points[i].times(k).to_affine());
        i += 1;
    }
    res
}

/// The number of indices that `ell` points have: an index is 32 bits wide.
pub open spec fn index_count(ell: nat) -> nat {
    ell % 0x1_0000_0000
}

/// The vector with its entries permuted and multiplied by `k`.
pub open spec fn shuffled(v: Seq<int>, permutation: Seq<u32>, k: int) -> Seq<int> {
    Seq::new(permutation.len(), |i: int| residue(v[permutation[i] as int] * k))
}

/// Shuffling by distinct indices keeps the entries, each multiplied by `k`.
pub proof fn lemma_shuffle_keeps_entries(v: Seq<int>, permutation: Seq<u32>, k: int)
    requires
        permutation.len() == v.len(),
        permutation.no_duplicates(),
        forall|i: int| 0 <= i < permutation.len() ==> #[trigger] permutation[i] < v.len(),
    ensures
        shuffled(v, permutation, k).to_multiset() == v.map_values(
            |x: int| residue(x * k),
        ).to_multiset(),
{
    let multiplied = v.map_values(|x: int| residue(x * k));
    lemma_permutation_keeps_entries(multiplied, permutation);
    assert(shuffled(v, permutation, k) =~= Seq::new(
        permutation.len(),
        |i: int| multiplied[permutation[i] as int],
    ));
}

/// Shuffling back with the inverse permutation and the inverse factor gives what was shuffled.
pub proof fn lemma_shuffle_back(
    v: Seq<int>,
    permutation: Seq<u32>,
    back: Seq<u32>,
    k: int,
    k_inv: int,
)
    requires
        all_reduced(v),
        permutation.len() == v.len(),
        back.len() == v.len(),
        forall|i: int|
            0 <= i < v.len() ==> #[trigger] back[i] < v.len() && permutation[back[i] as int] == i,
        residue(k * k_inv) == 1,
    ensures
        shuffled(shuffled(v, permutation, k), back, k_inv) == v,
{
    let once = shuffled(v, permutation, k);
    let twice = shuffled(once, back, k_inv);
    assert forall|i: int| 0 <= i < v.len() implies twice[i] == #[trigger] v[i] by {
        let x = v[i];
        assert(back[i] < v.len());
        assert(once[back[i] as int] == residue(x * k));
        lemma_residue_mul(x * k, k_inv);
        assert((x * k) * k_inv == x * (k * k_inv)) by (nonlinear_arith);
        lemma_residue_mul(x, k * k_inv);
        assert(x * 1 == x);
        lemma_residue_of_reduced(x);
    }
    assert(twice =~= v);
}

/// The commitment to a permutation under blinders.
pub open spec fn permutation_commitment(
    G: Seq<int>,
    H: Seq<int>,
    permutation: Seq<u32>,
    blinders: Seq<int>,
) -> int {
    residue(dot(G, Seq::new(permutation.len(), |i: int| permutation[i] as int)) + dot(H, blinders))
}

/// Given input vectors, the permutation and the randomizer, shuffle and permute the input.
/// Basically, prepare everything so that a shuffle proof can be created!
///
/// Gives the two shuffled vectors, the commitment to the permutation, and the blinders of that.
pub fn shuffle_permute_and_commit_input(
    crs: &CurdleproofsCrs,
    vec_R: &[AffinePoint],
    vec_S: &[AffinePoint],
    permutation: &[u32],
    k: &Scalar,
    rng: &mut StdRng,
) -> (res: (Vec<AffinePoint>, Vec<AffinePoint>, ProjectivePoint, Vec<Scalar>))
    requires
        permutation@.len() == crs.vec_G@.len(),
        crs.vec_H@.len() == N_BLINDERS,
        forall|i: int|
            0 <= i < permutation@.len() ==> #[trigger] permutation@[i] < vec_R@.len()
                && permutation@[i] < vec_S@.len() && permutation@[i] < index_count(
                crs.vec_G@.len(),
            ),
    ensures
        affine_values(res.0@) == shuffled(affine_values(vec_R@), permutation@, k@),
        affine_values(res.1@) == shuffled(affine_values(vec_S@), permutation@, k@),
        res.0@.len() == permutation@.len(),
        res.1@.len() == permutation@.len(),
        forall|i: int|
            0 <= i < permutation@.len() ==> (#[trigger] res.0@[i])@ == residue(
                vec_R@[permutation@[i] as int]@ * k@,
            ),
        forall|i: int|
            0 <= i < permutation@.len() ==> (#[trigger] res.1@[i])@ == residue(
                vec_S@[permutation@[i] as int]@ * k@,
            ),
        res.2@ == residue(
            product_sum(
                affine_values(crs.vec_G@),
                Seq::new(permutation@.len(), |i: int| permutation@[i] as int),
            ) + product_sum(affine_values(crs.vec_H@), scalar_values(res.3@)),
        ),
        res.2@ == permutation_commitment(
            affine_values(crs.vec_G@),
            affine_values(crs.vec_H@),
            permutation@,
            scalar_values(res.3@),
        ),
        res.3@.len() == N_BLINDERS,
        scalar_values(res.3@) == drawn_scalars(*old(rng), N_BLINDERS as nat),
        *final(rng) == after_draws(*old(rng), N_BLINDERS as nat),
{
    let vec_m_blinders = generate_blinders(rng, N_BLINDERS);
    let (vec_T, vec_U, M) = shuffle_with_blinders(
        crs,
        vec_R,
        vec_S,
        permutation,
        k,
        &vec_m_blinders,
    );
    (vec_T, vec_U, M, vec_m_blinders)
}

/// Shuffle and permute the input, and commit to the permutation with given blinders.
pub fn shuffle_with_blinders(
    crs: &CurdleproofsCrs,
    vec_R: &[AffinePoint],
    vec_S: &[AffinePoint],
    permutation: &[u32],
    k: &Scalar,
    vec_m_blinders: &[Scalar],
) -> (res: (Vec<AffinePoint>, Vec<AffinePoint>, ProjectivePoint))
    requires
        permutation@.len() == crs.vec_G@.len(),
        crs.vec_H@.len() == vec_m_blinders@.len(),
        forall|i: int|
            0 <= i < permutation@.len() ==> #[trigger] permutation@[i] < vec_R@.len()
                && permutation@[i] < vec_S@.len() && permutation@[i] < index_count(
                crs.vec_G@.len(),
            ),
    ensures
        affine_values(res.0@) == shuffled(affine_values(vec_R@), permutation@, k@),
        affine_values(res.1@) == shuffled(affine_values(vec_S@), permutation@, k@),
        res.0@.len() == permutation@.len(),
        res.1@.len() == permutation@.len(),
        forall|i: int|
            0 <= i < permutation@.len() ==> (#[trigger] res.0@[i])@ == residue(
                vec_R@[permutation@[i] as int]@ * k@,
            ),
        forall|i: int|
            0 <= i < permutation@.len() ==> (#[trigger] res.1@[i])@ == residue(
                vec_S@[permutation@[i] as int]@ * k@,
            ),
        res.2@ == residue(
            product_sum(
                affine_values(crs.vec_G@),
                Seq::new(permutation@.len(), |i: int| permutation@[i] as int),
            ) + product_sum(affine_values(crs.vec_H@), scalar_values(vec_m_blinders@)),
        ),
        res.2@ == permutation_commitment(
            affine_values(crs.vec_G@),
            affine_values(crs.vec_H@),
            permutation@,
            scalar_values(vec_m_blinders@),
        ),
{
    let ell = crs.vec_G.len();
    // Derive shuffled outputs
    let vec_T = get_permutation(&multiply_all(vec_R, k), permutation);
    let vec_U = get_permutation(&multiply_all(vec_S, k), permutation);
    let count: u32 = (ell as u64 % 0x1_0000_0000) as u32;
    let mut range_as_fr: Vec<Scalar> = Vec::new();
    let mut i: u32 = 0;
    while i < count
        invariant
            i <= count,
            range_as_fr@.len() == i,
            forall|j: int| 0 <= j < i ==> (#[trigger] range_as_fr@[j])@ == j,
        decreases count - i,
    {
        range_as_fr.push(Scalar::from_u64(i as u64));
        i += 1;
    }
    let sigma_ell = get_permutation(&range_as_fr, permutation);
    let M = projective_add(&msm(&crs.vec_G, &sigma_ell), &msm(&crs.vec_H, vec_m_blinders));
    proof {
        lemma_residue_add(
            product_sum(affine_values(crs.vec_G@), scalar_values(sigma_ell@)),
            product_sum(affine_values(crs.vec_H@), scalar_values(vec_m_blinders@)),
        );
        assert(affine_values(vec_T@) =~= shuffled(affine_values(vec_R@), permutation@, k@));
        assert(affine_values(vec_U@) =~= shuffled(affine_values(vec_S@), permutation@, k@));
        assert(scalar_values(sigma_ell@) =~= Seq::new(
            permutation@.len(),
            |i: int| permutation@[i] as int,
        ));
    }
    (vec_T, vec_U, M)
}

/// Return the sum of the points.
pub fn sum_affine_points(affine_points: &[AffinePoint]) -> (res: AffinePoint)
    ensures
        res@ == residue(total(affine_values(affine_points@))),
{
    let ghost values = affine_values(affine_points@);
    let mut sum = projective_zero();
    let mut i: usize = 0;
    proof {
        lemma_residue_of_reduced(0);
    }
    while i < affine_points.len()
        invariant
            i <= affine_points@.len(),
            values == affine_values(affine_points@),
            sum@ == residue(total(values.take(i as int))),
        decreases affine_points@.len() - i,
    {
        sum = affine_add(&affine_points[i], &sum);
        proof {
            assert(values.take(i + 1).drop_last() =~= values.take(i as int));
            lemma_residue_add(values[i as int], total(values.take(i as int)));
        }
        i += 1;
    }
    assert(values.take(i as int) =~= values);
    sum.to_affine()
}

/// Writes points, one after the other, to the end of `w`.
pub fn serialize_g1projective_vec(v: &[ProjectivePoint], w: &mut Vec<u8>) -> (res: Result<
    (),
    SerializationError,
>)
    ensures
        res is Ok,
        final(w)@ == old(w)@ + points_encoding(projective_values(v@)),
        final(w)@.len() == old(w)@.len() + 48 * v@.len(),
{
    let ghost values = projective_values(v@);
    let ghost before = w@;
    let mut i: usize = 0;
    assert(values.take(0) =~= seq![]);
    assert(before + Seq::<u8>::empty() =~= before);
    while i < v.len()
        invariant
            i <= v@.len(),
            values == projective_values(v@),
            w@ == before + points_encoding(values.take(i as int)),
            w@.len() == before.len() + 48 * i,
        decreases v@.len() - i,
    {
        let mut bytes = v[i].to_bytes();
        w.append(&mut bytes);
        proof {
            assert(values.take(i + 1).drop_last() =~= values.take(i as int));
            assert(before + points_encoding(values.take(i as int)) + point_encoding(
                values[i as int],
            ) =~= before + (points_encoding(values.take(i as int)) + point_encoding(
                values[i as int],
            )));
        }
        i += 1;
    }
    assert(values.take(i as int) =~= values);
    Ok(())
}

/// Reads `n` points from the front of `bytes`. What [`serialize_g1projective_vec`] wrote is read
/// back.
pub fn deserialize_g1projective_vec(bytes: &[u8], n: usize) -> (res: Result<
    Vec<ProjectivePoint>,
    SerializationError,
>)
    ensures
        match res {
            Ok(points) => {
                &&& points_decoding(bytes@, n as nat) == Ok::<Seq<int>, SerializationError>(
                    projective_values(points@),
                )
                &&& points@.len() == n
                &&& 48 * n <= bytes@.len()
            },
            Err(e) => points_decoding(bytes@, n as nat) == Err::<Seq<int>, SerializationError>(e),
        },
        forall|points: Seq<int>|
            points.len() == n && all_reduced(points) && #[trigger] points_encoding(
                points,
            ).is_prefix_of(bytes@) ==> points_encoding(points).len() == 48 * n && res is Ok
                && projective_values(res->Ok_0@) == points,
{
    let len = bytes.len();
    let mut res: Vec<ProjectivePoint> = Vec::new();
    let mut i: usize = 0;
    assert(projective_values(res@) =~= seq![]);
    proof {
        assert forall|points: Seq<int>| #[trigger]
            points_encoding(points).is_prefix_of(bytes@) implies points_encoding(
            points.take(0),
        ).len() == 0 && projective_values(res@) == points.take(0) by {
            assert(points.take(0) =~= seq![]);
        }
    }
    while i < n
        invariant
            i <= n,
            res@.len() == i,
            len == bytes@.len(),
            48 * i <= len,
            points_decoding(bytes@, i as nat) == Ok::<Seq<int>, SerializationError>(
                projective_values(res@),
            ),
            forall|points: Seq<int>|
                points.len() == n && all_reduced(points) && #[trigger] points_encoding(
                    points,
                ).is_prefix_of(bytes@) ==> points_encoding(points.take(i as int)).len() == 48 * i
                    && projective_values(res@) == points.take(i as int),
        decreases n - i,
    {
        let rest = slice_subrange(bytes, 48 * i, len);
        assert(rest@ =~= bytes@.skip(48 * i));
        let ghost so_far = res@;
        let next = ProjectivePoint::from_bytes(rest);
        proof {
            assert forall|points: Seq<int>|
                points.len() == n && all_reduced(points) && #[trigger] points_encoding(
                    points,
                ).is_prefix_of(bytes@) implies next is Ok && next->Ok_0@ == points[i as int]
                && points_encoding(points.take(i + 1)).len() == 48 * (i + 1) by {
                lemma_points_encoding_prefix(points, i + 1);
                let (k, first) = (points[i as int], points.take(i as int));
                assert(points.take(i + 1).drop_last() =~= first);
                let upto = points_encoding(points.take(i + 1));
                assert(upto =~= points_encoding(first) + point_encoding(k));
                assert(upto =~= bytes@.take(upto.len() as int));
                assert(point_encoding(k) =~= upto.skip(48 * i));
                assert(is_reduced(k));
                assert(point_encoding(k).is_prefix_of(rest@));
            }
        }
        match next {
            Ok(point) => {
                res.push(point);
                proof {
                    assert(projective_values(res@) =~= projective_values(so_far).push(point@));
                    assert forall|points: Seq<int>|
                        points.len() == n && all_reduced(points) && #[trigger] points_encoding(
                            points,
                        ).is_prefix_of(bytes@) implies projective_values(res@) == points.take(
                        i + 1,
                    ) by {
                        assert(points.take(i + 1) =~= points.take(i as int).push(points[i as int]));
                    }
                }
            },
            Err(e) => {
                proof {
                    lemma_points_decoding_error(bytes@, (i + 1) as nat, n as nat);
                }
                return Err(e);
            },
        }
        i += 1;
    }
    proof {
        assert forall|points: Seq<int>|
            points.len() == n && all_reduced(points) && #[trigger] points_encoding(
                points,
            ).is_prefix_of(bytes@) implies points_encoding(points).len() == 48 * n
            && projective_values(res@) == points by {
            assert(points.take(n as int) =~= points);
        }
    }
    Ok(res)
}

/// Each entry of a shuffled vector comes from the one entry that the permutation names.
pub proof fn lemma_shuffle_moves_entries(
    v: Seq<int>,
    permutation: Seq<u32>,
    k: int,
    j: int,
    x: int,
    i: int,
)
    requires
        0 <= j < v.len(),
        0 <= i < permutation.len(),
        permutation[i] < v.len(),
    ensures
        shuffled(v, permutation, k).len() == permutation.len(),
        permutation[i] == j ==> shuffled(v.update(j, x), permutation, k)[i] == residue(x * k),
        permutation[i] != j ==> shuffled(v.update(j, x), permutation, k)[i] == shuffled(
            v,
            permutation,
            k,
        )[i],
{
}

/// A permutation whose entries are all 0 leaves only the blinders to commit to.
pub proof fn lemma_commitment_of_zeros(G: Seq<int>, H: Seq<int>, n: nat, blinders: Seq<int>)
    ensures
        permutation_commitment(G, H, Seq::new(n, |i: int| 0u32), blinders) == dot(H, blinders),
{
    let zeros = Seq::new(n, |i: int| 0u32);
    let values = Seq::new(zeros.len(), |i: int| zeros[i] as int);
    lemma_product_sum_zeros(G, values);
    lemma_residue_of_reduced(0);
    lemma_residue_twice(product_sum(H, blinders));
}

/// Changing one entry of a permutation changes the commitment by the change, times the base that
/// belongs to the entry.
pub proof fn lemma_commitment_changes_with_permutation(
    G: Seq<int>,
    H: Seq<int>,
    permutation: Seq<u32>,
    blinders: Seq<int>,
    i: int,
    b: u32,
)
    requires
        0 <= i < permutation.len(),
        i < G.len(),
    ensures
        permutation_commitment(G, H, permutation.update(i, b), blinders) == residue(
            permutation_commitment(G, H, permutation, blinders) + (b - permutation[i]) * G[i],
        ),
{
    let values = Seq::new(permutation.len(), |j: int| permutation[j] as int);
    let other = permutation.update(i, b);
    let changed = Seq::new(other.len(), |j: int| other[j] as int);
    assert(changed =~= values.update(i, b as int));
    lemma_product_sum_update(G, values, i, b as int);
    let (s, h) = (product_sum(G, values), dot(H, blinders));
    let change = (b - permutation[i]) * G[i];
    lemma_residue_add(s + change, h);
    lemma_residue_add(s, h);
    lemma_residue_add(s + h, change);
}

/// Changing one blinder changes the commitment by the change, times the base that belongs to it.
pub proof fn lemma_commitment_changes_with_blinders(
    G: Seq<int>,
    H: Seq<int>,
    permutation: Seq<u32>,
    blinders: Seq<int>,
    i: int,
    b: int,
)
    requires
        0 <= i < blinders.len(),
        i < H.len(),
    ensures
        permutation_commitment(G, H, permutation, blinders.update(i, b)) == residue(
            permutation_commitment(G, H, permutation, blinders) + (b - blinders[i]) * H[i],
        ),
{
    lemma_product_sum_update(H, blinders, i, b);
    let g = dot(G, Seq::new(permutation.len(), |j: int| permutation[j] as int));
    let h = product_sum(H, blinders);
    let change = (b - blinders[i]) * H[i];
    lemma_residue_add(g, h + change);
    lemma_residue_add(g, h);
    lemma_residue_add(g + h, change);
}

} // verus!
