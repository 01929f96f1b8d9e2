//! Folding vectors of any length down to one entry.
//!
//! A vector of `n` entries keeps its first `fold_first(n)` entries, the largest power of two below
//! `n`. The entries behind them are folded, with a weight, into a stretch of equally many entries
//! in the middle of those that are kept. When `n` is itself a power of two, that adds the second
//! half to the first half.
use vstd::arithmetic::div_mod::{
    lemma_div_multiples_vanish_fancy, lemma_fundamental_div_mod, lemma_fundamental_div_mod_converse,
    lemma_mod_bound,
};
use vstd::arithmetic::power2::{
    lemma2_to64, lemma_pow2_adds, lemma_pow2_pos, lemma_pow2_unfold, pow2,
};
use vstd::prelude::*;

use crate::algebra::{lemma_congruent_sub, lemma_residue_add, lemma_residue_twice, residue};
use crate::point::{affine_add, affine_mul, affine_values, AffinePoint};
use crate::scalar::{scalar_add, scalar_mul, scalar_values, Scalar};

verus! {

/// The least `k` with `n <= 2^k`: the number of times that a vector of `n` entries is folded before
/// one entry is left.
pub open spec fn ceil_log2(n: nat) -> nat
    decreases n,
{
    if n <= 1 {
        0
    } else {
        1 + ceil_log2((n + 1) / 2)
    }
}

/// The number of entries that are left after folding `n` entries.
pub open spec fn fold_first(n: nat) -> nat {
    if n <= 1 {
        0
    } else {
        pow2((ceil_log2(n) - 1) as nat)
    }
}

/// The number of entries that are folded into others.
pub open spec fn fold_count(n: nat) -> nat {
    (n - fold_first(n)) as nat
}

/// The index of the first entry that another one is folded into.
pub open spec fn fold_start(n: nat) -> nat {
    ((fold_first(n) - fold_count(n)) / 2) as nat
}

/// The entries that others are folded into.
pub open spec fn left(v: Seq<int>) -> Seq<int> {
    let start = fold_start(v.len()) as int;
    v.subrange(start, start + fold_count(v.len()))
}

/// The entries that are folded into others.
pub open spec fn right(v: Seq<int>) -> Seq<int> {
    v.subrange(fold_first(v.len()) as int, v.len() as int)
}

/// The vector `v` folded with weight `w`.
pub open spec fn fold(v: Seq<int>, w: int) -> Seq<int> {
    let first = fold_first(v.len());
    let start = fold_start(v.len());
    let count = fold_count(v.len());
    Seq::new(
        first,
        |i: int|
            if start <= i < start + count {
                residue(v[i] + w * v[first + i - start])
            } else {
                v[i]
            },
    )
}

/// The rounds in which the entry that stands at `k` in a vector of `n` entries is folded into
/// another one, when the vector is folded from round `round` up to round `rounds`. An entry that is
/// folded into another one moves to that one's place.
pub open spec fn folded_rounds(n: nat, k: int, round: nat, rounds: nat) -> Seq<usize>
    decreases rounds - round,
{
    if round >= rounds {
        seq![]
    } else if k >= fold_first(n) {
        seq![round as usize] + folded_rounds(
            fold_first(n),
            k - fold_first(n) + fold_start(n),
            round + 1,
            rounds,
        )
    } else {
        folded_rounds(fold_first(n), k, round + 1, rounds)
    }
}

/// A power of two below `n` that is at least half of `n` has the exponent `ceil_log2(n) - 1`.
pub proof fn lemma_ceil_log2_unique(n: nat, k: nat)
    requires
        pow2(k) < n <= 2 * pow2(k),
    ensures
        ceil_log2(n) == k + 1,
    decreases n,
{
    lemma_pow2_pos(k);
    lemma2_to64();
    if k == 0 {
        reveal_with_fuel(ceil_log2, 2);
    } else {
        lemma_pow2_unfold(k);
        lemma_ceil_log2_unique((n + 1) / 2, (k - 1) as nat);
    }
}

/// `ceil_log2(n)` is the least exponent of a power of two that is at least `n`.
pub proof fn lemma_ceil_log2(n: nat)
    requires
        n >= 2,
    ensures
        ceil_log2(n) >= 1,
        pow2((ceil_log2(n) - 1) as nat) < n <= 2 * pow2((ceil_log2(n) - 1) as nat),
    decreases n,
{
    lemma2_to64();
    reveal_with_fuel(ceil_log2, 2);
    if n > 2 {
        lemma_ceil_log2((n + 1) / 2);
        lemma_pow2_unfold((ceil_log2(n) - 1) as nat);
    }
}

/// The parts that a vector is folded by lie inside it, and folding takes one step off `ceil_log2`.
pub proof fn lemma_fold_shape(n: nat)
    requires
        n >= 2,
    ensures
        1 <= fold_first(n) < n <= 2 * fold_first(n),
        1 <= fold_count(n) <= fold_first(n),
        fold_start(n) + fold_count(n) <= fold_first(n),
        fold_first(n) + fold_count(n) == n,
        ceil_log2(n) == ceil_log2(fold_first(n)) + 1,
{
    lemma_ceil_log2(n);
    let k = (ceil_log2(n) - 1) as nat;
    lemma_pow2_pos(k);
    if k == 0 {
        lemma2_to64();
    } else {
        lemma_pow2_unfold(k);
        lemma_pow2_pos((k - 1) as nat);
        lemma_ceil_log2_unique(pow2(k), (k - 1) as nat);
    }
}

/// The rounds in which an entry is folded are listed in order, and lie between the first round and
/// the last one.
pub proof fn lemma_folded_rounds_in_order(n: nat, k: int, round: nat, rounds: nat)
    requires
        rounds <= usize::MAX,
    ensures
        forall|i: int|
            0 <= i < folded_rounds(n, k, round, rounds).len() ==> round <= #[trigger] folded_rounds(
                n,
                k,
                round,
                rounds,
            )[i] < rounds,
        forall|i: int, j: int|
            0 <= i < j < folded_rounds(n, k, round, rounds).len() ==> folded_rounds(
                n,
                k,
                round,
                rounds,
            )[i] < folded_rounds(n, k, round, rounds)[j],
    decreases rounds - round,
{
    if round < rounds {
        let next = if k >= fold_first(n) {
            k - fold_first(n) + fold_start(n)
        } else {
            k
        };
        lemma_folded_rounds_in_order(fold_first(n), next, round + 1, rounds);
        let rest = folded_rounds(fold_first(n), next, round + 1, rounds);
        if k >= fold_first(n) {
            assert forall|i: int| 0 <= i <= rest.len() implies #[trigger] folded_rounds(
                n,
                k,
                round,
                rounds,
            )[i] == (if i == 0 {
                round as usize
            } else {
                rest[i - 1]
            }) by {}
        }
    }
}

/// Folding `2^m` entries adds the second half to the first half.
proof fn lemma_fold_shape_of_power(m: nat)
    requires
        m >= 1,
    ensures
        fold_first(pow2(m)) == fold_count(pow2(m)) == pow2((m - 1) as nat),
        fold_start(pow2(m)) == 0,
        pow2(m) >= 2,
{
    lemma_pow2_unfold(m);
    lemma_pow2_pos((m - 1) as nat);
    lemma_ceil_log2_unique(pow2(m), (m - 1) as nat);
}

/// Taking an even multiple of `d` off does not change the last binary digit of a quotient by `d`.
proof fn lemma_digit_unchanged(k: int, d: int, a: int)
    requires
        d > 0,
    ensures
        ((k - d * (2 * a)) / d) % 2 == (k / d) % 2,
{
    let r = k % d;
    let q = k / d;
    lemma_fundamental_div_mod(k, d);
    assert(k - d * (2 * a) == d * (q - 2 * a) + r) by (nonlinear_arith)
        requires
            k == d * q + r,
    ;
    lemma_mod_bound(k, d);
    lemma_div_multiples_vanish_fancy(q - 2 * a, r, d);
}

/// Among `2^(rounds - round)` entries, the one at `k` is folded in the rounds that belong to the
/// digits 1 of `k` in binary, of which the first round has the highest.
pub proof fn lemma_folded_rounds_binary(k: int, round: nat, rounds: nat, j: nat)
    requires
        round <= j < rounds <= usize::MAX,
        0 <= k < pow2((rounds - round) as nat),
    ensures
        folded_rounds(pow2((rounds - round) as nat), k, round, rounds).contains(j as usize) <==> (k
            / pow2((rounds - 1 - j) as nat) as int) % 2 == 1,
    decreases rounds - round,
{
    let m = (rounds - round) as nat;
    let n = pow2(m);
    let half = pow2((m - 1) as nat) as int;
    lemma_fold_shape_of_power(m);
    lemma_pow2_unfold(m);
    lemma_pow2_pos((m - 1) as nat);
    let next = if k >= half {
        k - half
    } else {
        k
    };
    let all = folded_rounds(n, k, round, rounds);
    let rest = folded_rounds(half as nat, next, round + 1, rounds);
    lemma_folded_rounds_in_order(half as nat, next, round + 1, rounds);
    if k >= half {
        assert(all =~= seq![round as usize] + rest);
        assert(all[0] == round as usize);
    } else {
        assert(all =~= rest);
    }
    if j == round {
        if k >= half {
            lemma_fundamental_div_mod_converse(k, half, 1, k - half);
        } else {
            lemma_fundamental_div_mod_converse(k, half, 0, k);
            assert(half * 0 == 0);
        }
    } else {
        lemma_folded_rounds_binary(next, round + 1, rounds, j);
        let e = (rounds - 1 - j) as nat;
        let d = pow2(e) as int;
        lemma_pow2_pos(e);
        if k >= half {
            let f = (m - 1 - e) as nat;
            lemma_pow2_adds(e, f);
            lemma_pow2_unfold(f);
            lemma_digit_unchanged(k, d, pow2((f - 1) as nat) as int);
            assert forall|i: int| 0 <= i < rest.len() implies #[trigger] rest[i] == all[i + 1] by {}
            if rest.contains(j as usize) {
                let i = choose|i: int| 0 <= i < rest.len() && rest[i] == j as usize;
                assert(all[i + 1] == j as usize);
            }
            if all.contains(j as usize) {
                let i = choose|i: int| 0 <= i < all.len() && all[i] == j as usize;
                assert(rest[i - 1] == j as usize);
            }
        }
    }
}

/// The number of entries that are left after folding `n` entries.
pub(crate) fn first_len(n: usize) -> (first: usize)
    requires
        n >= 2,
    ensures
        first == fold_first(n as nat),
{
    let mut first: usize = 1;
    let ghost mut k: nat = 0;
    proof {
        lemma2_to64();
    }
    while first < n - first
        invariant
            first < n,
            first == pow2(k),
        decreases n - first,
    {
        proof {
            lemma_pow2_unfold(k + 1);
            lemma_pow2_pos(k);
            k = k + 1;
        }
        first = first * 2;
    }
    proof {
        lemma_ceil_log2_unique(n as nat, k);
    }
    first
}

/// Folds a vector of scalars.
pub(crate) fn fold_scalars(v: &mut Vec<Scalar>, w: &Scalar)
    requires
        old(v)@.len() >= 2,
    ensures
        scalar_values(final(v)@) == fold(scalar_values(old(v)@), w@),
{
    let ghost values = scalar_values(v@);
    let n = v.len();
    proof {
        lemma_fold_shape(n as nat);
    }
    let first = first_len(n);
    let count = n - first;
    let start = (first - count) / 2;
    let mut i: usize = 0;
    while i < count
        invariant
            i <= count,
            v@.len() == n,
            first + count == n,
            start + count <= first,
            values.len() == n,
            forall|k: int|
                0 <= k < n ==> (#[trigger] v@[k])@ == (if start <= k < start + i {
                    residue(values[k] + w@ * values[first + k - start])
                } else {
                    values[k]
                }),
        decreases count - i,
    {
        let folded = scalar_add(&v[start + i], &scalar_mul(w, &v[first + i]));
        proof {
            lemma_residue_add(values[start + i], w@ * values[first + i]);
        }
        v[start + i] = folded;
        i += 1;
    }
    v.truncate(first);
    assert(scalar_values(v@) =~= fold(values, w@));
}

/// Folds a vector of points.
pub(crate) fn fold_points(v: &mut Vec<AffinePoint>, w: &Scalar)
    requires
        old(v)@.len() >= 2,
    ensures
        affine_values(final(v)@) == fold(affine_values(old(v)@), w@),
{
    let ghost values = affine_values(v@);
    let n = v.len();
    proof {
        lemma_fold_shape(n as nat);
    }
    let first = first_len(n);
    let count = n - first;
    let start = (first - count) / 2;
    let mut i: usize = 0;
    while i < count
        invariant
            i <= count,
            v@.len() == n,
            first + count == n,
            start + count <= first,
            values.len() == n,
            forall|k: int|
                0 <= k < n ==> (#[trigger] v@[k])@ == (if start <= k < start + i {
                    residue(values[k] + w@ * values[first + k - start])
                } else {
                    values[k]
                }),
        decreases count - i,
    {
        let folded = affine_add(&v[start + i], &affine_mul(&v[first + i], w)).to_affine();
        proof {
            lemma_residue_add(values[start + i], values[first + i] * w@);
            assert(values[first + i] * w@ == w@ * values[first + i]) by (nonlinear_arith);
        }
        v[start + i] = folded;
        i += 1;
    }
    v.truncate(first);
    assert(affine_values(v@) =~= fold(values, w@));
}

/// The entries that others are folded into stand in the middle of those that are kept: as many come
/// before them as after them, or one less.
pub proof fn lemma_fold_in_the_middle(n: nat)
    requires
        n >= 2,
    ensures
        ({
            let before = fold_start(n) as int;
            let behind = fold_first(n) - fold_start(n) - fold_count(n);
            before <= behind <= before + 1
        }),
        fold_first(n) + fold_count(n) == n,
        exists|k: nat| fold_first(n) == #[trigger] pow2(k),
        fold_first(n) < n <= 2 * fold_first(n),
{
    lemma_fold_shape(n);
    assert(fold_first(n) == pow2((ceil_log2(n) - 1) as nat));
}

/// An entry that is folded goes on in the place of the one that it is folded into, and the entries
/// that are kept go on as those of the shorter vector. Without rounds nothing is folded.
pub proof fn lemma_folded_rounds_follow(n: nat, round: nat, rounds: nat, i: int, k: int)
    requires
        n >= 2,
        round < rounds,
        0 <= i < fold_count(n),
        0 <= k < fold_first(n),
    ensures
        folded_rounds(n, fold_first(n) + i, round, rounds) == seq![round as usize] + folded_rounds(
            n,
            fold_start(n) + i,
            round,
            rounds,
        ),
        folded_rounds(n, k, round, rounds) == folded_rounds(fold_first(n), k, round + 1, rounds),
        folded_rounds(n, k, rounds, rounds) == Seq::<usize>::empty(),
{
    lemma_fold_shape(n);
}

/// Folding keeps the entries outside the middle, and adds to those in the middle the entries
/// behind, multiplied by the weight.
pub proof fn lemma_fold_entries(v: Seq<int>, w: int, i: int)
    requires
        v.len() >= 2,
        0 <= i < fold_first(v.len()),
    ensures
        fold(v, w).len() == fold_first(v.len()),
        i < fold_start(v.len()) ==> fold(v, w)[i] == v[i],
        i >= fold_start(v.len()) + fold_count(v.len()) ==> fold(v, w)[i] == v[i],
        fold_start(v.len()) <= i < fold_start(v.len()) + fold_count(v.len()) ==> residue(
            fold(v, w)[i] - v[i],
        ) == residue(w * v[fold_first(v.len()) + i - fold_start(v.len())]),
{
    let j = fold_first(v.len()) + i - fold_start(v.len());
    lemma_residue_twice(v[i] + w * v[j]);
    lemma_congruent_sub(residue(v[i] + w * v[j]), v[i] + w * v[j], v[i], v[i]);
}

} // verus!
