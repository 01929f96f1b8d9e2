//! Arithmetic modulo the group order: residues, inverses and sums of products.
use vstd::arithmetic::div_mod::{
    lemma_add_mod_noop, lemma_mod_bound, lemma_mod_twice, lemma_mul_mod_noop,
    lemma_mul_mod_noop_left, lemma_mul_mod_noop_right, lemma_small_mod,
};
use vstd::arithmetic::mul::lemma_mul_is_commutative;
use vstd::prelude::*;

verus! {

/// The order of the group, which is also the modulus of the scalar field.
pub open spec fn group_order() -> int {
    0x73eda753299d7d483339d80809a1d80553bda402fffe5bfeffffffff00000001int
}

/// The residue of `x` modulo the group order.
#[verifier::opaque]
pub open spec fn residue(x: int) -> int {
    x % group_order()
}

/// `x` is the least representative of its residue class.
pub open spec fn is_reduced(x: int) -> bool {
    0 <= x < group_order()
}

/// Every entry of `v` is reduced.
pub open spec fn all_reduced(v: Seq<int>) -> bool {
    forall|i: int| 0 <= i < v.len() ==> is_reduced(#[trigger] v[i])
}

/// `y` is the reduced multiplicative inverse of `x`.
pub open spec fn is_inverse(x: int, y: int) -> bool {
    is_reduced(y) && residue(x * y) == 1
}

/// The reduced multiplicative inverse of `x`, and 0 where there is none.
pub open spec fn inverse(x: int) -> int {
    if exists|y: int| is_inverse(x, y) {
        choose|y: int| is_inverse(x, y)
    } else {
        0
    }
}

/// The inverses of the entries of `v`.
pub open spec fn inverses(v: Seq<int>) -> Seq<int> {
    Seq::new(v.len(), |i: int| inverse(v[i]))
}

/// The sum of the products of corresponding entries, over the length of the shorter sequence.
pub open spec fn product_sum(a: Seq<int>, b: Seq<int>) -> int
    decreases a.len(),
{
    if a.len() == 0 || b.len() == 0 {
        0
    } else {
        a[0] * b[0] + product_sum(a.drop_first(), b.drop_first())
    }
}

/// The inner product of two sequences, as a residue.
pub open spec fn dot(a: Seq<int>, b: Seq<int>) -> int {
    residue(product_sum(a, b))
}

/// The sum of the entries of `v`.
pub open spec fn total(v: Seq<int>) -> int
    decreases v.len(),
{
    if v.len() == 0 {
        0
    } else {
        total(v.drop_last()) + v.last()
    }
}

/// The integer whose little-endian 64-bit digits are `limbs`.
pub open spec fn limbs_value(limbs: Seq<u64>) -> int
    decreases limbs.len(),
{
    if limbs.len() == 0 {
        0
    } else {
        limbs[0] + 0x1_0000_0000_0000_0000 * limbs_value(limbs.drop_first())
    }
}

/// The integer whose little-endian bytes are `bytes`.
pub open spec fn bytes_value(bytes: Seq<u8>) -> int
    decreases bytes.len(),
{
    if bytes.len() == 0 {
        0
    } else {
        bytes[0] + 256 * bytes_value(bytes.drop_first())
    }
}

/// The `n` little-endian bytes of `x`.
pub open spec fn le_bytes(x: int, n: nat) -> Seq<u8>
    decreases n,
{
    if n == 0 {
        seq![]
    } else {
        seq![(x % 256) as u8] + le_bytes(x / 256, (n - 1) as nat)
    }
}

pub proof fn lemma_residue_reduced(x: int)
    ensures
        is_reduced(residue(x)),
{
    reveal(residue);
    lemma_mod_bound(x, group_order());
}

pub proof fn lemma_residue_of_reduced(x: int)
    requires
        is_reduced(x),
    ensures
        residue(x) == x,
{
    reveal(residue);
    lemma_small_mod(x as nat, group_order() as nat);
}

pub proof fn lemma_residue_twice(x: int)
    ensures
        residue(residue(x)) == residue(x),
{
    reveal(residue);
    lemma_mod_twice(x, group_order());
}

pub proof fn lemma_dot_reduced(a: Seq<int>, b: Seq<int>)
    ensures
        is_reduced(dot(a, b)),
{
    lemma_residue_reduced(product_sum(a, b));
}

/// Only the residues of the terms decide the residue of a sum.
pub proof fn lemma_residue_add(x: int, y: int)
    ensures
        residue(residue(x) + residue(y)) == residue(x + y),
        residue(residue(x) + y) == residue(x + y),
        residue(x + residue(y)) == residue(x + y),
{
    reveal(residue);
    lemma_add_mod_noop(x, y, group_order());
    lemma_add_mod_noop(residue(x), y, group_order());
    lemma_add_mod_noop(x, residue(y), group_order());
    lemma_mod_twice(x, group_order());
    lemma_mod_twice(y, group_order());
}

/// Only the residues of the factors decide the residue of a product.
pub proof fn lemma_residue_mul(x: int, y: int)
    ensures
        residue(residue(x) * residue(y)) == residue(x * y),
        residue(residue(x) * y) == residue(x * y),
        residue(x * residue(y)) == residue(x * y),
{
    reveal(residue);
    lemma_mul_mod_noop(x, y, group_order());
    lemma_mul_mod_noop_left(x, y, group_order());
    lemma_mul_mod_noop_right(x, y, group_order());
}

/// Congruent terms have congruent sums.
pub proof fn lemma_congruent_add(x: int, x1: int, y: int, y1: int)
    requires
        residue(x) == residue(x1),
        residue(y) == residue(y1),
    ensures
        residue(x + y) == residue(x1 + y1),
{
    lemma_residue_add(x, y);
    lemma_residue_add(x1, y1);
}

/// Congruent factors have congruent products.
pub proof fn lemma_congruent_mul(x: int, x1: int, y: int, y1: int)
    requires
        residue(x) == residue(x1),
        residue(y) == residue(y1),
    ensures
        residue(x * y) == residue(x1 * y1),
{
    lemma_residue_mul(x, y);
    lemma_residue_mul(x1, y1);
}

/// Congruent numbers differ by a congruent amount from congruent numbers.
pub proof fn lemma_congruent_sub(x: int, x1: int, y: int, y1: int)
    requires
        residue(x) == residue(x1),
        residue(y) == residue(y1),
    ensures
        residue(x - y) == residue(x1 - y1),
{
    lemma_congruent_mul(-1, -1, y, y1);
    assert(-1 * y == -y && -1 * y1 == -y1) by (nonlinear_arith);
    lemma_congruent_add(x, x1, -y, -y1);
}

/// A number has at most one reduced inverse.
pub proof fn lemma_inverse_unique(x: int, y: int)
    requires
        is_inverse(x, y),
    ensures
        inverse(x) == y,
{
    let z = inverse(x);
    assert(is_inverse(x, z));
    // z = z * (x * y) = (z * x) * y = y.
    lemma_residue_mul(x * y, z);
    lemma_residue_mul(x * z, y);
    assert((x * y) * z == (x * z) * y) by (nonlinear_arith);
    lemma_residue_of_reduced(y);
    lemma_residue_of_reduced(z);
}

/// 0 has no inverse.
pub proof fn lemma_inverse_of_zero()
    ensures
        inverse(0) == 0,
{
    assert forall|y: int| !is_inverse(0, y) by {
        assert(0 * y == 0);
        lemma_residue_of_reduced(0);
    }
}

/// The product of invertible numbers has the product of their inverses as inverse.
pub proof fn lemma_inverse_of_product(x: int, y: int)
    requires
        is_inverse(x, inverse(x)),
        is_inverse(y, inverse(y)),
    ensures
        inverse(residue(x * y)) == residue(inverse(x) * inverse(y)),
        is_inverse(residue(x * y), inverse(residue(x * y))),
{
    let u = inverse(x);
    let v = inverse(y);
    lemma_residue_reduced(u * v);
    lemma_residue_mul(x * y, u * v);
    lemma_residue_mul(x * u, y * v);
    assert((x * y) * (u * v) == (x * u) * (y * v)) by (nonlinear_arith);
    assert(1 * 1 == 1);
    lemma_residue_of_reduced(1);
    assert(is_inverse(residue(x * y), residue(u * v)));
    lemma_inverse_unique(residue(x * y), residue(u * v));
}

/// 1 is its own inverse.
pub proof fn lemma_inverse_of_one()
    ensures
        inverse(1) == 1,
        is_inverse(1, inverse(1)),
{
    assert(1 * 1 == 1);
    lemma_residue_of_reduced(1);
    lemma_inverse_unique(1, 1);
}

/// One more pair of entries adds their product.
pub proof fn lemma_product_sum_push(a: Seq<int>, b: Seq<int>, x: int, y: int)
    requires
        a.len() == b.len(),
    ensures
        product_sum(a.push(x), b.push(y)) == product_sum(a, b) + x * y,
    decreases a.len(),
{
    if a.len() == 0 {
        reveal_with_fuel(product_sum, 2);
    } else {
        assert(a.push(x).drop_first() =~= a.drop_first().push(x));
        assert(b.push(y).drop_first() =~= b.drop_first().push(y));
        lemma_product_sum_push(a.drop_first(), b.drop_first(), x, y);
    }
}

/// The sum over a concatenation is the sum of the sums over the parts.
pub proof fn lemma_product_sum_concat(a: Seq<int>, b: Seq<int>, c: Seq<int>, d: Seq<int>)
    requires
        a.len() == b.len(),
    ensures
        product_sum(a + c, b + d) == product_sum(a, b) + product_sum(c, d),
    decreases a.len(),
{
    if a.len() == 0 {
        assert(a + c =~= c);
        assert(b + d =~= d);
    } else {
        assert((a + c).drop_first() =~= a.drop_first() + c);
        assert((b + d).drop_first() =~= b.drop_first() + d);
        lemma_product_sum_concat(a.drop_first(), b.drop_first(), c, d);
    }
}

/// The order of the factors does not matter.
pub proof fn lemma_product_sum_commutes(a: Seq<int>, b: Seq<int>)
    ensures
        product_sum(a, b) == product_sum(b, a),
    decreases a.len(),
{
    if a.len() != 0 && b.len() != 0 {
        lemma_product_sum_commutes(a.drop_first(), b.drop_first());
        lemma_mul_is_commutative(a[0], b[0]);
    }
}

/// Sums whose products are congruent one by one are congruent.
pub proof fn lemma_product_sum_congruent(a: Seq<int>, b: Seq<int>, c: Seq<int>, d: Seq<int>)
    requires
        a.len() == b.len() == c.len() == d.len(),
        forall|i: int| 0 <= i < a.len() ==> residue(#[trigger] a[i] * b[i]) == residue(c[i] * d[i]),
    ensures
        dot(a, b) == dot(c, d),
    decreases a.len(),
{
    if a.len() != 0 {
        let (a1, b1, c1, d1) = (a.drop_first(), b.drop_first(), c.drop_first(), d.drop_first());
        assert forall|i: int| 0 <= i < a1.len() implies residue(#[trigger] a1[i] * b1[i])
            == residue(c1[i] * d1[i]) by {
            assert(a1[i] == a[i + 1]);
        }
        lemma_product_sum_congruent(a1, b1, c1, d1);
        assert(residue(a[0] * b[0]) == residue(c[0] * d[0]));
        lemma_congruent_add(a[0] * b[0], c[0] * d[0], product_sum(a1, b1), product_sum(c1, d1));
    }
}

/// A common factor of the entries comes out of the sum.
pub proof fn lemma_product_sum_scaled(a: Seq<int>, b: Seq<int>, k: int)
    ensures
        product_sum(a.map_values(|x: int| k * x), b) == k * product_sum(a, b),
    decreases a.len(),
{
    let ka = a.map_values(|x: int| k * x);
    if a.len() != 0 && b.len() != 0 {
        assert(ka.drop_first() =~= a.drop_first().map_values(|x: int| k * x));
        lemma_product_sum_scaled(a.drop_first(), b.drop_first(), k);
        let rest = product_sum(a.drop_first(), b.drop_first());
        assert((k * a[0]) * b[0] + k * rest == k * (a[0] * b[0] + rest)) by (nonlinear_arith);
    } else {
        assert(k * 0 == 0);
    }
}

/// Only entries that have a partner count.
pub proof fn lemma_product_sum_take(a: Seq<int>, b: Seq<int>, n: int)
    requires
        0 <= n <= a.len(),
        n <= b.len(),
        n == a.len() || n == b.len(),
    ensures
        product_sum(a.take(n), b.take(n)) == product_sum(a, b),
{
    let (a1, b1) = (a.take(n), b.take(n));
    assert(a =~= a1 + a.skip(n));
    assert(b =~= b1 + b.skip(n));
    lemma_product_sum_concat(a1, b1, a.skip(n), b.skip(n));
}

/// The inner product of a vector that was multiplied by `k`.
pub proof fn lemma_scaled_dot(k: int, s: Seq<int>, ks: Seq<int>, b: Seq<int>)
    requires
        s.len() == b.len(),
        ks == Seq::new(s.len(), |i: int| residue(k * s[i])),
    ensures
        dot(ks, b) == residue(k * product_sum(s, b)),
{
    let exact = s.map_values(|x: int| k * x);
    assert forall|i: int| 0 <= i < ks.len() implies residue(#[trigger] ks[i] * b[i]) == residue(
        exact[i] * b[i],
    ) by {
        lemma_residue_mul(k * s[i], b[i]);
    }
    lemma_product_sum_congruent(ks, b, exact, b);
    lemma_product_sum_scaled(s, b, k);
}

/// Little-endian bytes have the value that they were made of.
pub proof fn lemma_le_bytes_value(x: int, n: nat)
    requires
        0 <= x,
    ensures
        le_bytes(x, n).len() == n,
        0 <= bytes_value(le_bytes(x, n)) <= x,
        x < vstd::arithmetic::power::pow(256, n) ==> bytes_value(le_bytes(x, n)) == x,
    decreases n,
{
    vstd::arithmetic::power::lemma_pow0(256);
    if n != 0 {
        let m = (n - 1) as nat;
        lemma_le_bytes_value(x / 256, m);
        assert(le_bytes(x, n).drop_first() =~= le_bytes(x / 256, m));
        reveal(vstd::arithmetic::power::pow);
    }
}

/// Changing one entry of a vector changes the sum by the change, times the entry that it meets.
pub proof fn lemma_product_sum_update(a: Seq<int>, b: Seq<int>, i: int, x: int)
    requires
        0 <= i < b.len(),
        i < a.len(),
    ensures
        product_sum(a, b.update(i, x)) == product_sum(a, b) + (x - b[i]) * a[i],
    decreases a.len(),
{
    let (a1, b1) = (a.drop_first(), b.drop_first());
    if i == 0 {
        assert(b.update(0, x).drop_first() =~= b1);
        assert(a[0] * x == a[0] * b[0] + (x - b[0]) * a[0]) by (nonlinear_arith);
    } else {
        assert(b.update(i, x).drop_first() =~= b1.update(i - 1, x));
        lemma_product_sum_update(a1, b1, i - 1, x);
    }
}

/// A sum with zeros vanishes.
pub proof fn lemma_product_sum_zeros(a: Seq<int>, b: Seq<int>)
    requires
        forall|i: int| 0 <= i < b.len() ==> #[trigger] b[i] == 0,
    ensures
        product_sum(a, b) == 0,
    decreases a.len(),
{
    if a.len() != 0 && b.len() != 0 {
        let b1 = b.drop_first();
        assert forall|i: int| 0 <= i < b1.len() implies #[trigger] b1[i] == 0 by {
            assert(b1[i] == b[i + 1]);
        }
        lemma_product_sum_zeros(a.drop_first(), b1);
        assert(b[0] == 0);
        assert(a[0] * 0 == 0) by (nonlinear_arith);
    }
}

/// The differences of corresponding entries.
pub open spec fn differences(a: Seq<int>, b: Seq<int>) -> Seq<int> {
    Seq::new(a.len(), |i: int| a[i] - b[i])
}

/// The sum over the differences is the difference of the sums.
pub proof fn lemma_product_sum_differences(a: Seq<int>, b: Seq<int>, w: Seq<int>)
    requires
        a.len() == b.len(),
    ensures
        product_sum(differences(a, b), w) == product_sum(a, w) - product_sum(b, w),
    decreases a.len(),
{
    if a.len() != 0 && w.len() != 0 {
        let (a1, b1, w1) = (a.drop_first(), b.drop_first(), w.drop_first());
        assert(differences(a, b).drop_first() =~= differences(a1, b1));
        lemma_product_sum_differences(a1, b1, w1);
        assert((a[0] - b[0]) * w[0] == a[0] * w[0] - b[0] * w[0]) by (nonlinear_arith);
    }
}

/// The sum of one entry is the entry, and the sum over a concatenation is the sum of the sums.
pub proof fn lemma_total_concat(a: Seq<int>, b: Seq<int>, x: int)
    ensures
        total(Seq::empty()) == 0,
        total(seq![x]) == x,
        total(a + b) == total(a) + total(b),
    decreases b.len(),
{
    reveal_with_fuel(total, 2);
    assert(seq![x].drop_last() =~= Seq::<int>::empty());
    if b.len() == 0 {
        assert(a + b =~= a);
    } else {
        assert((a + b).drop_last() =~= a + b.drop_last());
        lemma_total_concat(a, b.drop_last(), x);
    }
}

/// The inverses of the entries, where there are any: each entry times its inverse is 1.
pub proof fn lemma_inverses(v: Seq<int>, i: int)
    requires
        0 <= i < v.len(),
    ensures
        inverses(v).len() == v.len(),
        (exists|y: int| is_inverse(v[i], y)) ==> residue(v[i] * inverses(v)[i]) == 1,
        (forall|y: int| !is_inverse(v[i], y)) ==> inverses(v)[i] == 0,
{
}

} // verus!
