//! Proofs and points as bytes.
#![allow(non_snake_case)]
use vstd::arithmetic::power::{lemma_pow_adds, pow};
use vstd::prelude::*;

use crate::algebra::{all_reduced, group_order, is_reduced, le_bytes, lemma_le_bytes_value};
use crate::errors::SerializationError;
use crate::point::{point_decoding, point_encoding};
use crate::protocol::{sent_L_C, sent_L_D, sent_R_C, sent_R_D, ProofModel, RoundModel};
use crate::scalar::scalar_decoding;

verus! {

/// The compressed encodings of points, one after the other.
pub open spec fn points_encoding(points: Seq<int>) -> Seq<u8>
    decreases points.len(),
{
    if points.len() == 0 {
        seq![]
    } else {
        points_encoding(points.drop_last()) + point_encoding(points.last())
    }
}

/// What reading `n` compressed points from the front of `bytes` gives: the points, or why the first
/// one that could not be read could not.
pub open spec fn points_decoding(bytes: Seq<u8>, n: nat) -> Result<Seq<int>, SerializationError>
    decreases n,
{
    if n == 0 {
        Ok(seq![])
    } else {
        match points_decoding(bytes, (n - 1) as nat) {
            Err(e) => Err(e),
            Ok(points) => match point_decoding(bytes.skip(48 * (n - 1))) {
                Err(e) => Err(e),
                Ok(point) => Ok(points.push(point)),
            },
        }
    }
}

/// A proof as bytes: the blinder commitments, what was sent in the rounds, and what was left.
pub open spec fn proof_encoding(p: ProofModel) -> Seq<u8> {
    point_encoding(p.B_c) + point_encoding(p.B_d) + points_encoding(sent_L_C(p.rounds))
        + points_encoding(sent_R_C(p.rounds)) + points_encoding(sent_L_D(p.rounds))
        + points_encoding(sent_R_D(p.rounds)) + le_bytes(p.c_final, 32) + le_bytes(p.d_final, 32)
}

/// The rounds in which these points were sent.
pub open spec fn rounds_sending(
    L_C: Seq<int>,
    R_C: Seq<int>,
    L_D: Seq<int>,
    R_D: Seq<int>,
) -> Seq<RoundModel> {
    Seq::new(
        L_C.len(),
        |i: int| RoundModel { L_C: L_C[i], L_D: L_D[i], R_C: R_C[i], R_D: R_D[i] },
    )
}

/// What reading a proof of `n` rounds from the front of `bytes` gives: the proof, or why the first
/// part that could not be read could not.
pub open spec fn proof_decoding(bytes: Seq<u8>, n: nat) -> Result<ProofModel, SerializationError> {
    let size = 48 * (n as int);
    match (point_decoding(bytes), point_decoding(bytes.skip(48))) {
        (Err(e), _) => Err(e),
        (Ok(_), Err(e)) => Err(e),
        (Ok(B_c), Ok(B_d)) => match (
            points_decoding(bytes.skip(96), n),
            points_decoding(bytes.skip(96 + size), n),
            points_decoding(bytes.skip(96 + 2 * size), n),
            points_decoding(bytes.skip(96 + 3 * size), n),
        ) {
            (Err(e), _, _, _) => Err(e),
            (Ok(_), Err(e), _, _) => Err(e),
            (Ok(_), Ok(_), Err(e), _) => Err(e),
            (Ok(_), Ok(_), Ok(_), Err(e)) => Err(e),
            (Ok(L_C), Ok(R_C), Ok(L_D), Ok(R_D)) => match (
                scalar_decoding(bytes.skip(96 + 4 * size)),
                scalar_decoding(bytes.skip(128 + 4 * size)),
            ) {
                (Err(e), _) => Err(e),
                (Ok(_), Err(e)) => Err(e),
                (Ok(c_final), Ok(d_final)) => Ok(
                    ProofModel {
                        B_c,
                        B_d,
                        rounds: rounds_sending(L_C, R_C, L_D, R_D),
                        c_final,
                        d_final,
                    },
                ),
            },
        },
    }
}

/// An error at some point is the error of the whole.
pub proof fn lemma_points_decoding_error(bytes: Seq<u8>, i: nat, n: nat)
    requires
        i <= n,
        points_decoding(bytes, i) is Err,
    ensures
        points_decoding(bytes, n) == points_decoding(bytes, i),
    decreases n - i,
{
    if i < n {
        lemma_points_decoding_error(bytes, i, (n - 1) as nat);
    }
}

/// The encodings of the first points come first.
pub proof fn lemma_points_encoding_prefix(points: Seq<int>, i: int)
    requires
        0 <= i <= points.len(),
    ensures
        points_encoding(points.take(i)).is_prefix_of(points_encoding(points)),
    decreases points.len() - i,
{
    if i == points.len() {
        assert(points.take(i) =~= points);
    } else {
        lemma_points_encoding_prefix(points, i + 1);
        assert(points.take(i + 1).drop_last() =~= points.take(i));
    }
}

/// A proof whose numbers are reduced, as those of every [`InnerProductProof`] are.
///
/// [`InnerProductProof`]: crate::inner_product_argument::InnerProductProof
pub open spec fn reduced_proof(p: ProofModel) -> bool {
    &&& is_reduced(p.B_c)
    &&& is_reduced(p.B_d)
    &&& all_reduced(sent_L_C(p.rounds))
    &&& all_reduced(sent_R_C(p.rounds))
    &&& all_reduced(sent_L_D(p.rounds))
    &&& all_reduced(sent_R_D(p.rounds))
    &&& is_reduced(p.c_final)
    &&& is_reduced(p.d_final)
}

/// The encoding of the proof `p` of `n` rounds stands at the front of `bytes`.
pub open spec fn starts_with_proof(bytes: Seq<u8>, p: ProofModel, n: nat) -> bool {
    p.rounds.len() == n && reduced_proof(p) && proof_encoding(p).is_prefix_of(bytes)
}

/// What follows a prefix.
proof fn lemma_prefix_rest(a: Seq<u8>, b: Seq<u8>, s: Seq<u8>)
    requires
        (a + b).is_prefix_of(s),
    ensures
        a.is_prefix_of(s),
        b.is_prefix_of(s.skip(a.len() as int)),
{
    assert(a =~= (a + b).take(a.len() as int));
    assert(b =~= (a + b).skip(a.len() as int));
}

/// Where the parts of an encoded proof stand, as far as the lengths of the parts before are known.
pub proof fn lemma_encoded_parts(p: ProofModel, bytes: Seq<u8>, size: int)
    requires
        proof_encoding(p).is_prefix_of(bytes),
    ensures
        ({
            let (B_c, B_d) = (point_encoding(p.B_c), point_encoding(p.B_d));
            let L_C = points_encoding(sent_L_C(p.rounds));
            let R_C = points_encoding(sent_R_C(p.rounds));
            let L_D = points_encoding(sent_L_D(p.rounds));
            let R_D = points_encoding(sent_R_D(p.rounds));
            let c = le_bytes(p.c_final, 32);
            let d = le_bytes(p.d_final, 32);
            &&& B_c.is_prefix_of(bytes)
            &&& B_c.len() == 48 ==> {
                &&& B_d.is_prefix_of(bytes.skip(48))
                &&& B_d.len() == 48 ==> {
                    &&& L_C.is_prefix_of(bytes.skip(96))
                    &&& L_C.len() == size ==> {
                        &&& R_C.is_prefix_of(bytes.skip(96 + size))
                        &&& R_C.len() == size ==> {
                            &&& L_D.is_prefix_of(bytes.skip(96 + 2 * size))
                            &&& L_D.len() == size ==> {
                                &&& R_D.is_prefix_of(bytes.skip(96 + 3 * size))
                                &&& R_D.len() == size ==> {
                                    &&& c.is_prefix_of(bytes.skip(96 + 4 * size))
                                    &&& c.len() == 32 ==> d.is_prefix_of(
                                        bytes.skip(128 + 4 * size),
                                    )
                                }
                            }
                        }
                    }
                }
            }
        }),
{
    let (e1, e2) = (point_encoding(p.B_c), point_encoding(p.B_d));
    let e3 = points_encoding(sent_L_C(p.rounds));
    let e4 = points_encoding(sent_R_C(p.rounds));
    let e5 = points_encoding(sent_L_D(p.rounds));
    let e6 = points_encoding(sent_R_D(p.rounds));
    let e7 = le_bytes(p.c_final, 32);
    let e8 = le_bytes(p.d_final, 32);
    let t7 = e7 + e8;
    let t6 = e6 + t7;
    let t5 = e5 + t6;
    let t4 = e4 + t5;
    let t3 = e3 + t4;
    let t2 = e2 + t3;
    assert(proof_encoding(p) =~= e1 + t2);
    lemma_prefix_rest(e1, t2, bytes);
    if e1.len() == 48 {
        lemma_prefix_rest(e2, t3, bytes.skip(48));
        if e2.len() == 48 {
            assert(bytes.skip(48).skip(48) =~= bytes.skip(96));
            lemma_prefix_rest(e3, t4, bytes.skip(96));
            if e3.len() == size {
                assert(bytes.skip(96).skip(size) =~= bytes.skip(96 + size));
                lemma_prefix_rest(e4, t5, bytes.skip(96 + size));
                if e4.len() == size {
                    assert(bytes.skip(96 + size).skip(size) =~= bytes.skip(96 + 2 * size));
                    lemma_prefix_rest(e5, t6, bytes.skip(96 + 2 * size));
                    if e5.len() == size {
                        assert(bytes.skip(96 + 2 * size).skip(size) =~= bytes.skip(96 + 3 * size));
                        lemma_prefix_rest(e6, t7, bytes.skip(96 + 3 * size));
                        if e6.len() == size {
                            assert(bytes.skip(96 + 3 * size).skip(size) =~= bytes.skip(
                                96 + 4 * size,
                            ));
                            lemma_prefix_rest(e7, e8, bytes.skip(96 + 4 * size));
                            if e7.len() == 32 {
                                assert(bytes.skip(96 + 4 * size).skip(32) =~= bytes.skip(
                                    128 + 4 * size,
                                ));
                            }
                        }
                    }
                }
            }
        }
    }
}

/// 32 bytes hold every reduced number.
proof fn lemma_order_in_32_bytes()
    ensures
        group_order() < pow(256, 32),
{
    reveal(pow);
    reveal_with_fuel(pow, 5);
    assert(pow(256, 4) == 0x1_0000_0000);
    lemma_pow_adds(256, 4, 4);
    assert(0x1_0000_0000 * 0x1_0000_0000 == 0x1_0000_0000_0000_0000);
    lemma_pow_adds(256, 8, 8);
    lemma_pow_adds(256, 16, 16);
    let half = pow(256, 16);
    assert(half * half > group_order()) by (nonlinear_arith)
        requires
            half == 0x1_0000_0000_0000_0000_0000_0000_0000_0000,
    ;
}

/// Reading gives back the scalar that was written.
pub proof fn lemma_scalar_round_trip(x: int, bytes: Seq<u8>)
    requires
        is_reduced(x),
        le_bytes(x, 32).is_prefix_of(bytes),
    ensures
        le_bytes(x, 32).len() == 32,
        scalar_decoding(bytes) == Ok::<int, SerializationError>(x),
{
    lemma_order_in_32_bytes();
    lemma_le_bytes_value(x, 32);
    assert(bytes.take(32) =~= le_bytes(x, 32));
}

/// A point that was written at the front of `bytes` is read back from there.
pub open spec fn reads_back_point(bytes: Seq<u8>) -> bool {
    forall|k: int|
        is_reduced(k) && #[trigger] point_encoding(k).is_prefix_of(bytes)
            ==> point_encoding(k).len() == 48 && point_decoding(bytes) == Ok::<
            int,
            SerializationError,
        >(k)
}

/// Points that were written at the front of `bytes` are read back from there.
pub open spec fn reads_back_points(bytes: Seq<u8>, n: nat) -> bool {
    forall|points: Seq<int>|
        points.len() == n && all_reduced(points) && #[trigger] points_encoding(points).is_prefix_of(
            bytes,
        ) ==> points_encoding(points).len() == 48 * n && points_decoding(bytes, n) == Ok::<
            Seq<int>,
            SerializationError,
        >(points)
}

/// Each part of a proof of `n` rounds is read back, as far as reading gets.
pub open spec fn reads_back_parts(bytes: Seq<u8>, n: nat) -> bool {
    let size = 48 * (n as int);
    &&& reads_back_point(bytes)
    &&& point_decoding(bytes) is Ok ==> {
        &&& reads_back_point(bytes.skip(48))
        &&& point_decoding(bytes.skip(48)) is Ok ==> {
            &&& reads_back_points(bytes.skip(96), n)
            &&& points_decoding(bytes.skip(96), n) is Ok ==> {
                &&& reads_back_points(bytes.skip(96 + size), n)
                &&& points_decoding(bytes.skip(96 + size), n) is Ok ==> {
                    &&& reads_back_points(bytes.skip(96 + 2 * size), n)
                    &&& points_decoding(bytes.skip(96 + 2 * size), n) is Ok ==> reads_back_points(
                        bytes.skip(96 + 3 * size),
                        n,
                    )
                }
            }
        }
    }
}

/// A proof whose parts are read back is read back.
pub proof fn lemma_proof_read_back(bytes: Seq<u8>, p: ProofModel, n: nat)
    requires
        reads_back_parts(bytes, n),
        starts_with_proof(bytes, p, n),
    ensures
        proof_decoding(bytes, n) == Ok::<ProofModel, SerializationError>(p),
{
    let size = 48 * (n as int);
    lemma_encoded_parts(p, bytes, size);
    assert(point_decoding(bytes) == Ok::<int, SerializationError>(p.B_c));
    assert(point_decoding(bytes.skip(48)) == Ok::<int, SerializationError>(p.B_d));
    lemma_scalar_round_trip(p.c_final, bytes.skip(96 + 4 * size));
    lemma_scalar_round_trip(p.d_final, bytes.skip(128 + 4 * size));
    assert(rounds_sending(
        sent_L_C(p.rounds),
        sent_R_C(p.rounds),
        sent_L_D(p.rounds),
        sent_R_D(p.rounds),
    ) =~= p.rounds);
}

/// One point is written as its encoding, and points one list after the other.
pub proof fn lemma_points_encoding_concat(a: Seq<int>, b: Seq<int>, k: int)
    ensures
        points_encoding(Seq::empty()) == Seq::<u8>::empty(),
        points_encoding(seq![k]) == point_encoding(k),
        points_encoding(a + b) == points_encoding(a) + points_encoding(b),
    decreases b.len(),
{
    reveal_with_fuel(points_encoding, 2);
    assert(seq![k].drop_last() =~= Seq::<int>::empty());
    assert(Seq::<u8>::empty() + point_encoding(k) =~= point_encoding(k));
    if b.len() == 0 {
        assert(a + b =~= a);
        assert(points_encoding(a) + Seq::<u8>::empty() =~= points_encoding(a));
    } else {
        assert((a + b).drop_last() =~= a + b.drop_last());
        lemma_points_encoding_concat(a, b.drop_last(), k);
        assert(points_encoding(a) + points_encoding(b.drop_last()) + point_encoding(b.last())
            =~= points_encoding(a) + (points_encoding(b.drop_last()) + point_encoding(b.last())));
    }
}

/// One point is read as a point, and reading `a + b` points is reading `a` and then, behind them,
/// `b`. The first that is refused decides.
pub proof fn lemma_points_decoding_concat(bytes: Seq<u8>, a: nat, b: nat)
    ensures
        points_decoding(bytes, 0) == Ok::<Seq<int>, SerializationError>(Seq::empty()),
        match point_decoding(bytes) {
            Ok(k) => points_decoding(bytes, 1) == Ok::<Seq<int>, SerializationError>(seq![k]),
            Err(e) => points_decoding(bytes, 1) == Err::<Seq<int>, SerializationError>(e),
        },
        match (points_decoding(bytes, a), points_decoding(bytes.skip(48 * (a as int)), b)) {
            (Err(e), _) => points_decoding(bytes, a + b) == Err::<Seq<int>, SerializationError>(e),
            (Ok(_), Err(e)) => points_decoding(bytes, a + b) == Err::<
                Seq<int>,
                SerializationError,
            >(e),
            (Ok(x), Ok(y)) => points_decoding(bytes, a + b) == Ok::<Seq<int>, SerializationError>(
                x + y,
            ),
        },
    decreases b,
{
    reveal_with_fuel(points_decoding, 2);
    assert(bytes.skip(0) =~= bytes);
    assert(Seq::<int>::empty().push(point_decoding(bytes)->Ok_0) =~= seq![
        point_decoding(bytes)->Ok_0,
    ]);
    if points_decoding(bytes, a) is Err {
        lemma_points_decoding_error(bytes, a, a + b);
    } else if b == 0 {
        let x = points_decoding(bytes, a)->Ok_0;
        assert(x + Seq::<int>::empty() =~= x);
    } else {
        lemma_points_decoding_concat(bytes, a, (b - 1) as nat);
        lemma_points_decoding_len(bytes, a);
        let rest = bytes.skip(48 * (a as int));
        let x = points_decoding(bytes, a)->Ok_0;
        if points_decoding(rest, (b - 1) as nat) is Ok {
            lemma_points_decoding_len(rest, (b - 1) as nat);
            assert(rest.skip(48 * (b - 1)) =~= bytes.skip(48 * (a + b - 1)));
            let y = points_decoding(rest, (b - 1) as nat)->Ok_0;
            let k = point_decoding(rest.skip(48 * (b - 1)))->Ok_0;
            assert((x + y).push(k) =~= x + y.push(k));
        }
    }
}

/// Points that were read take 48 bytes each.
proof fn lemma_points_decoding_len(bytes: Seq<u8>, n: nat)
    requires
        points_decoding(bytes, n) is Ok,
    ensures
        points_decoding(bytes, n)->Ok_0.len() == n,
        48 * n <= bytes.len(),
    decreases n,
{
    if n != 0 {
        lemma_points_decoding_len(bytes, (n - 1) as nat);
    }
}

/// A proof is read part by part, and the first part that is refused decides.
pub proof fn lemma_first_refusal(bytes: Seq<u8>, n: nat)
    ensures
        ({
            let size = 48 * (n as int);
            let B_c = point_decoding(bytes);
            let B_d = point_decoding(bytes.skip(48));
            let L_C = points_decoding(bytes.skip(96), n);
            let R_C = points_decoding(bytes.skip(96 + size), n);
            let L_D = points_decoding(bytes.skip(96 + 2 * size), n);
            let R_D = points_decoding(bytes.skip(96 + 3 * size), n);
            let c = scalar_decoding(bytes.skip(96 + 4 * size));
            let d = scalar_decoding(bytes.skip(128 + 4 * size));
            let points = B_c is Ok && B_d is Ok && L_C is Ok && R_C is Ok && L_D is Ok && R_D is Ok;
            let res = proof_decoding(bytes, n);
            &&& res is Ok <==> points && c is Ok && d is Ok
            &&& B_c is Err ==> res is Err && res->Err_0 == B_c->Err_0
            &&& B_c is Ok && B_d is Err ==> res is Err && res->Err_0 == B_d->Err_0
            &&& B_c is Ok && B_d is Ok && L_C is Err ==> res is Err && res->Err_0 == L_C->Err_0
            &&& B_c is Ok && B_d is Ok && L_C is Ok && R_C is Err ==> res is Err && res->Err_0
                == R_C->Err_0
            &&& B_c is Ok && B_d is Ok && L_C is Ok && R_C is Ok && L_D is Err ==> res is Err
                && res->Err_0 == L_D->Err_0
            &&& B_c is Ok && B_d is Ok && L_C is Ok && R_C is Ok && L_D is Ok && R_D is Err
                ==> res is Err && res->Err_0 == R_D->Err_0
            &&& points && c is Err ==> res is Err && res->Err_0 == c->Err_0
            &&& points && c is Ok && d is Err ==> res is Err && res->Err_0 == d->Err_0
            &&& res is Ok ==> {
                let p = res->Ok_0;
                &&& p.B_c == B_c->Ok_0
                &&& p.B_d == B_d->Ok_0
                &&& p.rounds.len() == n
                &&& sent_L_C(p.rounds) == L_C->Ok_0
                &&& sent_R_C(p.rounds) == R_C->Ok_0
                &&& sent_L_D(p.rounds) == L_D->Ok_0
                &&& sent_R_D(p.rounds) == R_D->Ok_0
                &&& p.c_final == c->Ok_0
                &&& p.d_final == d->Ok_0
            }
        }),
{
    let size = 48 * (n as int);
    let res = proof_decoding(bytes, n);
    if res is Ok {
        lemma_points_decoding_len(bytes.skip(96), n);
        lemma_points_decoding_len(bytes.skip(96 + size), n);
        lemma_points_decoding_len(bytes.skip(96 + 2 * size), n);
        lemma_points_decoding_len(bytes.skip(96 + 3 * size), n);
        let rounds = res->Ok_0.rounds;
        assert(sent_L_C(rounds) =~= points_decoding(bytes.skip(96), n)->Ok_0);
        assert(sent_R_C(rounds) =~= points_decoding(bytes.skip(96 + size), n)->Ok_0);
        assert(sent_L_D(rounds) =~= points_decoding(bytes.skip(96 + 2 * size), n)->Ok_0);
        assert(sent_R_D(rounds) =~= points_decoding(bytes.skip(96 + 3 * size), n)->Ok_0);
    }
}

} // verus!
