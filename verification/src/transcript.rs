//! The Fiat-Shamir transcript: what prover and verifier absorb, and the challenges drawn from it.
use merlin::Transcript;
use vstd::prelude::*;

use crate::algebra::{bytes_value, le_bytes, residue};
use crate::point::{point_encoding, projective_values, ProjectivePoint};
use crate::scalar::{scalar_from_le_bytes_mod_order, Scalar};

verus! {

/// The transcript of a proof.
#[verifier::external_type_specification]
#[verifier::external_body]
pub struct ExTranscript(Transcript);

/// The internal state of a transcript, as bytes.
pub uninterp spec fn transcript_state(t: Transcript) -> Seq<u8>;

/// The state that a transcript in `state` has after it absorbed `message` under `label`.
pub uninterp spec fn absorbed(state: Seq<u8>, label: Seq<char>, message: Seq<u8>) -> Seq<u8>;

/// The `len` bytes that a transcript in `state` gives under `label`, and the state that it has
/// then.
pub uninterp spec fn squeezed(state: Seq<u8>, label: Seq<char>, len: nat) -> (Seq<u8>, Seq<u8>);

/// The state after appending a point: its compressed encoding is absorbed.
pub open spec fn with_point(state: Seq<u8>, label: Seq<char>, point: int) -> Seq<u8> {
    absorbed(state, label, point_encoding(point))
}

/// The state after appending points one by one.
pub open spec fn with_points(state: Seq<u8>, label: Seq<char>, points: Seq<int>) -> Seq<u8>
    decreases points.len(),
{
    if points.len() == 0 {
        state
    } else {
        with_point(with_points(state, label, points.drop_last()), label, points.last())
    }
}

/// The state after appending a scalar: its 32 little-endian bytes are absorbed.
pub open spec fn with_scalar(state: Seq<u8>, label: Seq<char>, scalar: int) -> Seq<u8> {
    absorbed(state, label, le_bytes(scalar, 32))
}

/// The challenge that a transcript in `state` gives under `label`: the residue of 64 bytes, read as
/// a little-endian integer.
pub open spec fn challenge(state: Seq<u8>, label: Seq<char>) -> int {
    residue(bytes_value(squeezed(state, label, 64).0))
}

/// The state after drawing a challenge, which is appended in turn.
pub open spec fn after_challenge(state: Seq<u8>, label: Seq<char>) -> Seq<u8> {
    with_scalar(squeezed(state, label, 64).1, label, challenge(state, label))
}

/// Appends a point.
pub fn append_point(transcript: &mut Transcript, label: &'static str, point: &ProjectivePoint)
    ensures
        transcript_state(*final(transcript)) == with_point(
            transcript_state(*old(transcript)),
            label@,
            point@,
        ),
        transcript_state(*final(transcript)) == absorbed(
            transcript_state(*old(transcript)),
            label@,
            point_encoding(point@),
        ),
{
    let bytes = point.to_bytes();
    append_message(transcript, label, &bytes);
}

/// Appends points one by one.
pub fn append_points(transcript: &mut Transcript, label: &'static str, points: &[ProjectivePoint])
    ensures
        transcript_state(*final(transcript)) == with_points(
            transcript_state(*old(transcript)),
            label@,
            projective_values(points@),
        ),
{
    let ghost start = transcript_state(*transcript);
    let ghost values = projective_values(points@);
    let mut i: usize = 0;
    assert(values.take(0) =~= seq![]);
    while i < points.len()
        invariant
            i <= points@.len(),
            values == projective_values(points@),
            transcript_state(*transcript) == with_points(start, label@, values.take(i as int)),
        decreases points@.len() - i,
    {
        append_point(transcript, label, &points[i]);
        assert(values.take(i + 1).drop_last() =~= values.take(i as int));
        i += 1;
    }
    assert(values.take(i as int) =~= values);
}

/// Appends a scalar.
pub fn append_scalar(transcript: &mut Transcript, label: &'static str, scalar: &Scalar)
    ensures
        transcript_state(*final(transcript)) == with_scalar(
            transcript_state(*old(transcript)),
            label@,
            scalar@,
        ),
        transcript_state(*final(transcript)) == absorbed(
            transcript_state(*old(transcript)),
            label@,
            le_bytes(scalar@, 32),
        ),
{
    let bytes = scalar.to_bytes();
    proof {
        crate::scalar::lemma_scalar_reduced(*scalar);
        crate::algebra::lemma_le_bytes_value(scalar@, 32);
    }
    append_message(transcript, label, &bytes);
}

/// Draws a challenge and appends it.
pub fn get_and_append_challenge(transcript: &mut Transcript, label: &'static str) -> (res: Scalar)
    ensures
        res@ == challenge(transcript_state(*old(transcript)), label@),
        transcript_state(*final(transcript)) == after_challenge(
            transcript_state(*old(transcript)),
            label@,
        ),
        ({
            let (bytes, next) = squeezed(transcript_state(*old(transcript)), label@, 64);
            &&& res@ == residue(bytes_value(bytes))
            &&& transcript_state(*final(transcript)) == absorbed(next, label@, le_bytes(res@, 32))
        }),
{
    let bytes = challenge_bytes(transcript, label, 64);
    let res = scalar_from_le_bytes_mod_order(&bytes);
    append_scalar(transcript, label, &res);
    res
}

/// `Transcript::append_message`: the new state depends on the old one, the label and the message.
/// It takes messages whose length fits in 32 bits.
#[verifier::external_body]
fn append_message(transcript: &mut Transcript, label: &'static str, message: &[u8])
    requires
        message@.len() <= u32::MAX,
    ensures
        transcript_state(*final(transcript)) == absorbed(
            transcript_state(*old(transcript)),
            label@,
            message@,
        ),
{
    transcript.append_message(label.as_bytes(), message)
}

/// `Transcript::challenge_bytes` into a buffer of `len` bytes: they and the new state depend on the
/// old state, the label and `len`. It fills buffers whose length fits in 32 bits.
#[verifier::external_body]
fn challenge_bytes(transcript: &mut Transcript, label: &'static str, len: usize) -> (bytes: Vec<u8>)
    requires
        len <= u32::MAX,
    ensures
        bytes@.len() == len,
        bytes@ == squeezed(transcript_state(*old(transcript)), label@, len as nat).0,
        transcript_state(*final(transcript)) == squeezed(
            transcript_state(*old(transcript)),
            label@,
            len as nat,
        ).1,
{
    let mut bytes = vec![0u8; len];
    transcript.challenge_bytes(label.as_bytes(), &mut bytes);
    bytes
}

/// One point is absorbed as its encoding, and points one list after the other.
pub proof fn lemma_points_one_by_one(
    state: Seq<u8>,
    label: Seq<char>,
    a: Seq<int>,
    b: Seq<int>,
    k: int,
)
    ensures
        with_points(state, label, Seq::empty()) == state,
        with_points(state, label, seq![k]) == absorbed(state, label, point_encoding(k)),
        with_points(state, label, a + b) == with_points(with_points(state, label, a), label, b),
    decreases b.len(),
{
    reveal_with_fuel(with_points, 2);
    assert(seq![k].drop_last() =~= Seq::<int>::empty());
    if b.len() == 0 {
        assert(a + b =~= a);
    } else {
        assert((a + b).drop_last() =~= a + b.drop_last());
        lemma_points_one_by_one(state, label, a, b.drop_last(), k);
    }
}

} // verus!
