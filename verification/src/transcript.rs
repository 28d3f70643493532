//! Typed absorption and challenge extraction over a labeled transcript.
//!
//! The transcript backend is `merlin::Transcript`, a labeled absorb/squeeze
//! sponge. Its state is modeled as the sequence of operations performed on it
//! since the session started: which label and which bytes went in, and which
//! label and how many bytes came out. Every contract of this module is stated
//! over that sequence, so order and label sensitivity of the transcript are
//! visible in the specifications: two different operation histories are two
//! different modeled states.

use vstd::prelude::*;
use crate::codec::Integer;
use crate::codec::GroupElement;
use crate::codec::be_value;
use crate::codec::pow256;
use crate::codec::strip_zeros;
use crate::codec::lemma_be_value_bound;
use crate::curve::CurveScalar;
use crate::curve::CurvePoint;
use crate::curve::scalar_repr;

verus! {

/// One recorded transcript operation: a kind tag, a label, and the bytes
/// that went in or came out.
pub type TranscriptOp = (nat, Seq<u8>, Seq<u8>);

/// A labeled message absorbed into the transcript.
pub open spec fn absorb_op(label: Seq<u8>, message: Seq<u8>) -> TranscriptOp {
    (0nat, label, message)
}

/// A labeled challenge squeezed out of the transcript, recording the bytes
/// that came out.
pub open spec fn squeeze_op(label: Seq<u8>, output: Seq<u8>) -> TranscriptOp {
    (1nat, label, output)
}

/// The start of a session under a domain-separation label.
pub open spec fn init_op(label: Seq<u8>) -> TranscriptOp {
    (2nat, label, Seq::empty())
}

/// The operation history a transcript value carries: every absorb and
/// squeeze since the session started, in order.
pub uninterp spec fn transcript_ops(t: merlin::Transcript) -> Seq<TranscriptOp>;

/// The bytes that a squeeze of `n` bytes under `label` produces from a
/// transcript with history `ops`. The backend is a deterministic sponge, so
/// the output is a function of these three arguments alone.
pub uninterp spec fn challenge_bytes_of(ops: Seq<TranscriptOp>, label: Seq<u8>, n: nat) -> Seq<u8>;

#[verifier::external_type_specification]
#[verifier::external_body]
pub struct ExTranscript(merlin::Transcript);

/// Relies on merlin::Transcript::new: the initial state is a deterministic
/// function of the domain-separation label alone. The backend frames the
/// label's length as a 32-bit word and panics on longer input, so the bound
/// is required here.
#[verifier::external_body]
fn transcript_new(label: &'static [u8]) -> (t: merlin::Transcript)
    requires
        label@.len() < 0x1_0000_0000,
    ensures
        transcript_ops(t) == seq![init_op(label@)],
{
    merlin::Transcript::new(label)
}

/// Relies on merlin::Transcript::append_message: absorbs the labeled message
/// into the transcript state and has no other effect. The backend frames the
/// message's length as a 32-bit word and panics on longer input, so the
/// bound is required here.
#[verifier::external_body]
fn transcript_append(t: &mut merlin::Transcript, label: &'static [u8], message: &[u8])
    requires
        message@.len() < 0x1_0000_0000,
    ensures
        transcript_ops(*final(t)) == transcript_ops(*old(t)).push(absorb_op(label@, message@)),
{
    t.append_message(label, message);
}

/// Relies on merlin::Transcript::challenge_bytes: fills a buffer of the
/// requested length with bytes that are a deterministic function of the
/// prior state, the label and the length, and advances the state. The
/// backend frames the length as a 32-bit word and panics on a larger
/// request, so the bound is required here.
#[verifier::external_body]
fn transcript_challenge(t: &mut merlin::Transcript, label: &'static [u8], n: usize) -> (r: Vec<u8>)
    requires
        n < 0x1_0000_0000,
    ensures
        r@.len() == n,
        r@ == challenge_bytes_of(transcript_ops(*old(t)), label@, n as nat),
        transcript_ops(*final(t)) == transcript_ops(*old(t)).push(squeeze_op(label@, r@)),
{
    let mut buf = vec![0u8; n];
    t.challenge_bytes(label, &mut buf);
    buf
}

/// Start a proof session: a fresh transcript whose state is determined by
/// the domain-separation label alone. Two sessions opened under one label
/// have equal histories, which is what makes challenge derivation agree
/// between prover and verifier. Labels are short protocol constants; the
/// backend's length framing bounds them below two to the thirty-second.
pub fn fresh_transcript(label: &'static [u8]) -> (t: merlin::Transcript)
    requires
        label@.len() < 0x1_0000_0000,
    ensures
        transcript_ops(t) == seq![init_op(label@)],
{
    transcript_new(label)
}

/// The failure kind of the transcript layer: the backend could not produce
/// the requested challenge bytes. It is surfaced to the caller of challenge
/// extraction and never retried, since a failed backend is not resumable.
/// The sponge backend used here is total, so the layer itself never raises
/// it; a fallible backend must.
#[derive(Clone, Copy, Debug, PartialEq, Eq, Structural)]
pub enum TranscriptChannelError {
    Incomplete,
}

/// A transcript backend's model: the operation history it carries.
pub trait TranscriptState {
    /// Every operation performed on the transcript since the session
    /// started, in order.
    spec fn ops(&self) -> Seq<TranscriptOp>;
}

/// Absorption of arbitrary-precision integers and unknown-order-group
/// elements: both converge on absorbing the integer's canonical bytes under
/// the caller's label.
///
/// The backend frames each absorbed message's length as a 32-bit word, so a
/// value's encoding must stay below two to the thirty-second bytes; within
/// that bound absorption never fails.
pub trait TranscriptProtocolInteger: TranscriptState {
    /// Append a labeled integer scalar; the transcript absorbs its
    /// canonical big-endian bytes and nothing else changes.
    fn append_integer_scalar(&mut self, label: &'static [u8], scalar: &Integer)
        requires
            scalar@.len() < 0x1_0000_0000,
        ensures
            final(self).ops() == old(self).ops().push(absorb_op(label@, scalar@)),
    ;

    /// Append a labeled unknown-order-group element; the transcript absorbs
    /// the canonical bytes of its integer representative.
    fn append_integer_point(&mut self, label: &'static [u8], point: &GroupElement)
        requires
            point@.len() < 0x1_0000_0000,
        ensures
            final(self).ops() == old(self).ops().push(absorb_op(label@, point@)),
    ;
}

/// Absorption of curve scalars and curve points under their curve-native
/// canonical encodings.
///
/// The backend frames each absorbed message's length as a 32-bit word, so a
/// value's encoding must stay below two to the thirty-second bytes — far
/// beyond any curve's field width; within that bound absorption never fails.
pub trait TranscriptProtocolCurve: TranscriptState {
    /// Append a labeled curve scalar; the transcript absorbs the field's
    /// canonical fixed-width big-endian representation.
    fn append_curve_scalar(&mut self, label: &'static [u8], scalar: &CurveScalar)
        requires
            8 * scalar@.len() < 0x1_0000_0000,
        ensures
            final(self).ops() == old(self).ops().push(absorb_op(label@, scalar_repr(scalar@))),
    ;

    /// Append a labeled curve point; the transcript absorbs its affine
    /// encoding, which is a function of the point's affine value alone.
    fn append_curve_point(&mut self, label: &'static [u8], point: &CurvePoint)
        requires
            point@.0.len() + point@.1.len() + 1 < 0x1_0000_0000,
        ensures
            final(self).ops() == old(self).ops().push(absorb_op(label@, point.encoding())),
    ;
}

/// Challenge extraction: a labeled pseudorandom integer of controlled bit
/// length, derived from the whole prior history.
pub trait TranscriptProtocolChallenge: TranscriptState {
    /// Derive a labeled challenge of `length_in_bits` bits. The bit length
    /// is rounded down to a whole number of bytes; the bytes squeezed from
    /// the transcript are read as one big-endian unsigned integer, so the
    /// result is below 256 to the byte count, and a request of fewer than
    /// eight bits yields zero. The result is a function of the history, the
    /// label and the length alone, and the squeeze is recorded in the
    /// history, so later challenges differ.
    fn challenge_scalar(&mut self, label: &'static [u8], length_in_bits: u16) -> (r: Integer)
        ensures
            r.wf(),
            r@ == strip_zeros(
                challenge_bytes_of(old(self).ops(), label@, (length_in_bits / 8) as nat),
            ),
            r.value() == be_value(
                challenge_bytes_of(old(self).ops(), label@, (length_in_bits / 8) as nat),
            ),
            r.value() < pow256((length_in_bits / 8) as nat),
            final(self).ops() == old(self).ops().push(
                squeeze_op(
                    label@,
                    challenge_bytes_of(old(self).ops(), label@, (length_in_bits / 8) as nat),
                ),
            ),
    ;
}

/// The transcript surface the proof of knowledge of a root requires.
pub trait TranscriptProtocolRoot: TranscriptProtocolInteger + TranscriptProtocolChallenge {

}

/// The transcript surface the proof of equality of committed values modulo
/// different moduli requires.
pub trait TranscriptProtocolModEq: TranscriptProtocolInteger + TranscriptProtocolCurve
    + TranscriptProtocolChallenge {

}

/// The transcript surface the range proof requires.
pub trait TranscriptProtocolRange: TranscriptProtocolCurve + TranscriptProtocolChallenge {

}

/// Protocol composition: one transcript type must satisfy all three
/// sub-protocols' surfaces at once, so that they can share one transcript
/// instance. Label disjointness across the sub-protocols is a protocol
/// constant discipline, not a runtime check.
pub trait TranscriptProtocolMembershipPrime: TranscriptProtocolRoot + TranscriptProtocolModEq
    + TranscriptProtocolRange {

}

impl TranscriptState for merlin::Transcript {
    open spec fn ops(&self) -> Seq<TranscriptOp> {
        transcript_ops(*self)
    }
}

impl TranscriptProtocolInteger for merlin::Transcript {
    fn append_integer_scalar(&mut self, label: &'static [u8], scalar: &Integer) {
        let bytes = scalar.to_be_bytes();
        transcript_append(self, label, bytes.as_slice());
    }

    fn append_integer_point(&mut self, label: &'static [u8], point: &GroupElement) {
        let bytes = point.representative_bytes();
        transcript_append(self, label, bytes.as_slice());
    }
}

impl TranscriptProtocolCurve for merlin::Transcript {
    fn append_curve_scalar(&mut self, label: &'static [u8], scalar: &CurveScalar) {
        let bytes = scalar.to_repr_bytes();
        transcript_append(self, label, bytes.as_slice());
    }

    fn append_curve_point(&mut self, label: &'static [u8], point: &CurvePoint) {
        let bytes = point.to_affine_bytes();
        transcript_append(self, label, bytes.as_slice());
    }
}

impl TranscriptProtocolChallenge for merlin::Transcript {
    fn challenge_scalar(&mut self, label: &'static [u8], length_in_bits: u16) -> (r: Integer) {
        let n = (length_in_bits / 8) as usize;
        let buf = transcript_challenge(self, label, n);
        proof {
            lemma_be_value_bound(buf@);
        }
        Integer::from_be_bytes(buf.as_slice())
    }
}

impl TranscriptProtocolRoot for merlin::Transcript {

}

impl TranscriptProtocolModEq for merlin::Transcript {

}

impl TranscriptProtocolRange for merlin::Transcript {

}

impl TranscriptProtocolMembershipPrime for merlin::Transcript {

}

/// Determinism: a challenge is a function of the transcript history, the
/// label and the requested length alone, so two transcripts with identical
/// histories yield bit-identical challenges.
pub proof fn lemma_challenge_deterministic(
    h1: Seq<TranscriptOp>,
    h2: Seq<TranscriptOp>,
    label: Seq<u8>,
    n: nat,
)
    requires
        h1 == h2,
    ensures
        challenge_bytes_of(h1, label, n) == challenge_bytes_of(h2, label, n),
{
}

/// Order sensitivity: absorbing one labeled value and then a different one
/// yields a different transcript state than absorbing them the other way
/// around, whatever the common prior history.
pub proof fn lemma_order_sensitivity(
    h: Seq<TranscriptOp>,
    label_a: Seq<u8>,
    a: Seq<u8>,
    label_b: Seq<u8>,
    b: Seq<u8>,
)
    requires
        absorb_op(label_a, a) != absorb_op(label_b, b),
    ensures
        h.push(absorb_op(label_a, a)).push(absorb_op(label_b, b)) != h.push(
            absorb_op(label_b, b),
        ).push(absorb_op(label_a, a)),
{
    let s1 = h.push(absorb_op(label_a, a)).push(absorb_op(label_b, b));
    let s2 = h.push(absorb_op(label_b, b)).push(absorb_op(label_a, a));
    assert(s1[h.len() as int] == absorb_op(label_a, a));
    assert(s2[h.len() as int] == absorb_op(label_b, b));
    if s1 == s2 {
        assert(s1[h.len() as int] == s2[h.len() as int]);
        assert(false);
    }
}

/// Order sensitivity at the integer surface: because the canonical encoding
/// is injective, two integers that differ in value are absorbed as two
/// different messages, so absorbing A then B yields a different transcript
/// state than absorbing B then A.
pub proof fn lemma_integer_order_sensitivity(
    h: Seq<TranscriptOp>,
    label: Seq<u8>,
    a: Integer,
    b: Integer,
)
    requires
        a.wf(),
        b.wf(),
        a.value() != b.value(),
    ensures
        h.push(absorb_op(label, a@)).push(absorb_op(label, b@)) != h.push(
            absorb_op(label, b@),
        ).push(absorb_op(label, a@)),
{
    assert(a@ != b@);
    lemma_order_sensitivity(h, label, a@, label, b@);
}

/// Label sensitivity: absorbing one message under two different labels
/// yields two different transcript states, whatever the common prior
/// history.
pub proof fn lemma_label_sensitivity(
    h: Seq<TranscriptOp>,
    label_1: Seq<u8>,
    label_2: Seq<u8>,
    message: Seq<u8>,
)
    requires
        label_1 != label_2,
    ensures
        h.push(absorb_op(label_1, message)) != h.push(absorb_op(label_2, message)),
{
    let s1 = h.push(absorb_op(label_1, message));
    let s2 = h.push(absorb_op(label_2, message));
    assert(s1[h.len() as int] == absorb_op(label_1, message));
    assert(s2[h.len() as int] == absorb_op(label_2, message));
    if s1 == s2 {
        assert(s1[h.len() as int] == s2[h.len() as int]);
        assert(false);
    }
}

} // verus!
