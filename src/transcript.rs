use vstd::prelude::*;
use ark_bls12_381::Fr;
use ark_ff::{BigInteger, PrimeField};
use merlin::Transcript;
use crate::field::FieldElement;

verus! {

#[verifier::external_type_specification]
#[verifier::external_body]
pub struct ExTranscript(Transcript);

/// The bytes of a transcript's sponge state.
pub uninterp spec fn transcript_state(t: Transcript) -> Seq<u8>;

/// The sponge state after a labelled message is absorbed.
pub uninterp spec fn appended(state: Seq<u8>, label: Seq<char>, message: Seq<u8>) -> Seq<u8>;

/// The sponge state after a challenge is drawn under `label`.
pub uninterp spec fn challenged(state: Seq<u8>, label: Seq<char>) -> Seq<u8>;

/// The challenge that a transcript in sponge state `state` draws under `label`.
pub uninterp spec fn challenge_of(state: Seq<u8>, label: Seq<char>) -> nat;

/// Relies on `merlin::Transcript::append_message`: the new state is a
/// function of the old one, the label and the message, whose length must fit
/// in a `u32`.
#[verifier::external_body]
pub(crate) fn append_message(t: &mut Transcript, label: &'static str, message: &[u8])
    requires
        message@.len() <= u32::MAX,
    ensures
        transcript_state(*final(t)) == appended(transcript_state(*old(t)), label@, message@),
{
    t.append_message(label.as_bytes(), message)
}

/// Relies on `merlin::Transcript::challenge_bytes` (64 bytes, reduced into the
/// field by `PrimeField::from_le_bytes_mod_order`): the challenge and the new
/// state are functions of the old state and the label.
#[verifier::external_body]
pub(crate) fn challenge_scalar(t: &mut Transcript, label: &'static str) -> (r: FieldElement)
    ensures
        r.value() == challenge_of(transcript_state(*old(t)), label@),
        r.wf(),
        transcript_state(*final(t)) == challenged(transcript_state(*old(t)), label@),
{
    let mut buf = [0u8; 64];
    t.challenge_bytes(label.as_bytes(), &mut buf);
    let x = Fr::from_le_bytes_mod_order(&buf);
    FieldElement { bytes: x.into_bigint().to_bytes_le().try_into().unwrap() }
}

} // verus!
