//! Challenges from a transcript.
use vstd::prelude::*;

verus! {

/// `merlin::Transcript`, carried as an opaque value.
#[verifier::external_type_specification]
#[verifier::external_body]
pub struct ExTranscript(merlin::Transcript);

/// What has been appended to a transcript: labels and messages, in order.
pub uninterp spec fn transcript_log(transcript: merlin::Transcript) -> Seq<(Seq<u8>, Seq<u8>)>;

/// The 64 bytes that a transcript's log gives for a label.
pub uninterp spec fn transcript_output(log: Seq<(Seq<u8>, Seq<u8>)>, label: Seq<u8>) -> Seq<u8>;

/// A record of messages that a challenge is drawn from.
pub struct ChallengeTranscript {
    inner: merlin::Transcript,
}

impl View for ChallengeTranscript {
    type V = Seq<(Seq<u8>, Seq<u8>)>;

    closed spec fn view(&self) -> Seq<(Seq<u8>, Seq<u8>)> {
        transcript_log(self.inner)
    }
}

/// `merlin::Transcript::new`: nothing but the protocol's label has been appended.
#[verifier::external_body]
fn transcript_new(label: &'static [u8]) -> (transcript: ChallengeTranscript)
    requires
        label@.len() <= u32::MAX,
    ensures
        transcript_log(transcript.inner) == seq![(Seq::<u8>::empty(), label@)],
{
    ChallengeTranscript { inner: merlin::Transcript::new(label) }
}

/// `merlin::Transcript::append_message`: the label and the message come last.
#[verifier::external_body]
fn transcript_append(transcript: &mut ChallengeTranscript, label: &'static [u8], message: &[u8])
    requires
        message@.len() <= u32::MAX,
    ensures
        transcript_log(final(transcript).inner) == transcript_log(old(transcript).inner).push(
            (label@, message@),
        ),
{
    transcript.inner.append_message(label, message)
}

/// `merlin::Transcript::challenge_bytes`, for 64 bytes: they depend on what was appended,
/// in its order, and on the label.
#[verifier::external_body]
fn transcript_challenge(transcript: ChallengeTranscript, label: &'static [u8]) -> (bytes: [u8; 64])
    ensures
        bytes@ == transcript_output(transcript_log(transcript.inner), label@),
{
    let mut inner = transcript.inner;
    let mut bytes = [0u8; 64];
    inner.challenge_bytes(label, &mut bytes);
    bytes
}

impl ChallengeTranscript {
    /// A transcript of a protocol.
    pub fn new(label: &'static [u8]) -> (transcript: Self)
        requires
            label@.len() <= u32::MAX,
        ensures
            transcript@ == seq![(Seq::<u8>::empty(), label@)],
    {
        transcript_new(label)
    }

    pub fn append_message(&mut self, label: &'static [u8], message: &[u8])
        requires
            message@.len() <= u32::MAX,
        ensures
            final(self)@ == old(self)@.push((label@, message@)),
    {
        transcript_append(self, label, message)
    }

    /// The bytes of a challenge.
    pub fn challenge_bytes(self, label: &'static [u8]) -> (bytes: [u8; 64])
        ensures
            bytes@ == transcript_output(self@, label@),
    {
        transcript_challenge(self, label)
    }
}

} // verus!
