//! The Fiat-Shamir transcript: what prover and verifier have exchanged, as
//! bytes, and the challenges that a hash draws from it.
//!
//! A challenge is the SHA-512 digest of everything absorbed so far, read as an
//! integer and reduced into the field. The digest is absorbed in turn, so
//! that every challenge depends on all that came before it.

use vstd::prelude::*;
use crate::encoding::{le_bytes, le_bytes_value, push_le_bytes};
use crate::field::{element_from_le_bytes, random_element, residue, values, Fq};

verus! {

/// The SHA-512 digest of `data`.
pub uninterp spec fn sha512_digest(data: Seq<u8>) -> Seq<u8>;

/// Hashes with `digest` of `sha2::Sha512`: the result is the SHA-512 digest of
/// the data, a function of the data alone.
#[verifier::external_body]
fn sha512(data: &Vec<u8>) -> (digest: Vec<u8>)
    ensures
        digest@ == sha512_digest(data@),
{
    <sha2::Sha512 as sha2::Digest>::digest(data.as_slice()).to_vec()
}

/// The challenge drawn from a transcript that holds `bytes`.
pub open spec fn challenge_of(bytes: Seq<u8>) -> int {
    residue(le_bytes_value(sha512_digest(bytes)))
}

/// The transcript after a challenge was drawn from `bytes`.
pub open spec fn after_challenge(bytes: Seq<u8>) -> Seq<u8> {
    bytes + sha512_digest(bytes)
}

/// The bytes of a list of field elements: their number in eight bytes, then
/// each element in 48.
pub open spec fn encode_elements(xs: Seq<int>) -> Seq<u8> {
    le_bytes(xs.len() as int, 8) + encode_body(xs)
}

/// The bytes of the elements themselves, each in 48.
pub open spec fn encode_body(xs: Seq<int>) -> Seq<u8>
    decreases xs.len(),
{
    if xs.len() == 0 {
        Seq::<u8>::empty()
    } else {
        encode_body(xs.drop_last()) + le_bytes(xs.last(), 48)
    }
}

/// A transcript.
pub struct Transcript {
    bytes: Vec<u8>,
}

impl Transcript {
    /// The bytes absorbed so far.
    pub closed spec fn view(&self) -> Seq<u8> {
        self.bytes@
    }

    /// A transcript that holds the eight bytes of `domain`, a number that
    /// tells one protocol's transcripts from another's.
    pub fn new(domain: u64) -> (t: Transcript)
        ensures
            t@ == le_bytes(domain as int, 8),
    {
        let mut bytes: Vec<u8> = Vec::new();
        push_le_bytes(&mut bytes, domain);
        proof {
            assert(bytes@ =~= le_bytes(domain as int, 8));
        }
        Transcript { bytes }
    }

    /// Absorbs a count in eight bytes.
    pub fn absorb_count(&mut self, n: usize)
        ensures
            final(self)@ == old(self)@ + le_bytes(n as int, 8),
    {
        push_le_bytes(&mut self.bytes, n as u64);
    }

    /// Absorbs one field element in 48 bytes.
    pub fn absorb_element(&mut self, x: &Fq)
        ensures
            final(self)@ == old(self)@ + le_bytes(x.value(), 48),
    {
        x.write_le_bytes(&mut self.bytes);
    }

    /// Absorbs a list of field elements, their number first.
    pub fn absorb_elements(&mut self, xs: &Vec<Fq>)
        ensures
            final(self)@ == old(self)@ + encode_elements(values(xs@)),
    {
        let ghost vs = values(xs@);
        self.absorb_count(xs.len());
        let mut i: usize = 0;
        proof {
            assert(vs.take(0).len() == 0);
            assert(self@ =~= old(self)@ + le_bytes(xs@.len() as int, 8) + encode_body(vs.take(0)));
        }
        while i < xs.len()
            invariant
                i <= xs@.len(),
                vs == values(xs@),
                self@ == old(self)@ + le_bytes(xs@.len() as int, 8) + encode_body(vs.take(i as int)),
            decreases xs@.len() - i,
        {
            self.absorb_element(&xs[i]);
            proof {
                let next = vs.take(i + 1);
                assert(next.drop_last() =~= vs.take(i as int));
                assert(next.last() == xs@[i as int].value());
                assert(self@ =~= old(self)@ + le_bytes(xs@.len() as int, 8) + encode_body(next));
            }
            i = i + 1;
        }
        proof {
            assert(vs.take(i as int) =~= vs);
            assert(self@ =~= old(self)@ + encode_elements(vs));
        }
    }

    /// Draws a challenge from all that was absorbed, and absorbs the digest
    /// it was read from.
    pub fn squeeze(&mut self) -> (r: Fq)
        ensures
            r.value() == challenge_of(old(self)@),
            final(self)@ == after_challenge(old(self)@),
    {
        let digest = sha512(&self.bytes);
        let r = element_from_le_bytes(&digest);
        let mut i: usize = 0;
        while i < digest.len()
            invariant
                i <= digest@.len(),
                self@ == old(self)@ + digest@.take(i as int),
            decreases digest@.len() - i,
        {
            self.bytes.push(digest[i]);
            proof {
                assert(self@ =~= old(self)@ + digest@.take(i + 1));
            }
            i = i + 1;
        }
        proof {
            assert(digest@.take(i as int) =~= digest@);
        }
        r
    }
}

/// Where challenges come from: fresh randomness, as in the interactive
/// protocol, or a transcript, as in the non-interactive one.
pub struct ChallengeSource {
    transcript: Option<Transcript>,
}

impl ChallengeSource {
    /// The bytes of the transcript, where there is one.
    pub closed spec fn view(&self) -> Option<Seq<u8>> {
        match self.transcript {
            Some(t) => Some(t@),
            None => None,
        }
    }

    /// A source of fresh random challenges.
    pub fn random() -> (s: ChallengeSource)
        ensures
            s@ is None,
    {
        ChallengeSource { transcript: None }
    }

    /// A source that draws its challenges from `transcript`.
    pub fn hashed(transcript: Transcript) -> (s: ChallengeSource)
        ensures
            s@ == Some(transcript@),
    {
        ChallengeSource { transcript: Some(transcript) }
    }

    /// The transcript, where the source has one.
    pub fn into_transcript(self) -> (t: Option<Transcript>)
        ensures
            match t {
                Some(transcript) => self@ == Some(transcript@),
                None => self@ is None,
            },
    {
        self.transcript
    }

    /// The challenge that answers `message`: a fresh random element, or the
    /// one that the transcript gives once it has absorbed the message.
    pub fn next(&mut self, message: &Vec<Fq>) -> (r: Fq)
        ensures
            match old(self)@ {
                Some(bytes) => {
                    &&& r.value() == challenge_of(bytes + encode_elements(values(message@)))
                    &&& final(self)@ == Some(after_challenge(bytes + encode_elements(values(message@))))
                },
                None => final(self)@ is None,
            },
    {
        match &mut self.transcript {
            Some(t) => {
                t.absorb_elements(message);
                t.squeeze()
            },
            None => random_element(),
        }
    }
}

} // verus!
