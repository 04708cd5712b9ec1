//! The non-interactive sum-check protocol: the challenges come from a
//! transcript of what the prover has sent.

use vstd::prelude::*;
use vstd::arithmetic::power2::*;
use crate::encoding::le_bytes;
use crate::field::{residue, values, Fq};
use crate::poly::evaluate;
use crate::sumcheck::checker::{round_values, Verifier, VerifierView};
use crate::sumcheck::interactive::lemma_completeness;
use crate::sumcheck::polynomial::ProductSumView;
use crate::sumcheck::product_sum::ProductSum;
use crate::sumcheck::prover::{honest_rounds, prove_rounds};
use crate::transcript::{
    after_challenge, challenge_of, encode_elements, ChallengeSource, Transcript,
};

verus! {

/// The transcript that began as `start`, after it has absorbed each of the
/// round polynomials and answered it with a challenge.
pub open spec fn fs_state(start: Seq<u8>, rounds: Seq<Seq<int>>) -> Seq<u8>
    decreases rounds.len(),
{
    if rounds.len() == 0 {
        start
    } else {
        after_challenge(fs_state(start, rounds.drop_last()) + encode_elements(rounds.last()))
    }
}

/// The challenges that a transcript that began as `start` gives to the round
/// polynomials: each is drawn from all that came before it and the round
/// polynomial that it answers.
pub open spec fn fs_challenges(start: Seq<u8>, rounds: Seq<Seq<int>>) -> Seq<int> {
    Seq::new(
        rounds.len(),
        |j: int| challenge_of(fs_state(start, rounds.take(j)) + encode_elements(rounds[j])),
    )
}

/// One more round polynomial leaves the earlier challenges as they were and
/// adds the one that answers it.
pub proof fn lemma_fs_push(start: Seq<u8>, rounds: Seq<Seq<int>>, g: Seq<int>)
    ensures
        fs_state(start, rounds.push(g)) == after_challenge(fs_state(start, rounds) + encode_elements(g)),
        fs_challenges(start, rounds.push(g)) == fs_challenges(start, rounds).push(
            challenge_of(fs_state(start, rounds) + encode_elements(g)),
        ),
{
    let more = rounds.push(g);
    assert(more.drop_last() =~= rounds);
    assert(more.last() == g);
    assert forall|j: int| 0 <= j < more.len() implies fs_challenges(start, more)[j] == fs_challenges(
        start,
        rounds,
    ).push(challenge_of(fs_state(start, rounds) + encode_elements(g)))[j] by {
        if j < rounds.len() {
            assert(more.take(j) =~= rounds.take(j));
        } else {
            assert(more.take(j) =~= rounds);
        }
    }
    assert(fs_challenges(start, more) =~= fs_challenges(start, rounds).push(
        challenge_of(fs_state(start, rounds) + encode_elements(g)),
    ));
}

/// The challenges that `transcript` gives to the round polynomials of a
/// proof, as the prover's transcript gave them.
pub fn derive_challenges(rounds: &Vec<Vec<Fq>>, transcript: &mut Transcript) -> (challenges: Vec<Fq>)
    ensures
        challenges@.len() == rounds@.len(),
        values(challenges@) == fs_challenges(old(transcript)@, round_values(rounds@)),
        final(transcript)@ == fs_state(old(transcript)@, round_values(rounds@)),
{
    let ghost all = round_values(rounds@);
    let ghost start = transcript@;
    let mut challenges: Vec<Fq> = Vec::with_capacity(rounds.len());
    let mut j: usize = 0;
    proof {
        assert(all.take(0) =~= Seq::<Seq<int>>::empty());
        assert(values(challenges@) =~= fs_challenges(start, all.take(0)));
    }
    while j < rounds.len()
        invariant
            j <= rounds@.len(),
            all == round_values(rounds@),
            start == old(transcript)@,
            challenges@.len() == j,
            values(challenges@) == fs_challenges(start, all.take(j as int)),
            transcript@ == fs_state(start, all.take(j as int)),
        decreases rounds@.len() - j,
    {
        let ghost before = values(challenges@);
        transcript.absorb_elements(&rounds[j]);
        let challenge = transcript.squeeze();
        challenges.push(challenge);
        proof {
            lemma_fs_push(start, all.take(j as int), all[j as int]);
            assert(all.take(j as int).push(all[j as int]) =~= all.take(j + 1));
            assert(values(challenges@) =~= before.push(challenge.value()));
        }
        j = j + 1;
    }
    proof {
        assert(all.take(j as int) =~= all);
    }
    challenges
}

/// A non-interactive proof that a polynomial sums to a claimed value: the
/// round polynomials, and the polynomial's value at the challenges.
pub struct Proof {
    pub rounds: Vec<Vec<Fq>>,
    pub evaluation: Fq,
}

/// A non-interactive proof as the contracts see it.
pub struct ProofView {
    pub rounds: Seq<Seq<int>>,
    pub evaluation: int,
}

impl Proof {
    /// The representatives of what the proof holds.
    pub open spec fn view(&self) -> ProofView {
        ProofView { rounds: round_values(self.rounds@), evaluation: self.evaluation.value() }
    }
}

/// The number that tells the transcripts of this protocol from others.
pub const SUMCHECK_DOMAIN: u64 = 0x53554d43;

/// The transcript before the first round: the domain, the number of
/// variables, the degree bound and the claimed sum.
pub open spec fn seed(num_vars: nat, degree: nat, claim: int) -> Seq<u8> {
    le_bytes(SUMCHECK_DOMAIN as int, 8) + le_bytes(num_vars as int, 8) + le_bytes(degree as int, 8)
        + le_bytes(claim, 48)
}

/// Whether the non-interactive verifier, told that `poly` sums to `claim`,
/// accepts `proof`: the interactive verifier accepts its round polynomials
/// under the challenges that the transcript gives them, and the proof's
/// evaluation is the polynomial's value at those challenges.
pub open spec fn non_interactive_accepts(poly: ProductSumView, claim: int, proof: ProofView) -> bool {
    let challenges = fs_challenges(seed(poly.num_vars, poly.degree(), claim), proof.rounds);
    &&& proof.rounds.len() == poly.num_vars
    &&& proof.evaluation == residue(poly.eval(challenges))
    &&& VerifierView::start(poly.num_vars, poly.degree(), claim).run(proof.rounds, challenges).accepts(
        proof.evaluation,
    )
}

/// A proof is honest where each of its round polynomials is that of an
/// honest prover who met the challenges that the transcript gave to the
/// round polynomials before it.
pub open spec fn is_honest_proof(poly: ProductSumView, proof: ProofView) -> bool {
    let challenges = fs_challenges(
        seed(poly.num_vars, poly.degree(), residue(poly.sum())),
        proof.rounds,
    );
    &&& proof.rounds.len() == poly.num_vars
    &&& proof.rounds == honest_rounds(poly, challenges)
    &&& proof.evaluation == residue(poly.eval(challenges))
}

/// The non-interactive verifier accepts an honest proof of the true sum, as
/// the interactive verifier accepts an honest prover.
pub proof fn lemma_non_interactive_complete(poly: ProductSumView, proof: ProofView)
    requires
        poly.well_formed(),
        is_honest_proof(poly, proof),
    ensures
        non_interactive_accepts(poly, residue(poly.sum()), proof),
{
    let challenges = fs_challenges(
        seed(poly.num_vars, poly.degree(), residue(poly.sum())),
        proof.rounds,
    );
    lemma_completeness(poly, challenges);
}

/// The transcript before the first round.
fn seeded_transcript(num_vars: usize, degree: usize, claim: &Fq) -> (t: Transcript)
    ensures
        t@ == seed(num_vars as nat, degree as nat, claim.value()),
{
    let mut t = Transcript::new(SUMCHECK_DOMAIN);
    t.absorb_count(num_vars);
    t.absorb_count(degree);
    t.absorb_element(claim);
    t
}

/// Proves without interaction that `g` sums to what it sums to: runs the
/// honest prover against the challenges of a transcript.
pub fn non_interactive_protocol(g: &ProductSum) -> (proof: Proof)
    ensures
        is_honest_proof(g@, proof@),
{
    let claim = g.sum();
    let transcript = seeded_transcript(g.num_vars(), g.degree(), &claim);
    let mut source = ChallengeSource::hashed(transcript);
    let (rounds, challenges) = prove_rounds(g, &mut source);
    let evaluation = g.evaluate(&challenges);
    Proof { rounds, evaluation }
}

/// Verifies a non-interactive proof that `g` sums to `claimed_sum`.
pub fn verify_non_interactive_proof(g: &ProductSum, claimed_sum: &Fq, proof: &Proof) -> (accepted: bool)
    ensures
        accepted == non_interactive_accepts(g@, claimed_sum.value(), proof@),
{
    let n = g.num_vars();
    if proof.rounds.len() != n {
        return false;
    }
    let mut transcript = seeded_transcript(n, g.degree(), claimed_sum);
    let challenges = derive_challenges(&proof.rounds, &mut transcript);
    let mut verifier = Verifier::new(n, g.degree(), *claimed_sum);
    verifier.receive_rounds(&proof.rounds, &challenges);
    let oracle = g.evaluate(&challenges);
    proof.evaluation == oracle && verifier.final_check(&proof.evaluation)
}

} // verus!
