//! The non-interactive protocol: proofs whose challenges come from a
//! transcript, their verification, and its completeness.

use vstd::prelude::*;
use vstd::arithmetic::power2::*;
use crate::encoding::le_bytes;
use crate::field::{concat_elements, residues, values, Fq};
use crate::gkr::circuit::{Circuit, CircuitError, CircuitView};
use crate::gkr::claim::{
    final_holds, layer_step, padded, start_claim, Claim, ClaimView, LayerProof, LayerProofView,
};
use crate::gkr::interactive::{run_layers, LayerChallenges};
use crate::gkr::prover::{
    draw_point, empty_messages, honest_layer, lemma_layer_complete, line_transcript, true_claim,
};
use crate::line::line_point;
use crate::sumcheck::non_interactive::{derive_challenges, fs_challenges, fs_state};
use crate::transcript::{
    after_challenge, challenge_of, encode_elements, ChallengeSource, Transcript,
};

verus! {

/// A non-interactive proof of a circuit's outputs: what the prover sends for
/// each layer, output layer first.
pub struct Proof {
    pub layers: Vec<LayerProof>,
}

/// What a list of layer proofs holds.
pub open spec fn proof_views(layers: Seq<LayerProof>) -> Seq<LayerProofView> {
    Seq::new(layers.len(), |i: int| layers[i]@)
}

impl Proof {
    /// What was sent for each layer.
    pub open spec fn view(&self) -> Seq<LayerProofView> {
        proof_views(self.layers@)
    }
}

/// The number that tells the transcripts of this protocol from others.
pub const GKR_DOMAIN: u64 = 0x474b52;

/// The transcript before the first challenge: the domain, the circuit's
/// depth and the claimed outputs.
pub open spec fn gkr_seed(depth: nat, outputs: Seq<int>) -> Seq<u8> {
    le_bytes(GKR_DOMAIN as int, 8) + le_bytes(depth as int, 8) + encode_elements(outputs)
}

/// The point of the first claim, which the transcript gives.
pub open spec fn first_point(c: CircuitView, outputs: Seq<int>) -> Seq<int> {
    fs_challenges(gkr_seed(c.depth(), outputs), empty_messages(c.bits(0)))
}

/// The transcript once the point of the first claim is drawn.
pub open spec fn first_transcript(c: CircuitView, outputs: Seq<int>) -> Seq<u8> {
    fs_state(gkr_seed(c.depth(), outputs), empty_messages(c.bits(0)))
}

/// The verifier's claim and transcript after the proofs of the first layers,
/// each checked under the challenges that the transcript gives it.
pub open spec fn replay(c: CircuitView, s0: ClaimView, b0: Seq<u8>, proofs: Seq<LayerProofView>) -> (
    ClaimView,
    Seq<u8>,
)
    decreases proofs.len(),
{
    if proofs.len() == 0 {
        (s0, b0)
    } else {
        let (s, b) = replay(c, s0, b0, proofs.drop_last());
        let p = proofs.last();
        (
            layer_step(c, s, p, fs_challenges(b, p.rounds), challenge_of(line_transcript(b, p))),
            after_challenge(line_transcript(b, p)),
        )
    }
}

/// Whether the non-interactive verifier, told that the circuit's outputs are
/// `outputs`, accepts the proof: there is a proof for each gate layer, every
/// layer's checks pass under the challenges of the transcript, and the claim
/// that is left is true of the inputs.
pub open spec fn gkr_accepts(c: CircuitView, outputs: Seq<int>, proofs: Seq<LayerProofView>) -> bool {
    let s0 = start_claim(c, outputs, first_point(c, outputs));
    &&& proofs.len() == c.depth()
    &&& final_holds(c, replay(c, s0, first_transcript(c, outputs), proofs).0)
}

/// The proof of layer `j` is what an honest prover sends, given the claim
/// and the transcript that the proofs before it leave.
pub open spec fn honest_at(c: CircuitView, proofs: Seq<LayerProofView>, j: int) -> bool {
    let outputs = c.outputs();
    let s0 = start_claim(c, outputs, first_point(c, outputs));
    let (s, b) = replay(c, s0, first_transcript(c, outputs), proofs.take(j));
    &&& proofs[j].rounds.len() == 2 * c.bits(j + 1)
    &&& proofs[j] == honest_layer(c, j, s.point, fs_challenges(b, proofs[j].rounds))
}

/// A proof is honest where it proves the circuit's own outputs and every
/// layer's proof is what an honest prover sends.
pub open spec fn is_honest_gkr(c: CircuitView, proofs: Seq<LayerProofView>) -> bool {
    &&& proofs.len() == c.depth()
    &&& forall|j: int| 0 <= j < proofs.len() ==> #[trigger] honest_at(c, proofs, j)
}

/// One more proof takes the replay one layer further.
pub proof fn lemma_replay_push(
    c: CircuitView,
    s0: ClaimView,
    b0: Seq<u8>,
    proofs: Seq<LayerProofView>,
    p: LayerProofView,
)
    ensures
        ({
            let (s, b) = replay(c, s0, b0, proofs);
            replay(c, s0, b0, proofs.push(p)) == (
                layer_step(c, s, p, fs_challenges(b, p.rounds), challenge_of(line_transcript(b, p))),
                after_challenge(line_transcript(b, p)),
            )
        }),
{
    assert(proofs.push(p).drop_last() =~= proofs);
}

/// The first claim of an honest run is true.
pub proof fn lemma_first_claim(c: CircuitView)
    ensures
        ({
            let z = first_point(c, c.outputs());
            &&& z.len() == c.bits(0)
            &&& start_claim(c, c.outputs(), z) == true_claim(c, 0, z)
        }),
{
    assert(padded(c.outputs(), c.bits(0)) =~= c.wire_table(0));
}

/// After the honest proofs of the first `i` layers the verifier holds a true
/// claim about layer `i`.
pub proof fn lemma_honest_layers(c: CircuitView, proofs: Seq<LayerProofView>, i: int)
    requires
        c.well_formed(),
        is_honest_gkr(c, proofs),
        0 <= i <= proofs.len(),
    ensures
        ({
            let outputs = c.outputs();
            let s0 = start_claim(c, outputs, first_point(c, outputs));
            let s = replay(c, s0, first_transcript(c, outputs), proofs.take(i)).0;
            &&& s.point.len() == c.bits(i)
            &&& s == true_claim(c, i, s.point)
        }),
    decreases i,
{
    let outputs = c.outputs();
    let s0 = start_claim(c, outputs, first_point(c, outputs));
    let b0 = first_transcript(c, outputs);
    if i == 0 {
        lemma_first_claim(c);
        assert(proofs.take(0).len() == 0);
    } else {
        let j = i - 1;
        lemma_honest_layers(c, proofs, j);
        let (s, b) = replay(c, s0, b0, proofs.take(j));
        let p = proofs[j];
        assert(honest_at(c, proofs, j));
        lemma_replay_push(c, s0, b0, proofs.take(j), p);
        assert(proofs.take(j).push(p) =~= proofs.take(i));
        let rs = fs_challenges(b, p.rounds);
        lemma_layer_complete(c, j, s.point, rs, challenge_of(line_transcript(b, p)));
    }
}

/// Completeness of the non-interactive protocol: the verifier accepts an
/// honest proof of the circuit's own outputs.
pub proof fn lemma_gkr_complete(c: CircuitView, proofs: Seq<LayerProofView>)
    requires
        c.well_formed(),
        is_honest_gkr(c, proofs),
    ensures
        gkr_accepts(c, c.outputs(), proofs),
{
    lemma_honest_layers(c, proofs, proofs.len() as int);
    assert(proofs.take(proofs.len() as int) =~= proofs);
}

/// The challenges that a transcript that began as `b0` gives to each layer's
/// proof. They depend on the proofs alone, not on what the verifier makes of
/// them.
pub open spec fn derived_challenges(
    c: CircuitView,
    s0: ClaimView,
    b0: Seq<u8>,
    proofs: Seq<LayerProofView>,
) -> Seq<LayerChallenges> {
    Seq::new(
        proofs.len(),
        |i: int|
            {
                let b = replay(c, s0, b0, proofs.take(i)).1;
                LayerChallenges {
                    rounds: fs_challenges(b, proofs[i].rounds),
                    line: challenge_of(line_transcript(b, proofs[i])),
                }
            },
    )
}

/// The non-interactive verifier is the interactive one under the challenges
/// of the transcript: on every proof, honest or not, the two come to the same
/// claim, and so to the same verdict.
pub proof fn lemma_replay_is_run(c: CircuitView, s0: ClaimView, b0: Seq<u8>, proofs: Seq<LayerProofView>)
    ensures
        replay(c, s0, b0, proofs).0 == run_layers(c, s0, proofs, derived_challenges(c, s0, b0, proofs)),
    decreases proofs.len(),
{
    if proofs.len() > 0 {
        let init = proofs.drop_last();
        lemma_replay_is_run(c, s0, b0, init);
        let all = derived_challenges(c, s0, b0, proofs);
        assert(all.drop_last() =~= derived_challenges(c, s0, b0, init)) by {
            assert forall|i: int| 0 <= i < init.len() implies all.drop_last()[i] == derived_challenges(
                c,
                s0,
                b0,
                init,
            )[i] by {
                assert(proofs.take(i) =~= init.take(i));
            }
        }
        assert(proofs.take(proofs.len() - 1) =~= init);
    }
}

/// Whether the proof of layer `j` is honest depends on the proofs up to that
/// layer alone.
pub proof fn lemma_honest_at_prefix(
    c: CircuitView,
    proofs: Seq<LayerProofView>,
    longer: Seq<LayerProofView>,
    j: int,
)
    requires
        0 <= j < proofs.len() <= longer.len(),
        longer.take(proofs.len() as int) == proofs,
    ensures
        honest_at(c, longer, j) == honest_at(c, proofs, j),
{
    assert(longer.take(j) =~= proofs.take(j));
    assert(longer[j] == longer.take(proofs.len() as int)[j]);
}

/// The proofs of the first layers are honest, and leave the verifier with
/// the true claim at `z` and the transcript with `bytes`.
#[verifier::opaque]
pub open spec fn honest_so_far(
    c: CircuitView,
    proofs: Seq<LayerProofView>,
    z: Seq<int>,
    bytes: Seq<u8>,
) -> bool {
    let outputs = c.outputs();
    let s0 = start_claim(c, outputs, first_point(c, outputs));
    &&& proofs.len() <= c.depth()
    &&& z.len() == c.bits(proofs.len() as int)
    &&& replay(c, s0, first_transcript(c, outputs), proofs) == (
        true_claim(c, proofs.len() as int, z),
        bytes,
    )
    &&& forall|j: int| 0 <= j < proofs.len() ==> #[trigger] honest_at(c, proofs, j)
}

/// Before the first layer nothing is sent, and the first claim is true.
pub proof fn lemma_honest_start(c: CircuitView)
    ensures
        honest_so_far(
            c,
            Seq::<LayerProofView>::empty(),
            first_point(c, c.outputs()),
            first_transcript(c, c.outputs()),
        ),
{
    reveal(honest_so_far);
    lemma_first_claim(c);
}

/// One more honest layer: where the proofs so far are honest, what an
/// honest prover sends next under the challenges of the transcript keeps
/// them honest, and leaves the true claim at the line's point.
pub proof fn lemma_honest_step(
    c: CircuitView,
    before: Seq<LayerProofView>,
    sent: LayerProofView,
    z: Seq<int>,
    bytes: Seq<u8>,
    rs: Seq<int>,
    t: int,
)
    requires
        c.well_formed(),
        before.len() < c.depth(),
        honest_so_far(c, before, z, bytes),
        rs.len() == 2 * c.bits(before.len() as int + 1),
        sent == honest_layer(c, before.len() as int, z, rs),
        rs == fs_challenges(bytes, sent.rounds),
        t == challenge_of(line_transcript(bytes, sent)),
    ensures
        ({
            let k1 = c.bits(before.len() as int + 1) as int;
            honest_so_far(
                c,
                before.push(sent),
                residues(line_point(rs.take(k1), rs.skip(k1), t)),
                after_challenge(line_transcript(bytes, sent)),
            )
        }),
{
    reveal(honest_so_far);
    let outputs = c.outputs();
    let s0 = start_claim(c, outputs, first_point(c, outputs));
    let b0 = first_transcript(c, outputs);
    let after = before.push(sent);
    let i = before.len() as int;
    assert(after.take(i) =~= before);
    assert forall|j: int| 0 <= j < after.len() implies #[trigger] honest_at(c, after, j) by {
        if j < i {
            assert(honest_at(c, before, j));
            lemma_honest_at_prefix(c, before, after, j);
        } else {
            assert(sent.rounds.len() == rs.len()) by {
                assert(honest_layer(c, i, z, rs).rounds.len() == rs.len());
            }
        }
    }
    lemma_step_true(c, replay(c, s0, b0, before), before, sent, z, rs, t);
}

/// Honest proofs of every layer make an honest proof.
pub proof fn lemma_honest_end(c: CircuitView, proofs: Seq<LayerProofView>, z: Seq<int>, bytes: Seq<u8>)
    requires
        honest_so_far(c, proofs, z, bytes),
        proofs.len() == c.depth(),
    ensures
        is_honest_gkr(c, proofs),
{
    reveal(honest_so_far);
}

/// The replay of one more honest layer from a true claim leaves a true
/// claim.
proof fn lemma_step_true(
    c: CircuitView,
    state: (ClaimView, Seq<u8>),
    before: Seq<LayerProofView>,
    sent: LayerProofView,
    z: Seq<int>,
    rs: Seq<int>,
    t: int,
)
    requires
        c.well_formed(),
        before.len() < c.depth(),
        z.len() == c.bits(before.len() as int),
        rs.len() == 2 * c.bits(before.len() as int + 1),
        ({
            let outputs = c.outputs();
            let s0 = start_claim(c, outputs, first_point(c, outputs));
            state == replay(c, s0, first_transcript(c, outputs), before)
        }),
        state.0 == true_claim(c, before.len() as int, z),
        sent == honest_layer(c, before.len() as int, z, rs),
        rs == fs_challenges(state.1, sent.rounds),
        t == challenge_of(line_transcript(state.1, sent)),
    ensures
        ({
            let outputs = c.outputs();
            let s0 = start_claim(c, outputs, first_point(c, outputs));
            let b0 = first_transcript(c, outputs);
            let k1 = c.bits(before.len() as int + 1) as int;
            let next = residues(line_point(rs.take(k1), rs.skip(k1), t));
            &&& next.len() == k1
            &&& replay(c, s0, b0, before.push(sent)).0 == true_claim(c, before.len() as int + 1, next)
            &&& replay(c, s0, b0, before.push(sent)).1 == after_challenge(line_transcript(state.1, sent))
        }),
{
    let outputs = c.outputs();
    let s0 = start_claim(c, outputs, first_point(c, outputs));
    let b0 = first_transcript(c, outputs);
    lemma_layer_complete(c, before.len() as int, z, rs, t);
    lemma_replay_push(c, s0, b0, before, sent);
}

/// The transcript before the first challenge.
pub(crate) fn seeded_transcript(depth: usize, outputs: &Vec<Fq>) -> (t: Transcript)
    ensures
        t@ == gkr_seed(depth as nat, values(outputs@)),
{
    let mut t = Transcript::new(GKR_DOMAIN);
    t.absorb_count(depth);
    t.absorb_elements(outputs);
    t
}

/// Verifies a non-interactive proof that the outputs of `circuit` are
/// `claimed_outputs`. It fails where a table cannot be addressed.
pub fn verify(circuit: &Circuit, claimed_outputs: &Vec<Fq>, proof: &Proof) -> (r: Result<
    bool,
    CircuitError,
>)
    ensures
        circuit@.addressable() ==> r is Ok,
        match r {
            Ok(accepted) => accepted == gkr_accepts(circuit@, values(claimed_outputs@), proof@),
            Err(e) => e == CircuitError::TableTooLarge && !circuit@.addressable(),
        },
{
    let ghost c = circuit@;
    let ghost outputs = values(claimed_outputs@);
    let ghost all = proof@;
    let d = circuit.depth();
    let width = circuit.layer_bit_width(0);
    let mut source = ChallengeSource::hashed(seeded_transcript(d, claimed_outputs));
    let z = draw_point(&mut source, width);
    let mut transcript = match source.into_transcript() {
        Some(t) => t,
        None => {
            return Ok(false);
        },
    };
    let mut claim = match Claim::start(circuit, claimed_outputs, &z) {
        Ok(s) => s,
        Err(e) => {
            return Err(e);
        },
    };
    if proof.layers.len() != d {
        return Ok(false);
    }
    let ghost s0 = claim@;
    let ghost b0 = transcript@;
    let mut i: usize = 0;
    proof {
        assert(all.take(0).len() == 0);
    }
    while i < d
        invariant
            i <= d,
            d == proof.layers@.len(),
            c == circuit@,
            all == proof@,
            replay(c, s0, b0, all.take(i as int)) == (claim@, transcript@),
        decreases d - i,
    {
        let p = &proof.layers[i];
        let rs = derive_challenges(&p.rounds, &mut transcript);
        let mut ends: Vec<Fq> = Vec::with_capacity(2);
        ends.push(p.left);
        ends.push(p.right);
        let message = concat_elements(&p.line, &ends);
        proof {
            assert(values(ends@) =~= seq![p.left.value(), p.right.value()]);
        }
        transcript.absorb_elements(&message);
        let t = transcript.squeeze();
        proof {
            lemma_replay_push(c, s0, b0, all.take(i as int), all[i as int]);
            assert(all.take(i as int).push(all[i as int]) =~= all.take(i + 1));
        }
        match claim.reduce(circuit, p, &rs, &t) {
            Ok(_) => {},
            Err(e) => {
                return Err(e);
            },
        }
        i = i + 1;
    }
    proof {
        assert(all.take(i as int) =~= all);
    }
    claim.finish(circuit)
}

} // verus!
