//! The interactive protocol, and its completeness.

use vstd::prelude::*;
use vstd::arithmetic::power2::*;
use crate::field::{residue, values, Fq};
use crate::gkr::circuit::{Circuit, CircuitError, CircuitView};
use crate::gkr::claim::{
    final_holds, layer_step, padded, start_claim, Claim, ClaimView, LayerProofView,
};
use crate::gkr::prover::{
    draw_point, honest_layer, lemma_layer_complete, lemma_layer_only_true, true_claim, Prover,
};
use crate::transcript::ChallengeSource;

verus! {

/// The challenges that one layer's proof is checked under: those of the
/// sum-check run, and the one on the line.
pub struct LayerChallenges {
    pub rounds: Seq<int>,
    pub line: int,
}

/// The claim of the interactive verifier after the proofs of the first
/// layers, each checked under the challenges that the verifier drew for it.
pub open spec fn run_layers(
    c: CircuitView,
    s0: ClaimView,
    proofs: Seq<LayerProofView>,
    challenges: Seq<LayerChallenges>,
) -> ClaimView
    decreases proofs.len(),
{
    if proofs.len() == 0 {
        s0
    } else {
        layer_step(
            c,
            run_layers(c, s0, proofs.drop_last(), challenges.drop_last()),
            proofs.last(),
            challenges.last().rounds,
            challenges.last().line,
        )
    }
}

/// Completeness of the interactive protocol: from a true claim about the
/// outputs, whatever challenges the verifier draws, the proofs of an honest
/// prover who meets them leave a true claim about the inputs.
pub proof fn lemma_run_complete(
    c: CircuitView,
    z: Seq<int>,
    proofs: Seq<LayerProofView>,
    challenges: Seq<LayerChallenges>,
)
    requires
        c.well_formed(),
        z.len() == c.bits(0),
        proofs.len() <= c.depth(),
        proofs.len() == challenges.len(),
        forall|j: int|
            0 <= j < proofs.len() ==> (#[trigger] challenges[j]).rounds.len() == 2 * c.bits(j + 1)
                && proofs[j] == honest_layer(
                c,
                j,
                run_layers(c, true_claim(c, 0, z), proofs.take(j), challenges.take(j)).point,
                challenges[j].rounds,
            ),
    ensures
        ({
            let s = run_layers(c, true_claim(c, 0, z), proofs, challenges);
            &&& s.point.len() == c.bits(proofs.len() as int)
            &&& s == true_claim(c, proofs.len() as int, s.point)
            &&& proofs.len() == c.depth() ==> final_holds(c, s)
        }),
    decreases proofs.len(),
{
    if proofs.len() > 0 {
        let j = proofs.len() - 1;
        let (init, before) = (proofs.drop_last(), challenges.drop_last());
        assert(init =~= proofs.take(j) && before =~= challenges.take(j));
        assert forall|h: int| 0 <= h < init.len() implies (#[trigger] before[h]).rounds.len() == 2 * c.bits(
            h + 1,
        ) && init[h] == honest_layer(
            c,
            h,
            run_layers(c, true_claim(c, 0, z), init.take(h), before.take(h)).point,
            before[h].rounds,
        ) by {
            assert(challenges[h].rounds.len() == 2 * c.bits(h + 1));
            assert(init.take(h) =~= proofs.take(h) && before.take(h) =~= challenges.take(h));
        }
        lemma_run_complete(c, z, init, before);
        let s = run_layers(c, true_claim(c, 0, z), init, before);
        assert(challenges[j].rounds.len() == 2 * c.bits(j + 1));
        lemma_layer_complete(c, j, s.point, challenges[j].rounds, challenges[j].line);
    }
}

/// Runs the protocol between an honest prover for `circuit` and a verifier
/// who is told that the circuit's outputs are `claimed_outputs` and draws
/// fresh random challenges. Where the claimed outputs are the circuit's own,
/// the run is accepted, whatever the challenges. It is accepted only where
/// the extension of the claimed outputs takes, at the point that the
/// verifier drew, the value of the extension of the circuit's own outputs.
/// It fails where a table cannot be addressed.
pub fn interactive_protocol(circuit: &Circuit, claimed_outputs: &Vec<Fq>) -> (r: Result<
    bool,
    CircuitError,
>)
    ensures
        circuit@.addressable() ==> r is Ok,
        match r {
            Ok(accepted) => {
                &&& values(claimed_outputs@) == circuit@.outputs() ==> accepted
                &&& accepted ==> exists|z: Seq<int>|
                    start_claim(circuit@, values(claimed_outputs@), z) == true_claim(circuit@, 0, z)
            },
            Err(e) => e == CircuitError::TableTooLarge && !circuit@.addressable(),
        },
{
    let ghost c = circuit@;
    let ghost honest = values(claimed_outputs@) == c.outputs();
    let d = circuit.depth();
    let prover = Prover::new(circuit);
    let mut source = ChallengeSource::random();
    let z = draw_point(&mut source, circuit.layer_bit_width(0));
    let mut claim = match Claim::start(circuit, claimed_outputs, &z) {
        Ok(s) => s,
        Err(e) => {
            return Err(e);
        },
    };
    let first = claim.value();
    first.range();
    let ghost s0 = claim@;
    let ghost z0 = values(z@);
    let ghost first_true = s0 == true_claim(c, 0, z0);
    proof {
        if honest {
            assert(padded(c.outputs(), c.bits(0)) =~= c.wire_table(0));
        }
    }
    let mut i: usize = 0;
    while i < d
        invariant
            i <= d,
            d == c.depth(),
            c == circuit@,
            c.well_formed(),
            prover.circuit == circuit,
            honest == (values(claimed_outputs@) == c.outputs()),
            honest ==> claim@ == true_claim(c, i as int, claim@.point) && claim@.point.len() == c.bits(
                i as int,
            ),
            s0 == start_claim(c, values(claimed_outputs@), z0),
            s0.claim == residue(s0.claim),
            first_true == (s0 == true_claim(c, 0, z0)),
            i == 0 ==> claim@ == s0,
            i >= 1 && !claim@.rejected ==> first_true,
        decreases d - i,
    {
        let point = claim.point();
        proof {
            assert(point@.len() == values(point@).len());
        }
        if claim.is_rejected() || claim.layer() != i || point.len() != circuit.layer_bit_width(i) {
            return Ok(false);
        }
        let run = match prover.prove_layer(i, point, &mut source) {
            Ok(run) => run,
            Err(e) => {
                return Err(e);
            },
        };
        proof {
            if honest {
                lemma_layer_complete(
                    c,
                    i as int,
                    claim@.point,
                    values(run.challenges@),
                    run.t.value(),
                );
            }
        }
        let ghost before = claim@;
        match claim.reduce(circuit, &run.proof, &run.challenges, &run.t) {
            Ok(_) => {},
            Err(e) => {
                return Err(e);
            },
        }
        proof {
            if i == 0 && !claim@.rejected {
                lemma_layer_only_true(c, before, values(run.challenges@));
            }
        }
        i = i + 1;
    }
    let r = claim.finish(circuit);
    proof {
        if r == Ok::<bool, CircuitError>(true) {
            assert(first_true);
            assert(start_claim(c, values(claimed_outputs@), z0) == true_claim(c, 0, z0));
        }
    }
    r
}

} // verus!
