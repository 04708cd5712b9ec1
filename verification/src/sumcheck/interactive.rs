//! The interactive sum-check protocol: its completeness, and what an honest
//! prover can convince the verifier of.

use vstd::prelude::*;
use vstd::arithmetic::power2::*;
use crate::field::{
    lemma_congruent_add, lemma_residues_congruent, random_element, residue, residues, Fq,
};
use crate::poly::{lemma_eval_congruent, poly_eval};
use crate::sumcheck::checker::{Verifier, VerifierView};
use crate::sumcheck::polynomial::ProductSumView;
use crate::sumcheck::product_sum::ProductSum;
use crate::sumcheck::prover::{honest_rounds, Prover};

verus! {

impl ProductSumView {
    /// The values at 0 and at 1 of the round polynomial that an honest
    /// prover sends add up to the sum over the hypercube.
    pub proof fn lemma_sent_round(self)
        requires
            self.well_formed(),
            self.num_vars >= 1,
        ensures
            residue(poly_eval(residues(self.round_poly()), 0) + poly_eval(residues(self.round_poly()), 1))
                == residue(self.sum()),
    {
        let exact = self.round_poly();
        let sent = residues(exact);
        lemma_residues_congruent(exact);
        self.lemma_round_sum();
        lemma_eval_congruent(sent, exact, 0, 0);
        lemma_eval_congruent(sent, exact, 1, 1);
        lemma_congruent_add(poly_eval(sent, 0), poly_eval(exact, 0), poly_eval(sent, 1), poly_eval(exact, 1));
    }

    /// What an honest round does to the verifier: the round polynomial of
    /// the prover's present polynomial passes, and the new claim is the sum of
    /// the polynomial folded by the challenge.
    pub proof fn lemma_honest_round(self, v: VerifierView, r: int)
        requires
            self.well_formed(),
            self.num_vars >= 1,
            !v.rejected,
            v.point.len() < v.num_vars,
            self.degree() <= v.degree,
            v.claim == residue(self.sum()),
        ensures
            v.round_holds(residues(self.round_poly())),
            v.step(residues(self.round_poly()), r).claim == residue(self.fold(r).sum()),
    {
        let exact = self.round_poly();
        let sent = residues(exact);
        lemma_residues_congruent(exact);
        self.lemma_round_eval(r);
        self.lemma_sent_round();
        self.lemma_round_fold(r);
        lemma_eval_congruent(sent, exact, r, r);
    }
}

/// After any number of honest rounds the verifier has rejected nothing, and
/// its claim is the sum of the prover's folded polynomial.
pub proof fn lemma_honest_prefix(poly: ProductSumView, challenges: Seq<int>)
    requires
        poly.well_formed(),
        challenges.len() <= poly.num_vars,
    ensures
        ({
            let v = VerifierView::start(poly.num_vars, poly.degree(), residue(poly.sum())).run(
                honest_rounds(poly, challenges),
                challenges,
            );
            &&& !v.rejected
            &&& v.num_vars == poly.num_vars
            &&& v.degree == poly.degree()
            &&& v.point == challenges
            &&& v.claim == residue(poly.fold_all(challenges).sum())
        }),
    decreases challenges.len(),
{
    let start = VerifierView::start(poly.num_vars, poly.degree(), residue(poly.sum()));
    if challenges.len() > 0 {
        let init = challenges.drop_last();
        let r = challenges.last();
        lemma_honest_prefix(poly, init);
        assert(honest_rounds(poly, challenges).drop_last() =~= honest_rounds(poly, init)) by {
            assert forall|j: int| 0 <= j < init.len() implies challenges.take(j) == init.take(j) by {
                assert(challenges.take(j) =~= init.take(j));
            }
        }
        assert(challenges.take(init.len() as int) =~= init);
        let before = poly.fold_all(init);
        let v = start.run(honest_rounds(poly, init), init);
        poly.lemma_fold_all(init, Seq::<int>::empty());
        before.lemma_honest_round(v, r);
        assert(v.point.push(r) =~= challenges);
    }
}

/// Completeness of the protocol: whatever the challenges, the verifier
/// accepts the round polynomials of an honest prover for the true sum,
/// against the polynomial's true value at the challenges.
pub proof fn lemma_completeness(poly: ProductSumView, challenges: Seq<int>)
    requires
        poly.well_formed(),
        challenges.len() == poly.num_vars,
    ensures
        VerifierView::start(poly.num_vars, poly.degree(), residue(poly.sum())).run(
            honest_rounds(poly, challenges),
            challenges,
        ).accepts(residue(poly.eval(challenges))),
{
    lemma_honest_prefix(poly, challenges);
    poly.lemma_fold_all(challenges, Seq::<int>::empty());
    poly.fold_all(challenges).lemma_sum_no_variable();
    assert(challenges + Seq::<int>::empty() =~= challenges);
}

/// An honest prover convinces the verifier of the true sum only: where the
/// verifier accepts the round polynomials of an honest prover against the
/// polynomial's value at the challenges, the claim was the polynomial's sum.
pub proof fn lemma_honest_only_true(poly: ProductSumView, claim: int, challenges: Seq<int>)
    requires
        poly.well_formed(),
        challenges.len() == poly.num_vars,
        claim == residue(claim),
        VerifierView::start(poly.num_vars, poly.degree(), claim).run(
            honest_rounds(poly, challenges),
            challenges,
        ).accepts(residue(poly.eval(challenges))),
    ensures
        claim == residue(poly.sum()),
{
    let start = VerifierView::start(poly.num_vars, poly.degree(), claim);
    if poly.num_vars == 0 {
        assert(challenges =~= Seq::<int>::empty());
        poly.lemma_sum_no_variable();
    } else {
        start.lemma_first_round(honest_rounds(poly, challenges), challenges);
        assert(challenges.take(0) =~= Seq::<int>::empty());
        poly.lemma_sent_round();
    }
}

/// Runs the protocol between an honest prover for `g` and a verifier who is
/// told that `g` sums to `claimed_sum`, draws a fresh random challenge in each
/// round and in the end evaluates `g` itself. Whatever the challenges, the
/// run is accepted where the claimed sum is the true one, and rejected
/// where it is not: the first round polynomial of an honest prover sums to
/// the true sum.
pub fn interactive_protocol(g: &ProductSum, claimed_sum: &Fq) -> (accepted: bool)
    ensures
        accepted == (claimed_sum.value() == residue(g@.sum())),
{
    let n = g.num_vars();
    claimed_sum.range();
    let mut verifier = Verifier::new(n, g.degree(), *claimed_sum);
    let mut prover = Prover::new(g);
    let ghost honest = claimed_sum.value() == residue(g@.sum());
    let mut j: usize = 0;
    while j < n
        invariant
            j <= n,
            n == g@.num_vars,
            g@.well_formed(),
            verifier@.num_vars == n,
            verifier@.degree == g@.degree(),
            !verifier@.rejected ==> verifier@.point.len() == j,
            prover@.num_vars == n - j,
            j == 0 ==> prover@ == g@ && !verifier@.rejected && verifier@.claim == claimed_sum.value()
                && verifier@.point.len() == 0,
            honest ==> !verifier@.rejected && prover@ == g@.fold_all(verifier@.point) && verifier@.claim
                == residue(prover@.sum()),
            j >= 1 && !honest ==> verifier@.rejected,
            honest == (claimed_sum.value() == residue(g@.sum())),
        decreases n - j,
    {
        let left = prover.rounds_left();
        let round = prover.round();
        let challenge = random_element();
        let ghost before = verifier@;
        let ghost state = prover@;
        verifier.receive_round(&round, &challenge);
        prover = prover.receive_challenge(&challenge);
        proof {
            if honest {
                g@.lemma_fold_all(before.point, Seq::<int>::empty());
                state.lemma_honest_round(before, challenge.value());
                let point = before.point.push(challenge.value());
                assert(point.drop_last() =~= before.point);
            } else if j == 0 {
                state.lemma_sent_round();
            }
        }
        j = j + 1;
    }
    let oracle = g.evaluate_at(verifier.point());
    proof {
        if honest {
            let point = verifier@.point;
            g@.lemma_fold_all(point, Seq::<int>::empty());
            prover@.lemma_sum_no_variable();
            assert(point + Seq::<int>::empty() =~= point);
        } else if n == 0 {
            assert(verifier@.point =~= Seq::<int>::empty());
            g@.lemma_sum_no_variable();
        }
    }
    match oracle {
        Some(value) => verifier.final_check(&value),
        None => false,
    }
}

} // verus!
