//! The verifier of a sum-check run, a state machine that takes one round
//! polynomial and one challenge at a time.

use vstd::prelude::*;
use vstd::arithmetic::power2::*;
use crate::field::{lemma_congruent_add, lemma_residue_range, residue, values, Fq};
use crate::poly::{evaluate, poly_eval};

verus! {

/// What the verifier of a sum-check run knows after some rounds.
pub struct VerifierView {
    /// The number of variables, which is the number of rounds.
    pub num_vars: nat,
    /// The bound on the degree of a round polynomial.
    pub degree: nat,
    /// The claim that the next round has to meet.
    pub claim: int,
    /// The challenges drawn so far.
    pub point: Seq<int>,
    /// Whether a check has failed.
    pub rejected: bool,
}

impl VerifierView {
    /// The round polynomial `g` passes: no check failed before, a round is
    /// still due, `g` has no coefficient beyond the bound, and its values at 0
    /// and 1 add up to the claim.
    pub open spec fn round_holds(self, g: Seq<int>) -> bool {
        &&& !self.rejected
        &&& self.point.len() < self.num_vars
        &&& g.len() <= self.degree + 1
        &&& residue(poly_eval(g, 0) + poly_eval(g, 1)) == self.claim
    }

    /// The state after the round polynomial `g` and the challenge `r`: where
    /// `g` passes, the claim becomes `g(r)`; where not, the run is rejected for
    /// good.
    pub open spec fn step(self, g: Seq<int>, r: int) -> VerifierView {
        if self.round_holds(g) {
            VerifierView {
                num_vars: self.num_vars,
                degree: self.degree,
                claim: residue(poly_eval(g, r)),
                point: self.point.push(r),
                rejected: false,
            }
        } else {
            VerifierView {
                num_vars: self.num_vars,
                degree: self.degree,
                claim: self.claim,
                point: self.point,
                rejected: true,
            }
        }
    }

    /// The final check: every round was held and passed, and the last claim
    /// is the polynomial's value at the challenges.
    pub open spec fn accepts(self, oracle: int) -> bool {
        &&& !self.rejected
        &&& self.point.len() == self.num_vars
        &&& self.claim == oracle
    }

    /// The verifier before the first round.
    pub open spec fn start(num_vars: nat, degree: nat, claim: int) -> VerifierView {
        VerifierView { num_vars, degree, claim, point: Seq::<int>::empty(), rejected: false }
    }

    /// The state after the given round polynomials, each with its challenge.
    pub open spec fn run(self, rounds: Seq<Seq<int>>, challenges: Seq<int>) -> VerifierView
        decreases rounds.len(),
    {
        if rounds.len() == 0 {
            self
        } else {
            self.run(rounds.drop_last(), challenges.drop_last()).step(rounds.last(), challenges.last())
        }
    }
}

impl VerifierView {
    /// Where a run has rejected nothing, its first round passed.
    pub proof fn lemma_first_round(self, rounds: Seq<Seq<int>>, challenges: Seq<int>)
        requires
            rounds.len() >= 1,
            rounds.len() == challenges.len(),
            !self.run(rounds, challenges).rejected,
        ensures
            self.round_holds(rounds[0]),
        decreases rounds.len(),
    {
        let before = self.run(rounds.drop_last(), challenges.drop_last());
        assert(self.run(rounds, challenges) == before.step(rounds.last(), challenges.last()));
        assert(before.round_holds(rounds.last()));
        if rounds.len() > 1 {
            assert(rounds.drop_last()[0] == rounds[0]);
            self.lemma_first_round(rounds.drop_last(), challenges.drop_last());
        } else {
            assert(rounds.drop_last().len() == 0);
            assert(before == self);
            assert(rounds.last() == rounds[0]);
        }
    }
}

/// Where a run of the verifier stands.
#[derive(Clone, Copy, PartialEq, Eq, Structural, Debug)]
pub enum Phase {
    /// This many rounds have passed and another is due.
    Round(usize),
    /// Every round has passed; the final check is due.
    Done,
    /// A check has failed.
    Rejected,
}

/// The coefficients of a list of polynomials.
pub open spec fn round_values(rounds: Seq<Vec<Fq>>) -> Seq<Seq<int>> {
    Seq::new(rounds.len(), |j: int| values(rounds[j]@))
}

/// The verifier of one sum-check run.
pub struct Verifier {
    num_vars: usize,
    degree: usize,
    claim: Fq,
    point: Vec<Fq>,
    rejected: bool,
}

impl Verifier {
    /// The state as the contracts see it.
    pub closed spec fn view(&self) -> VerifierView {
        VerifierView {
            num_vars: self.num_vars as nat,
            degree: self.degree as nat,
            claim: self.claim.value(),
            point: values(self.point@),
            rejected: self.rejected,
        }
    }

    /// A verifier for the claim that a polynomial over `num_vars` variables,
    /// of degree at most `degree` in each, sums to `claimed_sum`.
    pub fn new(num_vars: usize, degree: usize, claimed_sum: Fq) -> (v: Verifier)
        ensures
            v@ == (VerifierView {
                num_vars: num_vars as nat,
                degree: degree as nat,
                claim: claimed_sum.value(),
                point: Seq::<int>::empty(),
                rejected: false,
            }),
    {
        let v = Verifier { num_vars, degree, claim: claimed_sum, point: Vec::new(), rejected: false };
        proof {
            assert(values(v.point@) =~= Seq::<int>::empty());
        }
        v
    }

    /// Takes the round polynomial `g` and the challenge drawn for it.
    pub fn receive_round(&mut self, g: &Vec<Fq>, challenge: &Fq)
        ensures
            final(self)@ == old(self)@.step(values(g@), challenge.value()),
    {
        if self.rejected {
            return ;
        }
        if self.point.len() >= self.num_vars || (g.len() > 0 && g.len() - 1 > self.degree) {
            self.rejected = true;
            return ;
        }
        let at0 = evaluate(g, &Fq::zero());
        let at1 = evaluate(g, &Fq::one());
        let total = at0.add(&at1);
        proof {
            let c = values(g@);
            lemma_residue_range(poly_eval(c, 0));
            lemma_residue_range(poly_eval(c, 1));
            lemma_congruent_add(at0.value(), poly_eval(c, 0), at1.value(), poly_eval(c, 1));
        }
        if !(total == self.claim) {
            self.rejected = true;
            return ;
        }
        self.claim = evaluate(g, challenge);
        self.point.push(*challenge);
        proof {
            assert(values(self.point@) =~= values(old(self).point@).push(challenge.value()));
        }
    }

    /// Where the run stands.
    pub fn phase(&self) -> (p: Phase)
        ensures
            p == (if self@.rejected {
                Phase::Rejected
            } else if self@.point.len() >= self@.num_vars {
                Phase::Done
            } else {
                Phase::Round(self@.point.len() as usize)
            }),
    {
        if self.rejected {
            Phase::Rejected
        } else if self.point.len() >= self.num_vars {
            Phase::Done
        } else {
            Phase::Round(self.point.len())
        }
    }

    /// The claim that the next round, or the final check, has to meet.
    pub fn claim(&self) -> (c: Fq)
        ensures
            c.value() == self@.claim,
    {
        self.claim
    }

    /// The challenges drawn so far.
    pub fn point(&self) -> (p: &Vec<Fq>)
        ensures
            values(p@) == self@.point,
    {
        &self.point
    }

    /// The final check against `oracle`, the polynomial's value at the
    /// challenges.
    pub fn final_check(&self, oracle: &Fq) -> (accepted: bool)
        ensures
            accepted == self@.accepts(oracle.value()),
    {
        !self.rejected && self.point.len() == self.num_vars && self.claim == *oracle
    }

    /// Takes the round polynomials of a proof, each with its challenge.
    pub fn receive_rounds(&mut self, rounds: &Vec<Vec<Fq>>, challenges: &Vec<Fq>)
        requires
            rounds@.len() == challenges@.len(),
        ensures
            final(self)@ == old(self)@.run(round_values(rounds@), values(challenges@)),
    {
        let ghost all = round_values(rounds@);
        let ghost cs = values(challenges@);
        let mut j: usize = 0;
        proof {
            assert(all.take(0).len() == 0);
        }
        while j < rounds.len()
            invariant
                j <= rounds@.len(),
                rounds@.len() == challenges@.len(),
                all == round_values(rounds@),
                cs == values(challenges@),
                self@ == old(self)@.run(all.take(j as int), cs.take(j as int)),
            decreases rounds@.len() - j,
        {
            self.receive_round(&rounds[j], &challenges[j]);
            proof {
                let next = all.take(j + 1);
                assert(next.drop_last() =~= all.take(j as int));
                assert(cs.take(j + 1).drop_last() =~= cs.take(j as int));
                assert(next.last() == values(rounds@[j as int]@));
                assert(cs.take(j + 1).last() == challenges@[j as int].value());
            }
            j = j + 1;
        }
        proof {
            assert(all.take(j as int) =~= all);
            assert(cs.take(j as int) =~= cs);
        }
    }
}

} // verus!
