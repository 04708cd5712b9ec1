//! The honest prover of a sum-check run, which keeps the polynomial folded
//! by the challenges received so far.

use vstd::prelude::*;
use vstd::arithmetic::power2::*;
use crate::field::{residue, residues, values, Fq};
use crate::sumcheck::checker::round_values;
use crate::sumcheck::non_interactive::{fs_challenges, fs_state, lemma_fs_push};
use crate::sumcheck::polynomial::ProductSumView;
use crate::sumcheck::product_sum::ProductSum;
use crate::transcript::ChallengeSource;

verus! {

/// The round polynomials of an honest prover who meets the challenges
/// `challenges`: in each round that of the polynomial folded by the
/// challenges before it.
pub open spec fn honest_rounds(poly: ProductSumView, challenges: Seq<int>) -> Seq<Seq<int>> {
    Seq::new(challenges.len(), |j: int| residues(poly.fold_all(challenges.take(j)).round_poly()))
}

/// One more challenge leaves the earlier honest round polynomials as they
/// were and adds that of the polynomial folded so far.
pub proof fn lemma_honest_push(poly: ProductSumView, challenges: Seq<int>, r: int)
    ensures
        honest_rounds(poly, challenges.push(r)) == honest_rounds(poly, challenges).push(
            residues(poly.fold_all(challenges).round_poly()),
        ),
        poly.fold_all(challenges.push(r)) == poly.fold_all(challenges).fold(r),
{
    let more = challenges.push(r);
    assert(more.drop_last() =~= challenges);
    assert forall|j: int| 0 <= j < more.len() implies honest_rounds(poly, more)[j] == honest_rounds(
        poly,
        challenges,
    ).push(residues(poly.fold_all(challenges).round_poly()))[j] by {
        if j < challenges.len() {
            assert(more.take(j) =~= challenges.take(j));
        } else {
            assert(more.take(j) =~= challenges);
        }
    }
    assert(honest_rounds(poly, more) =~= honest_rounds(poly, challenges).push(
        residues(poly.fold_all(challenges).round_poly()),
    ));
}

/// The prover of one sum-check run: the polynomial, folded by the challenges
/// received so far.
pub struct Prover {
    poly: ProductSum,
}

impl Prover {
    /// The polynomial as it stands, over the variables not yet bound.
    pub closed spec fn view(&self) -> ProductSumView {
        self.poly@
    }

    /// A prover for the sum of `g` over the hypercube.
    pub fn new(g: &ProductSum) -> (p: Prover)
        ensures
            p@ == g@,
    {
        Prover { poly: g.duplicate() }
    }

    /// The number of rounds still due.
    pub fn rounds_left(&self) -> (n: usize)
        ensures
            n == self@.num_vars,
            self@.well_formed(),
    {
        self.poly.num_vars()
    }

    /// The sum of the polynomial as it stands over the hypercube: before the
    /// first round, the sum to be proved.
    pub fn claimed_sum(&self) -> (h: Fq)
        ensures
            h.value() == residue(self@.sum()),
    {
        self.poly.sum()
    }

    /// The round polynomial of the round that is due.
    pub fn round(&self) -> (g: Vec<Fq>)
        requires
            self@.num_vars >= 1,
        ensures
            values(g@) == residues(self@.round_poly()),
    {
        self.poly.round_polynomial()
    }

    /// Binds the variable of the round to the verifier's challenge.
    pub fn receive_challenge(self, r: &Fq) -> (p: Prover)
        requires
            self@.num_vars >= 1,
        ensures
            p@ == self@.fold(r.value()),
    {
        Prover { poly: self.poly.fold(r) }
    }
}

/// Runs an honest prover for `g` against the challenges of `source`, and
/// returns the round polynomials with the challenges that answered them.
pub fn prove_rounds(g: &ProductSum, source: &mut ChallengeSource) -> (r: (Vec<Vec<Fq>>, Vec<Fq>))
    ensures
        r.1@.len() == g@.num_vars,
        r.0@.len() == g@.num_vars,
        round_values(r.0@) == honest_rounds(g@, values(r.1@)),
        match old(source)@ {
            Some(bytes) => {
                &&& values(r.1@) == fs_challenges(bytes, round_values(r.0@))
                &&& final(source)@ == Some(fs_state(bytes, round_values(r.0@)))
            },
            None => final(source)@ is None,
        },
{
    let n = g.num_vars();
    let mut prover = Prover::new(g);
    let mut rounds: Vec<Vec<Fq>> = Vec::with_capacity(n);
    let mut challenges: Vec<Fq> = Vec::with_capacity(n);
    let mut j: usize = 0;
    proof {
        assert(round_values(rounds@) =~= honest_rounds(g@, values(challenges@)));
        assert(values(challenges@) =~= Seq::<int>::empty());
        if old(source)@ is Some {
            assert(values(challenges@) =~= fs_challenges(old(source)@->0, round_values(rounds@)));
        }
    }
    while j < n
        invariant
            j <= n,
            n == g@.num_vars,
            g@.well_formed(),
            rounds@.len() == j,
            challenges@.len() == j,
            prover@ == g@.fold_all(values(challenges@)),
            round_values(rounds@) == honest_rounds(g@, values(challenges@)),
            match old(source)@ {
                Some(bytes) => {
                    &&& values(challenges@) == fs_challenges(bytes, round_values(rounds@))
                    &&& source@ == Some(fs_state(bytes, round_values(rounds@)))
                },
                None => source@ is None,
            },
        decreases n - j,
    {
        proof {
            g@.lemma_fold_all(values(challenges@), Seq::<int>::empty());
        }
        let round = prover.round();
        let challenge = source.next(&round);
        let ghost before_rounds = round_values(rounds@);
        let ghost before_challenges = values(challenges@);
        prover = prover.receive_challenge(&challenge);
        proof {
            lemma_honest_push(g@, before_challenges, challenge.value());
            if old(source)@ is Some {
                lemma_fs_push(old(source)@->0, before_rounds, values(round@));
            }
        }
        rounds.push(round);
        challenges.push(challenge);
        proof {
            assert(round_values(rounds@) =~= before_rounds.push(values(round@)));
            assert(values(challenges@) =~= before_challenges.push(challenge.value()));
        }
        j = j + 1;
    }
    (rounds, challenges)
}

} // verus!
