//! The honest prover: for each layer a sum-check run and the restriction of
//! the next layer's extension to a line.

use vstd::prelude::*;
use vstd::arithmetic::power2::*;
use crate::field::{
    concat_elements, lemma_congruent_add, lemma_congruent_mul, lemma_residue_range,
    lemma_residues_congruent, residue, residues, slice_elements, values, Fq,
};
use crate::gkr::circuit::{Circuit, CircuitError, CircuitView, GateType};
use crate::gkr::claim::{
    expected_value, layer_holds, layer_step, start_claim, ClaimView, LayerProof, LayerProofView,
};
use crate::gkr::layer::{
    layer_poly, layer_terms, lemma_layer_eval, lemma_layer_poly, lemma_layer_sum,
    lemma_packed_index, repeat_high, repeat_low,
};
use crate::gkr::non_interactive::{
    first_transcript, honest_so_far, is_honest_gkr, lemma_honest_end, lemma_honest_start,
    lemma_honest_step, proof_views, seeded_transcript, Proof,
};
use crate::line::{
    constant_polys, lemma_line_restriction, lemma_restrict_len, line_point, line_restriction,
};
use crate::mle::{lemma_eval_congruent, lemma_eval_congruent_points, mle_eval, Mle};
use crate::sumcheck::interactive::{lemma_completeness, lemma_honest_only_true};
use crate::sumcheck::non_interactive::{fs_challenges, fs_state, lemma_fs_push};
use crate::sumcheck::product_sum::{index_lists, table_views, ProductSum};
use crate::sumcheck::prover::{honest_rounds, prove_rounds};
use crate::transcript::{after_challenge, challenge_of, encode_elements, ChallengeSource};

verus! {

/// What an honest prover sends for layer `i`, given the claim's point `z`
/// and the challenges `rs` of the sum-check run.
pub open spec fn honest_layer(c: CircuitView, i: int, z: Seq<int>, rs: Seq<int>) -> LayerProofView {
    let k1 = c.bits(i + 1) as int;
    let w = c.wire_table(i + 1);
    LayerProofView {
        rounds: honest_rounds(layer_poly(c, i, z), rs),
        line: residues(line_restriction(w, rs.take(k1), rs.skip(k1))),
        left: residue(mle_eval(w, rs.take(k1))),
        right: residue(mle_eval(w, rs.skip(k1))),
    }
}

/// The true claim about layer `i` at the point `z`.
pub open spec fn true_claim(c: CircuitView, i: int, z: Seq<int>) -> ClaimView {
    ClaimView { layer: i as nat, point: z, claim: residue(mle_eval(c.wire_table(i), z)), rejected: false }
}

/// What the verifier expects of an honest prover's two values is the value
/// of the layer's polynomial at the challenges.
pub proof fn lemma_expected_value(c: CircuitView, i: int, z: Seq<int>, rs: Seq<int>)
    requires
        0 <= i < c.depth(),
        z.len() == c.bits(i),
        rs.len() == 2 * c.bits(i + 1),
    ensures
        expected_value(c, i, z + rs, honest_layer(c, i, z, rs).left, honest_layer(c, i, z, rs).right)
            == residue(layer_poly(c, i, z).eval(rs)),
{
    let k1 = c.bits(i + 1);
    let w = c.wire_table(i + 1);
    let bs = rs.take(k1 as int);
    let cs = rs.skip(k1 as int);
    lemma_layer_eval(c, i, z, rs);
    let full = z + rs;
    let add = mle_eval(c.wiring_table(GateType::Add, i), full);
    let mult = mle_eval(c.wiring_table(GateType::Mult, i), full);
    let (left, right) = (mle_eval(w, bs), mle_eval(w, cs));
    lemma_residue_range(add);
    lemma_residue_range(mult);
    lemma_residue_range(left);
    lemma_residue_range(right);
    lemma_congruent_add(residue(left), left, residue(right), right);
    lemma_congruent_mul(residue(left), left, residue(right), right);
    lemma_congruent_mul(residue(add), add, residue(left) + residue(right), left + right);
    lemma_congruent_mul(residue(mult), mult, residue(left) * residue(right), left * right);
    lemma_congruent_add(
        residue(add) * (residue(left) + residue(right)),
        add * (left + right),
        residue(mult) * (residue(left) * residue(right)),
        mult * (left * right),
    );
}

/// An honest prover convinces the verifier of a true claim only: where the
/// checks of a layer pass on what an honest prover sends, the claim about
/// the layer was true.
pub proof fn lemma_layer_only_true(c: CircuitView, s: ClaimView, rs: Seq<int>)
    requires
        c.well_formed(),
        s.claim == residue(s.claim),
        layer_holds(c, s, honest_layer(c, s.layer as int, s.point, rs), rs),
    ensures
        s == true_claim(c, s.layer as int, s.point),
{
    let i = s.layer as int;
    let p = layer_poly(c, i, s.point);
    lemma_layer_poly(c, i, s.point);
    lemma_layer_sum(c, i, s.point);
    lemma_expected_value(c, i, s.point, rs);
    lemma_honest_only_true(p, s.claim, rs);
}

/// Completeness of one layer: from a true claim about layer `i`, what an
/// honest prover sends passes every check, whatever the challenges, and
/// leaves a true claim about layer `i + 1`.
pub proof fn lemma_layer_complete(c: CircuitView, i: int, z: Seq<int>, rs: Seq<int>, t: int)
    requires
        c.well_formed(),
        0 <= i < c.depth(),
        z.len() == c.bits(i),
        rs.len() == 2 * c.bits(i + 1),
    ensures
        layer_holds(c, true_claim(c, i, z), honest_layer(c, i, z, rs), rs),
        ({
            let next = layer_step(c, true_claim(c, i, z), honest_layer(c, i, z, rs), rs, t);
            &&& next.point.len() == c.bits(i + 1)
            &&& next == true_claim(c, i + 1, next.point)
        }),
{
    let k1 = c.bits(i + 1);
    let w = c.wire_table(i + 1);
    let p = layer_poly(c, i, z);
    let s = true_claim(c, i, z);
    let sent = honest_layer(c, i, z, rs);
    let bs = rs.take(k1 as int);
    let cs = rs.skip(k1 as int);
    lemma_layer_poly(c, i, z);
    lemma_layer_sum(c, i, z);
    lemma_completeness(p, rs);
    lemma_expected_value(c, i, z, rs);
    // the line polynomial
    let exact = line_restriction(w, bs, cs);
    lemma_line_restriction(w, bs, cs, t);
    assert forall|x: int| 0 <= x < constant_polys(w).len() implies (#[trigger] constant_polys(w)[x]).len()
        <= 1 by {}
    lemma_restrict_len(constant_polys(w), bs, cs, 1);
    lemma_residues_congruent(exact);
    crate::poly::lemma_eval_congruent(sent.line, exact, 0, 0);
    crate::poly::lemma_eval_congruent(sent.line, exact, 1, 1);
    crate::poly::lemma_eval_congruent(sent.line, exact, t, t);
    // the next claim
    let on_line = line_point(bs, cs, t);
    lemma_residues_congruent(on_line);
    lemma_eval_congruent_points(w, residues(on_line), on_line);
}

/// What a layer's proof adds to the transcript after the sum-check run: the
/// line polynomial and the two values.
pub open spec fn layer_message(p: LayerProofView) -> Seq<int> {
    p.line + seq![p.left, p.right]
}

/// The transcript that began a layer as `bytes`, when the challenge on the
/// line is drawn.
pub open spec fn line_transcript(bytes: Seq<u8>, p: LayerProofView) -> Seq<u8> {
    fs_state(bytes, p.rounds) + encode_elements(layer_message(p))
}

/// A list of `n` empty messages.
pub open spec fn empty_messages(n: nat) -> Seq<Seq<int>> {
    Seq::new(n, |j: int| Seq::<int>::empty())
}

/// Draws the `n` coordinates of a point from `source`, each in answer to an
/// empty message.
pub fn draw_point(source: &mut ChallengeSource, n: usize) -> (z: Vec<Fq>)
    ensures
        z@.len() == n,
        match old(source)@ {
            Some(bytes) => {
                &&& values(z@) == fs_challenges(bytes, empty_messages(n as nat))
                &&& final(source)@ == Some(fs_state(bytes, empty_messages(n as nat)))
            },
            None => final(source)@ is None,
        },
{
    let nothing: Vec<Fq> = Vec::new();
    let mut z: Vec<Fq> = Vec::with_capacity(n);
    let mut j: usize = 0;
    proof {
        assert(values(nothing@) =~= Seq::<int>::empty());
        if old(source)@ is Some {
            assert(values(z@) =~= fs_challenges(old(source)@->0, empty_messages(0)));
        }
    }
    while j < n
        invariant
            j <= n,
            z@.len() == j,
            values(nothing@) == Seq::<int>::empty(),
            match old(source)@ {
                Some(bytes) => {
                    &&& values(z@) == fs_challenges(bytes, empty_messages(j as nat))
                    &&& source@ == Some(fs_state(bytes, empty_messages(j as nat)))
                },
                None => source@ is None,
            },
        decreases n - j,
    {
        let ghost before = values(z@);
        let r = source.next(&nothing);
        z.push(r);
        proof {
            assert(values(z@) =~= before.push(r.value()));
            if old(source)@ is Some {
                lemma_fs_push(old(source)@->0, empty_messages(j as nat), Seq::<int>::empty());
                assert(empty_messages(j as nat).push(Seq::<int>::empty()) =~= empty_messages(
                    (j + 1) as nat,
                ));
            }
        }
        j = j + 1;
    }
    z
}

/// What proving one layer gives: the proof, the challenges that the
/// sum-check run and the line met, and the point of the next claim.
pub struct LayerRun {
    pub proof: LayerProof,
    pub challenges: Vec<Fq>,
    pub t: Fq,
    pub next_point: Vec<Fq>,
}

/// What proving layer `i` from the claim's point `z` gives when the
/// challenges come from a transcript that holds `bytes`: what an honest
/// prover sends under the challenges that the transcript gives it, and the
/// line's point at the last of them.
#[verifier::opaque]
pub open spec fn hashed_run(c: CircuitView, i: int, z: Seq<int>, bytes: Seq<u8>, run: LayerRun) -> bool {
    let k1 = c.bits(i + 1) as int;
    let rs = values(run.challenges@);
    &&& rs.len() == 2 * k1
    &&& run.proof@ == honest_layer(c, i, z, rs)
    &&& values(run.next_point@) == residues(line_point(rs.take(k1), rs.skip(k1), run.t.value()))
    &&& rs == fs_challenges(bytes, run.proof@.rounds)
    &&& run.t.value() == challenge_of(line_transcript(bytes, run.proof@))
}

/// One more layer proved against a transcript keeps the proofs honest.
proof fn lemma_hashed_step(
    c: CircuitView,
    before: Seq<LayerProofView>,
    run: LayerRun,
    z: Seq<int>,
    bytes: Seq<u8>,
)
    requires
        c.well_formed(),
        before.len() < c.depth(),
        honest_so_far(c, before, z, bytes),
        hashed_run(c, before.len() as int, z, bytes, run),
    ensures
        honest_so_far(
            c,
            before.push(run.proof@),
            values(run.next_point@),
            after_challenge(line_transcript(bytes, run.proof@)),
        ),
        run.next_point@.len() == c.bits(before.len() as int + 1),
{
    reveal(hashed_run);
    reveal(honest_so_far);
    lemma_honest_step(c, before, run.proof@, z, bytes, values(run.challenges@), run.t.value());
}

/// The prover of a circuit.
pub struct Prover<'a> {
    pub circuit: &'a Circuit,
}

impl<'a> Prover<'a> {
    /// A prover for `circuit`.
    pub fn new(circuit: &'a Circuit) -> (p: Self)
        ensures
            p.circuit == circuit,
    {
        Self { circuit }
    }

    /// The polynomial whose sum over the hypercube is the value at `z` of
    /// the extension of layer `i`. It fails where a wiring table of the layer
    /// cannot be addressed.
    pub fn layer_polynomial(&self, i: usize, z: &Vec<Fq>) -> (r: Result<(ProductSum, Mle), CircuitError>)
        requires
            i < self.circuit@.depth(),
            z@.len() == self.circuit@.bits(i as int),
        ensures
            match r {
                Ok((p, w)) => {
                    &&& self.circuit@.wiring_fits(i as int)
                    &&& p@ == layer_poly(self.circuit@, i as int, values(z@))
                    &&& w@ == self.circuit@.wire_table(i + 1)
                    &&& w.arity() == self.circuit@.bits(i + 1)
                },
                Err(e) => e == CircuitError::TableTooLarge && !self.circuit@.wiring_fits(i as int),
            },
    {
        let ghost c = self.circuit@;
        let ghost k = c.bits(i as int);
        let ghost k1 = c.bits(i + 1);
        let d = self.circuit.depth();
        let levels = self.circuit.layer_bit_width(i + 1);
        let add = match self.circuit.add_i_mle(i) {
            Ok(m) => m,
            Err(e) => {
                return Err(e);
            },
        };
        let mult = match self.circuit.mult_i_mle(i) {
            Ok(m) => m,
            Err(e) => {
                return Err(e);
            },
        };
        proof {
            lemma_pow2_adds(k, 2 * k1);
            lemma_pow2_adds(k1, k1);
            lemma_pow2_pos(k);
            lemma_pow2_pos(k1);
            assert(pow2(k1) <= pow2(k) * (pow2(k1) * pow2(k1))) by (nonlinear_arith)
                requires
                    pow2(k) >= 1,
                    pow2(k1) >= 1,
            ;
            assert(pow2(2 * k1) <= pow2(k) * pow2(2 * k1)) by (nonlinear_arith)
                requires
                    pow2(k) >= 1,
            ;
        }
        let w = match self.circuit.w_i_mle(i + 1) {
            Ok(m) => m,
            Err(e) => {
                return Err(CircuitError::TableTooLarge);
            },
        };
        let add_z = add.fix_variables(z);
        let mult_z = mult.fix_variables(z);
        let size = add_z.evaluations().len();
        let values_next = w.evaluations();
        let n1 = values_next.len();
        let mut low: Vec<Fq> = Vec::with_capacity(size);
        let mut high: Vec<Fq> = Vec::with_capacity(size);
        let mut y: usize = 0;
        while y < size
            invariant
                y <= size,
                size == pow2(2 * k1),
                n1 == pow2(k1),
                values_next@.len() == n1,
                values(values_next@) == w@,
                low@.len() == y,
                high@.len() == y,
                forall|h: int| 0 <= h < y ==> (#[trigger] low@[h]).value() == repeat_low(w@, k1)[h],
                forall|h: int| 0 <= h < y ==> (#[trigger] high@[h]).value() == repeat_high(w@, k1)[h],
            decreases size - y,
        {
            proof {
                lemma2_to64();
                lemma_packed_index(0, k1, 0, y as int);
            }
            low.push(values_next[y % n1]);
            high.push(values_next[y / n1]);
            y = y + 1;
        }
        proof {
            assert(values(low@) =~= repeat_low(w@, k1));
            assert(values(high@) =~= repeat_high(w@, k1));
        }
        let low_table = Mle::from_table(2 * levels, low);
        let high_table = Mle::from_table(2 * levels, high);
        let mut tables: Vec<Mle> = Vec::with_capacity(4);
        tables.push(add_z);
        tables.push(mult_z);
        tables.push(low_table);
        tables.push(high_table);
        let mut first: Vec<usize> = Vec::with_capacity(2);
        first.push(0);
        first.push(2);
        let mut second: Vec<usize> = Vec::with_capacity(2);
        second.push(0);
        second.push(3);
        let mut third: Vec<usize> = Vec::with_capacity(3);
        third.push(1);
        third.push(2);
        third.push(3);
        let mut terms: Vec<Vec<usize>> = Vec::with_capacity(3);
        terms.push(first);
        terms.push(second);
        terms.push(third);
        proof {
            assert(index_lists(terms@) =~~= layer_terms());
            assert(table_views(tables@) =~~= layer_poly(c, i as int, values(z@)).tables);
        }
        match ProductSum::build(2 * levels, tables, terms) {
            Some(p) => Ok((p, w)),
            None => Err(CircuitError::TableTooLarge),
        }
    }

    /// Proves layer `i` from the claim's point `z`: runs the sum-check
    /// prover against the challenges of `source`, and restricts the next
    /// layer's extension to the line through the two points that the run
    /// ended at. It fails where a wiring table of the layer cannot be
    /// addressed.
    pub fn prove_layer(&self, i: usize, z: &Vec<Fq>, source: &mut ChallengeSource) -> (r: Result<
        LayerRun,
        CircuitError,
    >)
        requires
            i < self.circuit@.depth(),
            z@.len() == self.circuit@.bits(i as int),
        ensures
            match r {
                Ok(run) => {
                    let k1 = self.circuit@.bits(i + 1) as int;
                    let rs = values(run.challenges@);
                    &&& self.circuit@.wiring_fits(i as int)
                    &&& rs.len() == 2 * k1
                    &&& run.proof@ == honest_layer(self.circuit@, i as int, values(z@), rs)
                    &&& values(run.next_point@) == residues(
                        line_point(rs.take(k1), rs.skip(k1), run.t.value()),
                    )
                    &&& match old(source)@ {
                        Some(bytes) => {
                            &&& rs == fs_challenges(bytes, run.proof@.rounds)
                            &&& run.t.value() == challenge_of(line_transcript(bytes, run.proof@))
                            &&& final(source)@ == Some(
                                after_challenge(line_transcript(bytes, run.proof@)),
                            )
                        },
                        None => final(source)@ is None,
                    }
                },
                Err(e) => e == CircuitError::TableTooLarge && !self.circuit@.wiring_fits(i as int),
            },
    {
        let (poly, w) = match self.layer_polynomial(i, z) {
            Ok(pair) => pair,
            Err(e) => {
                return Err(e);
            },
        };
        let d = self.circuit.depth();
        let k1 = self.circuit.layer_bit_width(i + 1);
        let (rounds, challenges) = prove_rounds(&poly, source);
        let bs = slice_elements(&challenges, 0, k1);
        let cs = slice_elements(&challenges, k1, 2 * k1);
        proof {
            assert(values(bs@) =~= values(challenges@).take(k1 as int));
            assert(values(cs@) =~= values(challenges@).skip(k1 as int));
        }
        let line = w.restrict_to_line(&bs, &cs);
        let left = w.evaluate(&bs);
        let right = w.evaluate(&cs);
        let mut ends: Vec<Fq> = Vec::with_capacity(2);
        ends.push(left);
        ends.push(right);
        let message = concat_elements(&line, &ends);
        proof {
            assert(values(ends@) =~= seq![left.value(), right.value()]);
        }
        let t = source.next(&message);
        let mut next_point: Vec<Fq> = Vec::with_capacity(k1);
        let mut j: usize = 0;
        while j < k1
            invariant
                j <= k1,
                bs@.len() == k1,
                cs@.len() == k1,
                next_point@.len() == j,
                forall|h: int|
                    0 <= h < j ==> (#[trigger] next_point@[h]).value() == residue(
                        line_point(values(bs@), values(cs@), t.value())[h],
                    ),
            decreases k1 - j,
        {
            let v = Fq::interpolate(&bs[j], &cs[j], &t);
            next_point.push(v);
            j = j + 1;
        }
        proof {
            assert(values(next_point@) =~= residues(line_point(values(bs@), values(cs@), t.value())));
        }
        Ok(LayerRun { proof: LayerProof { rounds, line, left, right }, challenges, t, next_point })
    }

    /// Proves layer `i` against the challenges of a transcript.
    fn prove_hashed_layer(&self, i: usize, z: &Vec<Fq>, source: &mut ChallengeSource) -> (r: Result<
        LayerRun,
        CircuitError,
    >)
        requires
            i < self.circuit@.depth(),
            z@.len() == self.circuit@.bits(i as int),
            old(source)@ is Some,
        ensures
            match r {
                Ok(run) => {
                    &&& self.circuit@.wiring_fits(i as int)
                    &&& hashed_run(self.circuit@, i as int, values(z@), old(source)@->0, run)
                    &&& final(source)@ == Some(
                        after_challenge(line_transcript(old(source)@->0, run.proof@)),
                    )
                },
                Err(e) => e == CircuitError::TableTooLarge && !self.circuit@.wiring_fits(i as int),
            },
    {
        let r = self.prove_layer(i, z, source);
        proof {
            reveal(hashed_run);
        }
        r
    }

    /// Proves the circuit's outputs without interaction: proves layer after
    /// layer against the challenges of a transcript. It fails where a table
    /// cannot be addressed.
    pub fn prove(&self) -> (r: Result<Proof, CircuitError>)
        ensures
            r is Ok <==> forall|i: int|
                0 <= i < self.circuit@.depth() ==> #[trigger] self.circuit@.wiring_fits(i),
            match r {
                Ok(proof) => is_honest_gkr(self.circuit@, proof@),
                Err(e) => e == CircuitError::TableTooLarge,
            },
    {
        let ghost c = self.circuit@;
        let d = self.circuit.depth();
        let outputs = self.circuit.outputs();
        let mut source = ChallengeSource::hashed(seeded_transcript(d, &outputs));
        let mut z = draw_point(&mut source, self.circuit.layer_bit_width(0));
        let ghost mut bytes = first_transcript(c, c.outputs());
        let mut layers: Vec<LayerProof> = Vec::with_capacity(d);
        let mut i: usize = 0;
        proof {
            lemma_honest_start(c);
            assert(proof_views(layers@) =~= Seq::<LayerProofView>::empty());
        }
        while i < d
            invariant
                i <= d,
                d == c.depth(),
                c == self.circuit@,
                c.well_formed(),
                layers@.len() == i,
                z@.len() == c.bits(i as int),
                source@ == Some(bytes),
                honest_so_far(c, proof_views(layers@), values(z@), bytes),
                forall|j: int| 0 <= j < i ==> #[trigger] c.wiring_fits(j),
            decreases d - i,
        {
            let run = match self.prove_hashed_layer(i, &z, &mut source) {
                Ok(run) => run,
                Err(e) => {
                    return Err(e);
                },
            };
            let ghost before = proof_views(layers@);
            let ghost sent = run.proof@;
            proof {
                lemma_hashed_step(c, before, run, values(z@), bytes);
                bytes = after_challenge(line_transcript(bytes, sent));
            }
            layers.push(run.proof);
            z = run.next_point;
            proof {
                assert(proof_views(layers@) =~= before.push(sent));
            }
            i = i + 1;
        }
        proof {
            lemma_honest_end(c, proof_views(layers@), values(z@), bytes);
        }
        Ok(Proof { layers })
    }
}

} // verus!
