//! The verifier's side of one layer: a claim about a layer's extension and
//! the step that turns it into a claim about the next layer.

use vstd::prelude::*;
use vstd::arithmetic::power2::*;
use crate::field::{
    concat_elements, lemma_congruent_add, lemma_congruent_mul, lemma_residue_range, residue,
    residues, slice_elements, values, Fq,
};
use crate::gkr::circuit::{Circuit, CircuitError, CircuitView, GateType};
use crate::line::line_point;
use crate::mle::{mle_eval, Mle};
use crate::poly::poly_eval;
use crate::sumcheck::checker::{round_values, Verifier, VerifierView};

verus! {

/// What the prover sends for one layer, as the contracts see it.
pub struct LayerProofView {
    /// The round polynomials of the sum-check run.
    pub rounds: Seq<Seq<int>>,
    /// The restriction of the next layer's extension to the line through the
    /// two points that the sum-check run ended at.
    pub line: Seq<int>,
    /// The value of the next layer's extension at the first point.
    pub left: int,
    /// Its value at the second point.
    pub right: int,
}

/// The verifier's state: the claim that the extension of layer `layer` takes
/// the value `claim` at `point`, or that the proof is rejected.
pub struct ClaimView {
    pub layer: nat,
    pub point: Seq<int>,
    pub claim: int,
    pub rejected: bool,
}

/// What the final check of the layer's sum-check run is held against: what
/// the wiring predicates at `(z, b, c)` make of the two values that the
/// prover sent.
pub open spec fn expected_value(c: CircuitView, i: int, full: Seq<int>, left: int, right: int) -> int {
    let add = residue(mle_eval(c.wiring_table(GateType::Add, i), full));
    let mult = residue(mle_eval(c.wiring_table(GateType::Mult, i), full));
    residue(add * (left + right) + mult * (left * right))
}

/// The claim and the proof have the shape that the layer asks for: the
/// claim is not rejected and stands for a gate layer, at a point with one
/// coordinate for each bit of a position, and there is one round polynomial
/// and one challenge for each bit of a pair of positions of the next layer.
pub open spec fn needs_tables(c: CircuitView, s: ClaimView, proof: LayerProofView, rs: Seq<int>) -> bool {
    let i = s.layer as int;
    &&& !s.rejected
    &&& i < c.depth()
    &&& s.point.len() == c.bits(i)
    &&& rs.len() == 2 * c.bits(i + 1)
    &&& proof.rounds.len() == rs.len()
}

/// The checks of one layer pass: claim and proof have the layer's shape, the
/// sum-check verifier accepts the round polynomials under the challenges
/// `rs` against the expected value, and the line polynomial has no more
/// coefficients than its degree allows and takes the two values sent at its
/// ends.
pub open spec fn layer_holds(c: CircuitView, s: ClaimView, proof: LayerProofView, rs: Seq<int>) -> bool {
    let i = s.layer as int;
    let k1 = c.bits(i + 1);
    &&& needs_tables(c, s, proof, rs)
    &&& VerifierView::start(2 * k1, 3, s.claim).run(proof.rounds, rs).accepts(
        expected_value(c, i, s.point + rs, proof.left, proof.right),
    )
    &&& proof.line.len() <= k1 + 1
    &&& residue(poly_eval(proof.line, 0)) == proof.left
    &&& residue(poly_eval(proof.line, 1)) == proof.right
}

/// The state after one layer: where the checks pass, the claim that the
/// next layer's extension takes the line polynomial's value at `t` at the
/// line's point at `t`; where not, rejection.
pub open spec fn layer_step(
    c: CircuitView,
    s: ClaimView,
    proof: LayerProofView,
    rs: Seq<int>,
    t: int,
) -> ClaimView {
    if layer_holds(c, s, proof, rs) {
        let k1 = c.bits(s.layer as int + 1) as int;
        ClaimView {
            layer: (s.layer + 1) as nat,
            point: residues(line_point(rs.take(k1), rs.skip(k1), t)),
            claim: residue(poly_eval(proof.line, t)),
            rejected: false,
        }
    } else {
        ClaimView { layer: s.layer, point: s.point, claim: s.claim, rejected: true }
    }
}

/// What the prover sends for one layer.
pub struct LayerProof {
    /// The round polynomials of the sum-check run.
    pub rounds: Vec<Vec<Fq>>,
    /// The restriction of the next layer's extension to the line through the
    /// two points that the sum-check run ended at.
    pub line: Vec<Fq>,
    /// The value of the next layer's extension at the first point.
    pub left: Fq,
    /// Its value at the second point.
    pub right: Fq,
}

impl LayerProof {
    /// The representatives of what was sent.
    pub open spec fn view(&self) -> LayerProofView {
        LayerProofView {
            rounds: round_values(self.rounds@),
            line: values(self.line@),
            left: self.left.value(),
            right: self.right.value(),
        }
    }
}

/// The values `outputs` as a table over `k` bits, 0 where there is none.
pub open spec fn padded(outputs: Seq<int>, k: nat) -> Seq<int> {
    Seq::new(
        pow2(k),
        |g: int|
            if g < outputs.len() {
                outputs[g]
            } else {
                0
            },
    )
}

/// The claim that the protocol starts from: that the extension of the
/// claimed outputs takes its value at the point `z`. It is rejected at once
/// where there are not as many outputs as the circuit has, or `z` has not one
/// coordinate for each bit of an output's position.
pub open spec fn start_claim(c: CircuitView, outputs: Seq<int>, z: Seq<int>) -> ClaimView {
    if outputs.len() == c.width(0) && z.len() == c.bits(0) {
        ClaimView {
            layer: 0,
            point: z,
            claim: residue(mle_eval(padded(outputs, c.bits(0)), z)),
            rejected: false,
        }
    } else {
        ClaimView { layer: 0, point: z, claim: 0, rejected: true }
    }
}

/// The last check: every layer was reduced, and the claim that is left is
/// true of the inputs.
pub open spec fn final_holds(c: CircuitView, s: ClaimView) -> bool {
    &&& !s.rejected
    &&& s.layer == c.depth()
    &&& s.point.len() == c.bits(c.depth() as int)
    &&& s.claim == residue(mle_eval(c.wire_table(c.depth() as int), s.point))
}

/// The verifier's state: a claim about one layer, which each layer's proof
/// turns into a claim about the next.
pub struct Claim {
    layer: usize,
    point: Vec<Fq>,
    claim: Fq,
    rejected: bool,
}

impl Claim {
    /// The claim as the contracts see it.
    pub closed spec fn view(&self) -> ClaimView {
        ClaimView {
            layer: self.layer as nat,
            point: values(self.point@),
            claim: self.claim.value(),
            rejected: self.rejected,
        }
    }

    /// The claim about the output layer that `outputs` and the point `z`
    /// make. It fails where the table of the outputs cannot be addressed.
    pub fn start(circuit: &Circuit, outputs: &Vec<Fq>, z: &Vec<Fq>) -> (r: Result<Claim, CircuitError>)
        ensures
            match r {
                Ok(s) => circuit@.values_fit(0) && s@ == start_claim(
                    circuit@,
                    values(outputs@),
                    values(z@),
                ),
                Err(e) => e == CircuitError::TableTooLarge && !circuit@.values_fit(0),
            },
    {
        let k = circuit.layer_bit_width(0);
        let size = match crate::mle::pow2_checked(k) {
            Some(n) => n,
            None => {
                return Err(CircuitError::TableTooLarge);
            },
        };
        let point = slice_elements(z, 0, z.len());
        proof {
            assert(point@ =~= z@);
        }
        if outputs.len() != circuit.width(0) || z.len() != k {
            return Ok(Claim { layer: 0, point, claim: Fq::zero(), rejected: true });
        }
        let mut table: Vec<Fq> = Vec::new();
        let mut g: usize = 0;
        while g < size
            invariant
                g <= size,
                table@.len() == g,
                forall|h: int|
                    0 <= h < g ==> (#[trigger] table@[h]).value() == padded(values(outputs@), k as nat)[h],
                size == pow2(k as nat),
            decreases size - g,
        {
            let v = if g < outputs.len() {
                outputs[g]
            } else {
                Fq::zero()
            };
            table.push(v);
            g = g + 1;
        }
        proof {
            assert(values(table@) =~= padded(values(outputs@), k as nat));
        }
        let claim = crate::mle::Mle::from_table(k, table).evaluate(z);
        Ok(Claim { layer: 0, point, claim, rejected: false })
    }

    /// The layer that the claim is about.
    pub fn layer(&self) -> (i: usize)
        ensures
            i == self@.layer,
    {
        self.layer
    }

    /// The point of the claim.
    pub fn point(&self) -> (z: &Vec<Fq>)
        ensures
            values(z@) == self@.point,
    {
        &self.point
    }

    /// The claimed value.
    pub fn value(&self) -> (v: Fq)
        ensures
            v.value() == self@.claim,
    {
        self.claim
    }

    /// Whether a check has failed.
    pub fn is_rejected(&self) -> (r: bool)
        ensures
            r == self@.rejected,
    {
        self.rejected
    }

    /// Checks the proof of the claim's layer under the challenges `rs` of the
    /// sum-check run and the challenge `t` on the line, and turns the claim
    /// into one about the next layer, or rejects. It fails, and leaves the
    /// claim as it is, where a wiring table of the layer cannot be addressed.
    pub fn reduce(&mut self, circuit: &Circuit, proof: &LayerProof, rs: &Vec<Fq>, t: &Fq) -> (r: Result<
        (),
        CircuitError,
    >)
        ensures
            r is Err <==> needs_tables(circuit@, old(self)@, proof@, values(rs@)) && !circuit@.wiring_fits(
                old(self)@.layer as int,
            ),
            match r {
                Ok(_) => final(self)@ == layer_step(
                    circuit@,
                    old(self)@,
                    proof@,
                    values(rs@),
                    t.value(),
                ),
                Err(e) => e == CircuitError::TableTooLarge && final(self)@ == old(self)@,
            },
    {
        let i = self.layer;
        if self.rejected || i >= circuit.depth() {
            self.rejected = true;
            return Ok(());
        }
        let k = circuit.layer_bit_width(i);
        let k1 = circuit.layer_bit_width(i + 1);
        if self.point.len() != k || rs.len() != 2 * k1 || proof.rounds.len() != rs.len() {
            self.rejected = true;
            return Ok(());
        }
        let add = match circuit.add_i_mle(i) {
            Ok(m) => m,
            Err(e) => {
                return Err(e);
            },
        };
        let mult = match circuit.mult_i_mle(i) {
            Ok(m) => m,
            Err(e) => {
                return Err(e);
            },
        };
        let full = concat_elements(&self.point, rs);
        let add_v = add.evaluate(&full);
        let mult_v = mult.evaluate(&full);
        let both = proof.left.add(&proof.right);
        let product = proof.left.mul(&proof.right);
        let expected = add_v.mul(&both).add(&mult_v.mul(&product));
        proof {
            let (l, r) = (proof.left.value(), proof.right.value());
            lemma_residue_range(l + r);
            lemma_residue_range(l * r);
            lemma_residue_range(add_v.value() * both.value());
            lemma_residue_range(mult_v.value() * product.value());
            lemma_congruent_mul(add_v.value(), add_v.value(), both.value(), l + r);
            lemma_congruent_mul(mult_v.value(), mult_v.value(), product.value(), l * r);
            lemma_congruent_add(
                residue(add_v.value() * both.value()),
                add_v.value() * (l + r),
                residue(mult_v.value() * product.value()),
                mult_v.value() * (l * r),
            );
            assert(expected.value() == expected_value(circuit@, i as int, values(full@), l, r));
        }
        let mut verifier = Verifier::new(2 * k1, 3, self.claim);
        verifier.receive_rounds(&proof.rounds, rs);
        let summed = verifier.final_check(&expected);
        let short = proof.line.len() <= k1 + 1;
        let at0 = crate::poly::evaluate(&proof.line, &Fq::zero());
        let at1 = crate::poly::evaluate(&proof.line, &Fq::one());
        if !(summed && short && at0 == proof.left && at1 == proof.right) {
            self.rejected = true;
            return Ok(());
        }
        let mut next: Vec<Fq> = Vec::with_capacity(k1);
        let mut j: usize = 0;
        let ghost bs = values(rs@).take(k1 as int);
        let ghost cs = values(rs@).skip(k1 as int);
        while j < k1
            invariant
                j <= k1,
                k1 <= usize::BITS,
                rs@.len() == 2 * k1,
                bs == values(rs@).take(k1 as int),
                cs == values(rs@).skip(k1 as int),
                next@.len() == j,
                forall|h: int|
                    0 <= h < j ==> (#[trigger] next@[h]).value() == residue(line_point(bs, cs, t.value())[h]),
            decreases k1 - j,
        {
            let v = Fq::interpolate(&rs[j], &rs[k1 + j], t);
            next.push(v);
            j = j + 1;
        }
        proof {
            assert(values(next@) =~= residues(line_point(bs, cs, t.value())));
        }
        self.claim = crate::poly::evaluate(&proof.line, t);
        self.point = next;
        self.layer = i + 1;
        Ok(())
    }

    /// The last check, against the extension of the inputs. It fails where
    /// the table of the inputs cannot be addressed.
    pub fn finish(&self, circuit: &Circuit) -> (r: Result<bool, CircuitError>)
        ensures
            match r {
                Ok(accepted) => circuit@.values_fit(circuit@.depth() as int) && accepted == final_holds(
                    circuit@,
                    self@,
                ),
                Err(e) => e == CircuitError::TableTooLarge && !circuit@.values_fit(
                    circuit@.depth() as int,
                ),
            },
    {
        let d = circuit.depth();
        let inputs = match circuit.w_i_mle(d) {
            Ok(m) => m,
            Err(e) => {
                return Err(e);
            },
        };
        if self.rejected || self.layer != d || self.point.len() != inputs.num_vars() {
            return Ok(false);
        }
        let value = inputs.evaluate(&self.point);
        Ok(value == self.claim)
    }
}

} // verus!
