//! The polynomial of one layer, whose sum over the hypercube is a value of
//! the layer's multilinear extension.
//!
//! For a point `z` it is, over pairs `(b, c)` of positions of the next layer,
//! `add(z, b, c) (W(b) + W(c)) + mult(z, b, c) W(b) W(c)`, where `add` and `mult`
//! extend the wiring predicates and `W` the values of the next layer.

use vstd::prelude::*;
use vstd::arithmetic::power2::*;
use vstd::arithmetic::div_mod::{
    lemma_div_denominator, lemma_fundamental_div_mod, lemma_fundamental_div_mod_converse,
    lemma_small_mod,
};
use crate::field::{
    congruent, lemma_congruent_add, lemma_congruent_mul, lemma_residue_range, residue, values,
};
use crate::gkr::circuit::{bit_field, gate_output, lemma_bit_width_bounds, CircuitView, GateType};
use crate::mle::{
    basis, block, fold_prefix, lemma_eval_congruent, lemma_eval_constant, lemma_fold_prefix_entry,
    lemma_fold_prefix_eval, mle_eval,
};
use crate::sumcheck::polynomial::{column, combine, max_factors, term_product, ProductSumView};
use crate::summation::{
    lemma_sum_add, lemma_sum_congruent, lemma_sum_exchange, lemma_sum_scale, lemma_sum_single,
    lemma_sum_three, lemma_sum_zero, seq_sum,
};

verus! {

/// The table over pairs `(b, c)` of `k1`-bit positions, `b` in the low bits,
/// that holds `w[b]`.
pub open spec fn repeat_low(w: Seq<int>, k1: nat) -> Seq<int> {
    Seq::new(pow2(2 * k1), |y: int| w[y % (pow2(k1) as int)])
}

/// The table over pairs `(b, c)` of `k1`-bit positions, `b` in the low bits,
/// that holds `w[c]`.
pub open spec fn repeat_high(w: Seq<int>, k1: nat) -> Seq<int> {
    Seq::new(pow2(2 * k1), |y: int| w[y / (pow2(k1) as int)])
}

/// The terms of a layer's polynomial over the tables `add`, `mult`, `W(b)`,
/// `W(c)`: `add W(b) + add W(c) + mult W(b) W(c)`.
pub open spec fn layer_terms() -> Seq<Seq<int>> {
    seq![seq![0int, 2int], seq![0int, 3int], seq![1int, 2int, 3int]]
}

/// The polynomial in `(b, c)` whose sum over the hypercube is the value at
/// `z` of the extension of layer `i`.
pub open spec fn layer_poly(c: CircuitView, i: int, z: Seq<int>) -> ProductSumView {
    let k1 = c.bits(i + 1);
    let w = c.wire_table(i + 1);
    ProductSumView {
        num_vars: 2 * k1,
        tables: seq![
            fold_prefix(c.wiring_table(GateType::Add, i), z),
            fold_prefix(c.wiring_table(GateType::Mult, i), z),
            repeat_low(w, k1),
            repeat_high(w, k1),
        ],
        terms: layer_terms(),
    }
}

/// What the terms of a layer's polynomial make of four values.
pub proof fn lemma_layer_combine(col: Seq<int>)
    requires
        col.len() == 4,
    ensures
        combine(layer_terms(), col) == col[0] * col[2] + col[0] * col[3] + col[1] * col[2] * col[3],
{
    let terms = layer_terms();
    let products = Seq::new(terms.len(), |k: int| term_product(terms[k], col));
    lemma_sum_three(products);
    lemma_product_two(0, 2, col);
    lemma_product_two(0, 3, col);
    let t = seq![1int, 2int, 3int];
    assert(t.drop_last() =~= seq![1int, 2int]);
    lemma_product_two(1, 2, col);
    assert(term_product(t, col) == term_product(t.drop_last(), col) * col[t.last()]);
}

/// The product of a term of two tables.
proof fn lemma_product_two(a: int, b: int, col: Seq<int>)
    ensures
        term_product(seq![a, b], col) == col[a] * col[b],
{
    let t = seq![a, b];
    let one = t.drop_last();
    assert(one.drop_last().len() == 0);
    assert(one.last() == a);
    assert(term_product(one, col) == term_product(one.drop_last(), col) * col[a]);
    assert(term_product(t, col) == term_product(one, col) * col[b]);
    assert(1 * col[a] == col[a]) by (nonlinear_arith);
}

/// How the index of a wiring table packs a gate `a` of `k` bits and a pair
/// `y` of two positions of `k1` bits each.
pub proof fn lemma_packed_index(k: nat, k1: nat, a: int, y: int)
    requires
        0 <= a < pow2(k),
        0 <= y < pow2(2 * k1),
    ensures
        ({
            let x = y * (pow2(k) as int) + a;
            let n1 = pow2(k1) as int;
            &&& 0 <= x < pow2(k + 2 * k1)
            &&& bit_field(x, 0, k) == a
            &&& bit_field(x, k, k1) == y % n1
            &&& bit_field(x, k + k1, k1) == y / n1
            &&& 0 <= y % n1 < n1
            &&& 0 <= y / n1 < n1
            &&& y == y % n1 + n1 * (y / n1)
            &&& pow2(2 * k1) == n1 * n1
        }),
{
    let n = pow2(k) as int;
    let n1 = pow2(k1) as int;
    let x = y * n + a;
    lemma2_to64();
    lemma_pow2_pos(k);
    lemma_pow2_pos(k1);
    lemma_pow2_adds(k1, k1);
    lemma_pow2_adds(k, 2 * k1);
    lemma_pow2_adds(k, k1);
    assert(0 <= x < n * (n1 * n1)) by (nonlinear_arith)
        requires
            x == y * n + a,
            0 <= a < n,
            0 <= y < n1 * n1,
    ;
    // x = y n + a with a < n, so x / n = y and x % n = a
    lemma_fundamental_div_mod_converse(x, n, y, a);
    // x / (n n1) = (x / n) / n1 = y / n1, which is below n1 and so its own residue
    lemma_div_denominator(x, n, n1);
    lemma_fundamental_div_mod(y, n1);
    let q = y / n1;
    assert(0 <= q < n1) by (nonlinear_arith)
        requires
            y == n1 * q + y % n1,
            0 <= y % n1 < n1,
            0 <= y < n1 * n1,
            n1 > 0,
    ;
    lemma_small_mod(q as nat, n1 as nat);
    assert(x / 1 == x);
}

/// What gate `a` of layer `i` and the pair `y` of positions of layer `i + 1`
/// contribute to the value at `z`.
pub open spec fn gate_share(c: CircuitView, i: int, z: Seq<int>, a: int, y: int) -> int {
    let n = pow2(c.bits(i)) as int;
    let n1 = pow2(c.bits(i + 1)) as int;
    let w = c.wire_table(i + 1);
    let (l, r) = (w[y % n1], w[y / n1]);
    (c.wiring_table(GateType::Add, i)[y * n + a] * (l + r) + c.wiring_table(GateType::Mult, i)[y * n + a]
        * (l * r)) * basis(a, z)
}

/// The value of a layer's polynomial at the pair `y` is the sum of what the
/// gates contribute there.
pub proof fn lemma_layer_value(c: CircuitView, i: int, z: Seq<int>, y: int)
    requires
        0 <= i < c.depth(),
        z.len() == c.bits(i),
        0 <= y < pow2(2 * c.bits(i + 1)),
    ensures
        congruent(
            layer_poly(c, i, z).value_at(y),
            seq_sum(Seq::new(pow2(c.bits(i)), |a: int| gate_share(c, i, z, a, y))),
        ),
{
    let k = c.bits(i);
    let k1 = c.bits(i + 1);
    let n = pow2(k) as int;
    let n1 = pow2(k1) as int;
    let p = layer_poly(c, i, z);
    let add = c.wiring_table(GateType::Add, i);
    let mult = c.wiring_table(GateType::Mult, i);
    let w = c.wire_table(i + 1);
    let col = column(p.tables, y);
    lemma_layer_combine(col);
    lemma_pow2_adds(k, 2 * k1);
    lemma_pow2_pos(k);
    lemma_fold_prefix_entry(add, z, pow2(2 * k1), y);
    lemma_fold_prefix_entry(mult, z, pow2(2 * k1), y);
    let ea = mle_eval(block(add, y, n), z);
    let em = mle_eval(block(mult, y, n), z);
    let (l, r) = (w[y % n1], w[y / n1]);
    assert(col[2] == l && col[3] == r);
    // entry y of a folded wiring table is the extension at z of the table's
    // block y, so the value is ea (l + r) + em (l r)
    lemma_congruent_mul(col[0], ea, l, l);
    lemma_congruent_mul(col[0], ea, r, r);
    lemma_congruent_mul(col[1], em, l, l);
    lemma_congruent_mul(col[1] * l, em * l, r, r);
    lemma_congruent_add(col[0] * l, ea * l, col[0] * r, ea * r);
    lemma_congruent_add(col[0] * l + col[0] * r, ea * l + ea * r, col[1] * l * r, em * l * r);
    // the shares add up to the same: (l + r) and (l r) come out of the sums
    // that define ea and em
    assert(0 <= y * n && (y + 1) * n <= n * pow2(2 * k1)) by (nonlinear_arith)
        requires
            0 <= y < pow2(2 * k1),
            n > 0,
    ;
    assert((y + 1) * n - y * n == n) by (nonlinear_arith);
    let sa = Seq::new(n as nat, |a: int| add[y * n + a] * basis(a, z));
    let sm = Seq::new(n as nat, |a: int| mult[y * n + a] * basis(a, z));
    assert(sa =~= Seq::new(block(add, y, n).len(), |a: int| block(add, y, n)[a] * basis(a, z)));
    assert(sm =~= Seq::new(block(mult, y, n).len(), |a: int| block(mult, y, n)[a] * basis(a, z)));
    let scaled_a = Seq::new(sa.len(), |a: int| (l + r) * sa[a]);
    let scaled_m = Seq::new(sm.len(), |a: int| (l * r) * sm[a]);
    lemma_sum_scale(sa, l + r);
    lemma_sum_scale(sm, l * r);
    lemma_sum_add(scaled_a, scaled_m);
    let shares = Seq::new(pow2(k), |a: int| gate_share(c, i, z, a, y));
    assert forall|a: int| 0 <= a < n implies shares[a] == scaled_a[a] + scaled_m[a] by {
        let (x, m, b) = (add[y * n + a], mult[y * n + a], basis(a, z));
        assert((x * (l + r) + m * (l * r)) * b == (l + r) * (x * b) + (l * r) * (m * b))
            by (nonlinear_arith);
    }
    assert(shares =~= Seq::new(scaled_a.len(), |a: int| scaled_a[a] + scaled_m[a]));
    assert(ea * l + ea * r + em * l * r == (l + r) * ea + (l * r) * em) by (nonlinear_arith);
}

/// What gate `a` contributes over all pairs is its value times its basis
/// polynomial: the one pair that it reads gives what it computes, and every
/// other pair gives nothing.
pub proof fn lemma_gate_column(c: CircuitView, i: int, z: Seq<int>, a: int)
    requires
        c.well_formed(),
        0 <= i < c.depth(),
        0 <= a < pow2(c.bits(i)),
    ensures
        congruent(
            seq_sum(Seq::new(pow2(2 * c.bits(i + 1)), |y: int| gate_share(c, i, z, a, y))),
            c.wire_table(i)[a] * basis(a, z),
        ),
{
    let k = c.bits(i);
    let k1 = c.bits(i + 1);
    let n = pow2(k) as int;
    let n1 = pow2(k1) as int;
    let size = pow2(2 * k1);
    let w = c.wire_table(i + 1);
    let shares = Seq::new(size, |y: int| gate_share(c, i, z, a, y));
    let b = basis(a, z);
    lemma_bit_width_bounds(c.width(i + 1));
    lemma_pow2_pos(k1);
    lemma_pow2_adds(k1, k1);
    if a < c.width(i) {
        let gate = c.layers[i][a];
        assert(c.gate_holds(i, a));
        let (left, right) = (gate.left as int, gate.right as int);
        // the pair that gate a reads
        let y0 = left + n1 * right;
        assert(0 <= y0 < n1 * n1) by (nonlinear_arith)
            requires
                y0 == left + n1 * right,
                0 <= left < n1,
                0 <= right < n1,
        ;
        assert(y0 == right * n1 + left) by (nonlinear_arith)
            requires
                y0 == left + n1 * right,
        ;
        lemma_fundamental_div_mod_converse(y0, n1, right, left);
        assert forall|y: int| 0 <= y < shares.len() && y != y0 implies shares[y] == 0 by {
            lemma_packed_index(k, k1, a, y);
            let (l, r) = (w[y % n1], w[y / n1]);
            assert(y % n1 != left || y / n1 != right);
            assert((0 * (l + r) + 0 * (l * r)) * b == 0) by (nonlinear_arith);
        }
        lemma_sum_single(shares, y0);
        // at y0 one of the two predicates is 1, and the share is what gate a computes
        lemma_packed_index(k, k1, a, y0);
        let (l, r) = (w[left], w[right]);
        assert(l == c.wire(i + 1, left) && r == c.wire(i + 1, right));
        let out = gate_output(gate.kind, l, r);
        assert(shares[y0] == out * b) by {
            if gate.kind == GateType::Add {
                assert((1 * (l + r) + 0 * (l * r)) * b == (l + r) * b) by (nonlinear_arith);
            } else {
                assert((0 * (l + r) + 1 * (l * r)) * b == (l * r) * b) by (nonlinear_arith);
            }
        }
        assert(c.wire_table(i)[a] == residue(out));
        lemma_residue_range(out);
        lemma_congruent_mul(out, residue(out), b, b);
    } else {
        // a position without a gate: both predicates are 0 everywhere, as is the value
        assert forall|y: int| 0 <= y < shares.len() implies shares[y] == 0 by {
            lemma_packed_index(k, k1, a, y);
            let (l, r) = (w[y % n1], w[y / n1]);
            assert((0 * (l + r) + 0 * (l * r)) * b == 0) by (nonlinear_arith);
        }
        lemma_sum_zero(shares);
        assert(0 * b == 0) by (nonlinear_arith);
    }
}

/// The sum of a layer's polynomial over the hypercube is the value at `z` of
/// the extension of the layer's values.
pub proof fn lemma_layer_sum(c: CircuitView, i: int, z: Seq<int>)
    requires
        c.well_formed(),
        0 <= i < c.depth(),
        z.len() == c.bits(i),
    ensures
        congruent(layer_poly(c, i, z).sum(), mle_eval(c.wire_table(i), z)),
{
    let k = c.bits(i);
    let k1 = c.bits(i + 1);
    let n = pow2(k);
    let size = pow2(2 * k1);
    let p = layer_poly(c, i, z);
    let f = |a: int, y: int| gate_share(c, i, z, a, y);
    let values = Seq::new(size, |y: int| p.value_at(y));
    let rows = Seq::new(size, |y: int| seq_sum(Seq::new(n, |a: int| f(a, y))));
    let cols = Seq::new(n, |a: int| seq_sum(Seq::new(size, |y: int| f(a, y))));
    let terms = Seq::new(n, |a: int| c.wire_table(i)[a] * basis(a, z));
    // the sum over the pairs of the sums over the gates ...
    assert forall|y: int| 0 <= y < size implies congruent(#[trigger] values[y], rows[y]) by {
        lemma_layer_value(c, i, z, y);
        assert(Seq::new(n, |a: int| f(a, y)) =~= Seq::new(n, |a: int| gate_share(c, i, z, a, y)));
    }
    lemma_sum_congruent(values, rows);
    // ... is the sum over the gates of the sums over the pairs ...
    lemma_sum_exchange(f, n, size);
    assert forall|a: int| 0 <= a < n implies congruent(#[trigger] cols[a], terms[a]) by {
        lemma_gate_column(c, i, z, a);
        assert(Seq::new(size, |y: int| f(a, y)) =~= Seq::new(
            size,
            |y: int| gate_share(c, i, z, a, y),
        ));
    }
    lemma_sum_congruent(cols, terms);
    // ... which is the sum that defines the extension of the layer's values
    assert(terms =~= Seq::new(
        c.wire_table(i).len(),
        |a: int| c.wire_table(i)[a] * basis(a, z),
    ));
}

/// The extensions of the two repeated tables at a pair of points are the
/// extension of the table at the first point and at the second.
pub proof fn lemma_repeat_eval(w: Seq<int>, k1: nat, bs: Seq<int>, cs: Seq<int>)
    requires
        w.len() == pow2(k1),
        bs.len() == k1,
        cs.len() == k1,
    ensures
        congruent(mle_eval(repeat_low(w, k1), bs + cs), mle_eval(w, bs)),
        congruent(mle_eval(repeat_high(w, k1), bs + cs), mle_eval(w, cs)),
{
    let n1 = pow2(k1) as int;
    lemma_pow2_adds(k1, k1);
    lemma_pow2_pos(k1);
    let low = repeat_low(w, k1);
    let high = repeat_high(w, k1);
    lemma_fold_prefix_eval(low, bs, cs, pow2(k1));
    lemma_fold_prefix_eval(high, bs, cs, pow2(k1));
    let fl = fold_prefix(low, bs);
    let fh = fold_prefix(high, bs);
    let e = mle_eval(w, bs);
    let constant = Seq::new(pow2(k1), |y: int| e);
    // every block of the first table is w itself: folding by bs leaves the
    // value of w at bs everywhere
    assert forall|y: int| 0 <= y < n1 implies congruent(#[trigger] fl[y], constant[y]) by {
        lemma_fold_prefix_entry(low, bs, pow2(k1), y);
        assert(0 <= y * n1 && (y + 1) * n1 <= n1 * n1 && (y + 1) * n1 - y * n1 == n1)
            by (nonlinear_arith)
            requires
                0 <= y < n1,
        ;
        assert forall|j: int| 0 <= j < n1 implies #[trigger] block(low, y, n1)[j] == w[j] by {
            lemma_fundamental_div_mod_converse(y * n1 + j, n1, y, j);
        }
        assert(block(low, y, n1) =~= w);
    }
    // block y of the second table holds w[y] everywhere: folding by bs leaves w
    assert forall|y: int| 0 <= y < n1 implies congruent(#[trigger] fh[y], w[y]) by {
        lemma_fold_prefix_entry(high, bs, pow2(k1), y);
        assert(0 <= y * n1 && (y + 1) * n1 <= n1 * n1 && (y + 1) * n1 - y * n1 == n1)
            by (nonlinear_arith)
            requires
                0 <= y < n1,
        ;
        let here = block(high, y, n1);
        assert forall|j: int| 0 <= j < here.len() implies #[trigger] here[j] == w[y] by {
            lemma_fundamental_div_mod_converse(y * n1 + j, n1, y, j);
        }
        lemma_eval_constant(here, bs, w[y]);
    }
    lemma_eval_congruent(fl, constant, cs);
    lemma_eval_constant(constant, cs, e);
    lemma_eval_congruent(fh, w, cs);
}

/// A layer's polynomial is well formed, and of degree at most 3 in each
/// variable.
pub proof fn lemma_layer_poly(c: CircuitView, i: int, z: Seq<int>)
    requires
        0 <= i < c.depth(),
        z.len() == c.bits(i),
    ensures
        layer_poly(c, i, z).well_formed(),
        layer_poly(c, i, z).degree() == 3,
{
    let k = c.bits(i);
    let k1 = c.bits(i + 1);
    let p = layer_poly(c, i, z);
    lemma_pow2_adds(k, 2 * k1);
    lemma_fold_prefix_eval(c.wiring_table(GateType::Add, i), z, Seq::<int>::empty(), pow2(2 * k1));
    lemma_fold_prefix_eval(c.wiring_table(GateType::Mult, i), z, Seq::<int>::empty(), pow2(2 * k1));
    let terms = layer_terms();
    let two = terms.drop_last();
    let one = two.drop_last();
    assert(one.drop_last().len() == 0);
    assert(max_factors(one.drop_last()) == 0);
    assert(one.last().len() == 2 && two.last().len() == 2 && terms.last().len() == 3);
    assert(max_factors(one) == 2);
    assert(max_factors(two) == 2);
    assert(max_factors(terms) == 3);
}

/// The value of a layer's polynomial at a pair of points `(b, c)`, given as
/// `rs`, is what the wiring predicates at `(z, b, c)` make of the values of
/// the next layer's extension at `b` and at `c`.
pub proof fn lemma_layer_eval(c: CircuitView, i: int, z: Seq<int>, rs: Seq<int>)
    requires
        0 <= i < c.depth(),
        z.len() == c.bits(i),
        rs.len() == 2 * c.bits(i + 1),
    ensures
        ({
            let k1 = c.bits(i + 1) as int;
            let w = c.wire_table(i + 1);
            let add = mle_eval(c.wiring_table(GateType::Add, i), z + rs);
            let mult = mle_eval(c.wiring_table(GateType::Mult, i), z + rs);
            let left = mle_eval(w, rs.take(k1));
            let right = mle_eval(w, rs.skip(k1));
            congruent(layer_poly(c, i, z).eval(rs), add * (left + right) + mult * (left * right))
        }),
{
    let k = c.bits(i);
    let k1 = c.bits(i + 1);
    let w = c.wire_table(i + 1);
    let p = layer_poly(c, i, z);
    let evals = Seq::new(p.tables.len(), |t: int| mle_eval(p.tables[t], rs));
    lemma_layer_combine(evals);
    lemma_pow2_adds(k, 2 * k1);
    lemma_fold_prefix_eval(c.wiring_table(GateType::Add, i), z, rs, pow2(2 * k1));
    lemma_fold_prefix_eval(c.wiring_table(GateType::Mult, i), z, rs, pow2(2 * k1));
    let bs = rs.take(k1 as int);
    let cs = rs.skip(k1 as int);
    assert(bs + cs =~= rs);
    lemma_repeat_eval(w, k1, bs, cs);
    let add = mle_eval(c.wiring_table(GateType::Add, i), z + rs);
    let mult = mle_eval(c.wiring_table(GateType::Mult, i), z + rs);
    let left = mle_eval(w, bs);
    let right = mle_eval(w, cs);
    lemma_congruent_mul(evals[0], add, evals[2], left);
    lemma_congruent_mul(evals[0], add, evals[3], right);
    lemma_congruent_mul(evals[1], mult, evals[2], left);
    lemma_congruent_mul(evals[1] * evals[2], mult * left, evals[3], right);
    lemma_congruent_add(evals[0] * evals[2], add * left, evals[0] * evals[3], add * right);
    lemma_congruent_add(
        evals[0] * evals[2] + evals[0] * evals[3],
        add * left + add * right,
        evals[1] * evals[2] * evals[3],
        mult * left * right,
    );
    assert(add * left + add * right + mult * left * right == add * (left + right) + mult * (left
        * right)) by (nonlinear_arith);
}

} // verus!
