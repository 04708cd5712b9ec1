//! Sums of products of multilinear extensions, as the contracts see them:
//! their values, their sum over the hypercube, their round polynomial, and
//! what folding a variable does to each.

use vstd::prelude::*;
use vstd::arithmetic::power2::*;
use crate::field::{
    congruent, congruent_seq, lemma_congruent_mul, lemma_residue_range, residues, values,
};
use crate::mle::{fold_table, lemma_eval_no_variable, lemma_fold_then_eval, mle_eval};
use crate::poly::{lemma_eval_add, lemma_eval_mul_linear, poly_add, poly_eval, poly_mul_linear};
use crate::summation::{lemma_sum_add, lemma_sum_congruent, lemma_sum_pairs, seq_sum};

verus! {

/// The product of the values that `vals` gives to the tables of a term.
pub open spec fn term_product(term: Seq<int>, vals: Seq<int>) -> int
    decreases term.len(),
{
    if term.len() == 0 {
        1
    } else {
        term_product(term.drop_last(), vals) * vals[term.last()]
    }
}

/// The sum over the terms of their products, where `vals` gives a value to
/// each table.
pub open spec fn combine(terms: Seq<Seq<int>>, vals: Seq<int>) -> int {
    seq_sum(Seq::new(terms.len(), |k: int| term_product(terms[k], vals)))
}

/// The entries at index `x` of all the tables.
pub open spec fn column(tables: Seq<Seq<int>>, x: int) -> Seq<int> {
    Seq::new(tables.len(), |t: int| tables[t][x])
}

/// The values at the point `r` of the lines through `lo` at 0 and `hi` at 1.
pub open spec fn line_values(lo: Seq<int>, hi: Seq<int>, r: int) -> Seq<int> {
    Seq::new(lo.len(), |t: int| lo[t] + r * (hi[t] - lo[t]))
}

/// The product of the lines `lo[t] + X (hi[t] - lo[t])` over the tables `t` of
/// a term, as a polynomial in `X`.
pub open spec fn term_poly(term: Seq<int>, lo: Seq<int>, hi: Seq<int>) -> Seq<int>
    decreases term.len(),
{
    if term.len() == 0 {
        seq![1int]
    } else {
        let t = term.last();
        poly_mul_linear(term_poly(term.drop_last(), lo, hi), lo[t], hi[t] - lo[t])
    }
}

/// The sum of a list of polynomials.
pub open spec fn poly_sum(ps: Seq<Seq<int>>) -> Seq<int>
    decreases ps.len(),
{
    if ps.len() == 0 {
        Seq::<int>::empty()
    } else {
        poly_add(poly_sum(ps.drop_last()), ps.last())
    }
}

/// The largest number of tables in a term.
pub open spec fn max_factors(terms: Seq<Seq<int>>) -> nat
    decreases terms.len(),
{
    if terms.len() == 0 {
        0
    } else if terms.last().len() >= max_factors(terms.drop_last()) {
        terms.last().len()
    } else {
        max_factors(terms.drop_last())
    }
}

/// A sum of products of multilinear extensions, as the contracts see it.
pub struct ProductSumView {
    pub num_vars: nat,
    pub tables: Seq<Seq<int>>,
    pub terms: Seq<Seq<int>>,
}

impl ProductSumView {
    /// Every table covers the hypercube, and every term names tables that
    /// exist.
    pub open spec fn well_formed(self) -> bool {
        &&& forall|t: int| 0 <= t < self.tables.len() ==> (#[trigger] self.tables[t]).len() == pow2(self.num_vars)
        &&& forall|k: int, i: int|
            0 <= k < self.terms.len() && 0 <= i < self.terms[k].len() ==> 0 <= #[trigger] self.terms[k][i]
                < self.tables.len()
    }

    /// The bound on the degree in each variable: the largest number of
    /// tables in a term.
    pub open spec fn degree(self) -> nat {
        max_factors(self.terms)
    }

    /// The value at the hypercube point with index `x`.
    pub open spec fn value_at(self, x: int) -> int {
        combine(self.terms, column(self.tables, x))
    }

    /// The sum of the values over the hypercube.
    pub open spec fn sum(self) -> int {
        seq_sum(Seq::new(pow2(self.num_vars), |x: int| self.value_at(x)))
    }

    /// The value at an arbitrary point.
    pub open spec fn eval(self, point: Seq<int>) -> int {
        combine(self.terms, Seq::new(self.tables.len(), |t: int| mle_eval(self.tables[t], point)))
    }

    /// The polynomial with its first variable set to `r`.
    pub open spec fn fold(self, r: int) -> ProductSumView {
        ProductSumView {
            num_vars: (self.num_vars - 1) as nat,
            tables: Seq::new(self.tables.len(), |t: int| residues(fold_table(self.tables[t], r))),
            terms: self.terms,
        }
    }

    /// The polynomial in the first variable `X` that the points
    /// `(X, y)` contribute, for the index `y` of the other variables.
    pub open spec fn line_at(self, y: int) -> Seq<int> {
        poly_sum(
            Seq::new(
                self.terms.len(),
                |k: int| term_poly(self.terms[k], column(self.tables, 2 * y), column(self.tables, 2 * y + 1)),
            ),
        )
    }

    /// The round polynomial: the sum over the hypercube of the other
    /// variables, as a polynomial in the first variable.
    pub open spec fn round_poly(self) -> Seq<int> {
        poly_sum(Seq::new((pow2(self.num_vars) / 2) as nat, |y: int| self.line_at(y)))
    }

    /// The tables folded by `r`, before reduction.
    pub open spec fn folded_tables(self, r: int) -> Seq<Seq<int>> {
        Seq::new(self.tables.len(), |t: int| fold_table(self.tables[t], r))
    }

    /// The polynomial with its first variables set to `rs`, one after the
    /// other.
    pub open spec fn fold_all(self, rs: Seq<int>) -> ProductSumView
        decreases rs.len(),
    {
        if rs.len() == 0 {
            self
        } else {
            self.fold_all(rs.drop_last()).fold(rs.last())
        }
    }
}

/// The value of a sum of polynomials is the sum of their values.
pub proof fn lemma_poly_sum_eval(ps: Seq<Seq<int>>, x: int)
    ensures
        poly_eval(poly_sum(ps), x) == seq_sum(Seq::new(ps.len(), |j: int| poly_eval(ps[j], x))),
    decreases ps.len(),
{
    let evals = Seq::new(ps.len(), |j: int| poly_eval(ps[j], x));
    if ps.len() > 0 {
        let init = ps.drop_last();
        lemma_poly_sum_eval(init, x);
        lemma_eval_add(poly_sum(init), ps.last(), x);
        assert(evals.drop_last() =~= Seq::new(init.len(), |j: int| poly_eval(init[j], x)));
    }
}

/// A sum of polynomials is no longer than the longest of them.
pub proof fn lemma_poly_sum_len(ps: Seq<Seq<int>>, bound: nat)
    requires
        forall|j: int| 0 <= j < ps.len() ==> (#[trigger] ps[j]).len() <= bound,
    ensures
        poly_sum(ps).len() <= bound,
    decreases ps.len(),
{
    if ps.len() > 0 {
        assert forall|j: int| 0 <= j < ps.drop_last().len() implies (#[trigger] ps.drop_last()[j]).len()
            <= bound by {
            assert(ps.drop_last()[j] == ps[j]);
        }
        lemma_poly_sum_len(ps.drop_last(), bound);
        assert(ps[ps.len() - 1].len() <= bound);
    }
}

/// The value of a term's polynomial is the product of the values of its
/// lines.
pub proof fn lemma_term_poly_eval(term: Seq<int>, lo: Seq<int>, hi: Seq<int>, x: int)
    requires
        lo.len() == hi.len(),
        forall|i: int| 0 <= i < term.len() ==> 0 <= #[trigger] term[i] < lo.len(),
    ensures
        poly_eval(term_poly(term, lo, hi), x) == term_product(term, line_values(lo, hi, x)),
        term_poly(term, lo, hi).len() == term.len() + 1,
    decreases term.len(),
{
    if term.len() == 0 {
        let one = seq![1int];
        assert(one.drop_first().len() == 0);
        assert(poly_eval(one, x) == one[0] + x * poly_eval(one.drop_first(), x));
        assert(x * 0 == 0) by (nonlinear_arith);
    } else {
        let t = term.last();
        let init = term.drop_last();
        assert forall|i: int| 0 <= i < init.len() implies 0 <= #[trigger] init[i] < lo.len() by {
            assert(init[i] == term[i]);
        }
        lemma_term_poly_eval(init, lo, hi, x);
        lemma_eval_mul_linear(term_poly(init, lo, hi), lo[t], hi[t] - lo[t], x);
        assert(0 <= term[term.len() - 1] < lo.len());
        assert(line_values(lo, hi, x)[t] == lo[t] + x * (hi[t] - lo[t]));
        let a = term_product(init, line_values(lo, hi, x));
        let (l, d) = (lo[t], hi[t] - lo[t]);
        assert((l + d * x) * a == a * (l + x * d)) by (nonlinear_arith);
    }
}

/// No term has more tables than the largest number of tables in a term.
pub proof fn lemma_max_factors(terms: Seq<Seq<int>>, k: int)
    requires
        0 <= k < terms.len(),
    ensures
        terms[k].len() <= max_factors(terms),
    decreases terms.len(),
{
    if k < terms.len() - 1 {
        lemma_max_factors(terms.drop_last(), k);
    }
}

/// Products over congruent values are congruent.
pub proof fn lemma_term_product_congruent(term: Seq<int>, a: Seq<int>, b: Seq<int>)
    requires
        congruent_seq(a, b),
        forall|i: int| 0 <= i < term.len() ==> 0 <= #[trigger] term[i] < a.len(),
    ensures
        congruent(term_product(term, a), term_product(term, b)),
    decreases term.len(),
{
    if term.len() > 0 {
        let init = term.drop_last();
        assert forall|i: int| 0 <= i < init.len() implies 0 <= #[trigger] init[i] < a.len() by {
            assert(init[i] == term[i]);
        }
        lemma_term_product_congruent(init, a, b);
        let t = term.last();
        assert(0 <= term[term.len() - 1] < a.len());
        assert(congruent(a[t], b[t]));
        lemma_congruent_mul(term_product(init, a), term_product(init, b), a[t], b[t]);
    }
}

/// Sums of products over congruent values are congruent.
pub proof fn lemma_combine_congruent(terms: Seq<Seq<int>>, a: Seq<int>, b: Seq<int>)
    requires
        congruent_seq(a, b),
        forall|k: int, i: int|
            0 <= k < terms.len() && 0 <= i < terms[k].len() ==> 0 <= #[trigger] terms[k][i] < a.len(),
    ensures
        congruent(combine(terms, a), combine(terms, b)),
{
    let pa = Seq::new(terms.len(), |k: int| term_product(terms[k], a));
    let pb = Seq::new(terms.len(), |k: int| term_product(terms[k], b));
    assert forall|k: int| 0 <= k < pa.len() implies congruent(#[trigger] pa[k], pb[k]) by {
        assert forall|i: int| 0 <= i < terms[k].len() implies 0 <= #[trigger] terms[k][i] < a.len() by {}
        lemma_term_product_congruent(terms[k], a, b);
    }
    lemma_sum_congruent(pa, pb);
}

impl ProductSumView {
    /// At `r` the line polynomial of `y` takes the value that the folded
    /// tables give at `y`.
    pub proof fn lemma_line_eval(self, y: int, r: int)
        requires
            self.well_formed(),
            self.num_vars >= 1,
            0 <= y < pow2(self.num_vars) / 2,
        ensures
            poly_eval(self.line_at(y), r) == combine(self.terms, column(self.folded_tables(r), y)),
            self.line_at(y).len() <= self.degree() + 1,
    {
        let lo = column(self.tables, 2 * y);
        let hi = column(self.tables, 2 * y + 1);
        let polys = Seq::new(self.terms.len(), |k: int| term_poly(self.terms[k], lo, hi));
        let vals = column(self.folded_tables(r), y);
        lemma_poly_sum_eval(polys, r);
        lemma_pow2_unfold(self.num_vars);
        assert forall|t: int| 0 <= t < self.tables.len() implies line_values(lo, hi, r)[t]
            == vals[t] by {
            assert(self.tables[t].len() == pow2(self.num_vars));
        }
        assert(line_values(lo, hi, r) =~= vals);
        assert forall|k: int| 0 <= k < self.terms.len() implies poly_eval(#[trigger] polys[k], r)
            == term_product(self.terms[k], vals) && polys[k].len() <= self.degree() + 1 by {
            assert forall|i: int| 0 <= i < self.terms[k].len() implies 0 <= #[trigger] self.terms[k][i]
                < lo.len() by {}
            lemma_term_poly_eval(self.terms[k], lo, hi, r);
            lemma_max_factors(self.terms, k);
        }
        assert(Seq::new(polys.len(), |j: int| poly_eval(polys[j], r)) =~= Seq::new(
            self.terms.len(),
            |k: int| term_product(self.terms[k], vals),
        ));
        lemma_poly_sum_len(polys, self.degree() + 1);
    }

    /// At `r` the round polynomial takes the sum over the hypercube of what
    /// the folded tables give.
    pub proof fn lemma_round_eval(self, r: int)
        requires
            self.well_formed(),
            self.num_vars >= 1,
        ensures
            poly_eval(self.round_poly(), r) == seq_sum(
                Seq::new(
                    (pow2(self.num_vars) / 2) as nat,
                    |y: int| combine(self.terms, column(self.folded_tables(r), y)),
                ),
            ),
            self.round_poly().len() <= self.degree() + 1,
    {
        let half = (pow2(self.num_vars) / 2) as nat;
        let lines = Seq::new(half, |y: int| self.line_at(y));
        lemma_poly_sum_eval(lines, r);
        assert forall|y: int| 0 <= y < half implies poly_eval(#[trigger] lines[y], r) == combine(
            self.terms,
            column(self.folded_tables(r), y),
        ) && lines[y].len() <= self.degree() + 1 by {
            self.lemma_line_eval(y, r);
        }
        assert(Seq::new(lines.len(), |j: int| poly_eval(lines[j], r)) =~= Seq::new(
            half,
            |y: int| combine(self.terms, column(self.folded_tables(r), y)),
        ));
        lemma_poly_sum_len(lines, self.degree() + 1);
    }

    /// The round polynomial's values at 0 and at 1 add up to the sum over the
    /// hypercube.
    pub proof fn lemma_round_sum(self)
        requires
            self.well_formed(),
            self.num_vars >= 1,
        ensures
            poly_eval(self.round_poly(), 0) + poly_eval(self.round_poly(), 1) == self.sum(),
    {
        let half = (pow2(self.num_vars) / 2) as nat;
        lemma_pow2_unfold(self.num_vars);
        self.lemma_round_eval(0);
        self.lemma_round_eval(1);
        let at0 = Seq::new(half, |y: int| combine(self.terms, column(self.folded_tables(0), y)));
        let at1 = Seq::new(half, |y: int| combine(self.terms, column(self.folded_tables(1), y)));
        let all = Seq::new(pow2(self.num_vars), |x: int| self.value_at(x));
        let pairs = Seq::new((all.len() / 2) as nat, |y: int| all[2 * y] + all[2 * y + 1]);
        // at 0 the folded tables hold the entries at 2y, at 1 those at 2y + 1:
        // the two values are the sums over the even and over the odd indices
        lemma_sum_pairs(all);
        lemma_sum_add(at0, at1);
        assert forall|y: int| 0 <= y < half implies at0[y] + at1[y] == pairs[y] by {
            assert forall|t: int| 0 <= t < self.tables.len() implies column(self.folded_tables(0), y)[t]
                == column(self.tables, 2 * y)[t] && column(self.folded_tables(1), y)[t] == column(
                self.tables,
                2 * y + 1,
            )[t] by {
                assert(self.tables[t].len() == pow2(self.num_vars));
                let (l, h) = (self.tables[t][2 * y], self.tables[t][2 * y + 1]);
                assert(l + 0 * (h - l) == l && l + 1 * (h - l) == h) by (nonlinear_arith);
            }
            assert(column(self.folded_tables(0), y) =~= column(self.tables, 2 * y));
            assert(column(self.folded_tables(1), y) =~= column(self.tables, 2 * y + 1));
        }
        assert(Seq::new(at0.len(), |i: int| at0[i] + at1[i]) =~= pairs);
    }

    /// Folding keeps a polynomial well formed.
    pub proof fn lemma_fold_well_formed(self, r: int)
        requires
            self.well_formed(),
            self.num_vars >= 1,
        ensures
            self.fold(r).well_formed(),
    {
        lemma_pow2_unfold(self.num_vars);
        assert forall|t: int| 0 <= t < self.fold(r).tables.len() implies (#[trigger] self.fold(
            r,
        ).tables[t]).len() == pow2(self.fold(r).num_vars) by {
            assert(self.tables[t].len() == pow2(self.num_vars));
        }
        assert forall|k: int, i: int|
            0 <= k < self.terms.len() && 0 <= i < self.terms[k].len() implies 0
            <= #[trigger] self.fold(r).terms[k][i] < self.fold(r).tables.len() by {
            assert(0 <= self.terms[k][i] < self.tables.len());
        }
    }

    /// The value of the round polynomial at a challenge is the sum over the
    /// hypercube of the polynomial folded by that challenge.
    pub proof fn lemma_round_fold(self, r: int)
        requires
            self.well_formed(),
            self.num_vars >= 1,
        ensures
            congruent(poly_eval(self.round_poly(), r), self.fold(r).sum()),
    {
        let half = (pow2(self.num_vars) / 2) as nat;
        lemma_pow2_unfold(self.num_vars);
        self.lemma_round_eval(r);
        let exact = Seq::new(half, |y: int| combine(self.terms, column(self.folded_tables(r), y)));
        let reduced = Seq::new(pow2(self.fold(r).num_vars), |x: int| self.fold(r).value_at(x));
        assert forall|y: int| 0 <= y < half implies congruent(#[trigger] reduced[y], exact[y]) by {
            let a = column(self.fold(r).tables, y);
            let b = column(self.folded_tables(r), y);
            assert forall|t: int| 0 <= t < a.len() implies congruent(#[trigger] a[t], b[t]) by {
                assert(self.tables[t].len() == pow2(self.num_vars));
                lemma_residue_range(fold_table(self.tables[t], r)[y]);
            }
            assert forall|k: int, i: int|
                0 <= k < self.terms.len() && 0 <= i < self.terms[k].len() implies 0
                <= #[trigger] self.terms[k][i] < a.len() by {
                assert(0 <= self.terms[k][i] < self.tables.len());
            }
            lemma_combine_congruent(self.terms, a, b);
        }
        lemma_sum_congruent(reduced, exact);
    }

    /// Folding the first variable at `r` and evaluating at the other
    /// coordinates gives the value at the whole point.
    pub proof fn lemma_fold_eval(self, r: int, rest: Seq<int>)
        requires
            self.well_formed(),
            self.num_vars >= 1,
        ensures
            congruent(self.fold(r).eval(rest), self.eval(seq![r] + rest)),
    {
        lemma_pow2_unfold(self.num_vars);
        let a = Seq::new(self.fold(r).tables.len(), |t: int| mle_eval(self.fold(r).tables[t], rest));
        let b = Seq::new(self.tables.len(), |t: int| mle_eval(self.tables[t], seq![r] + rest));
        assert forall|t: int| 0 <= t < a.len() implies congruent(#[trigger] a[t], b[t]) by {
            assert(self.tables[t].len() == pow2(self.num_vars));
            lemma_fold_then_eval(self.tables[t], r, rest);
        }
        assert forall|k: int, i: int|
            0 <= k < self.terms.len() && 0 <= i < self.terms[k].len() implies 0
            <= #[trigger] self.terms[k][i] < a.len() by {
            assert(0 <= self.terms[k][i] < self.tables.len());
        }
        lemma_combine_congruent(self.terms, a, b);
    }

    /// With no variable left the sum is the value at the empty point.
    pub proof fn lemma_sum_no_variable(self)
        requires
            self.well_formed(),
            self.num_vars == 0,
        ensures
            self.sum() == self.eval(Seq::<int>::empty()),
    {
        lemma2_to64();
        let all = Seq::new(pow2(self.num_vars), |x: int| self.value_at(x));
        assert(all.drop_last().len() == 0);
        assert(seq_sum(all) == seq_sum(all.drop_last()) + all.last());
        let a = column(self.tables, 0);
        let b = Seq::new(self.tables.len(), |t: int| mle_eval(self.tables[t], Seq::<int>::empty()));
        assert forall|t: int| 0 <= t < a.len() implies a[t] == b[t] by {
            assert(self.tables[t].len() == pow2(self.num_vars));
            lemma_eval_no_variable(self.tables[t]);
        }
        assert(a =~= b);
    }

    /// Folding by `rs` leaves a well-formed polynomial over the other
    /// variables, whose value at `rest` is the value of the whole polynomial
    /// at `rs` followed by `rest`.
    pub proof fn lemma_fold_all(self, rs: Seq<int>, rest: Seq<int>)
        requires
            self.well_formed(),
            rs.len() <= self.num_vars,
        ensures
            self.fold_all(rs).well_formed(),
            self.fold_all(rs).num_vars == self.num_vars - rs.len(),
            self.fold_all(rs).terms == self.terms,
            self.fold_all(rs).tables.len() == self.tables.len(),
            congruent(self.fold_all(rs).eval(rest), self.eval(rs + rest)),
        decreases rs.len(),
    {
        if rs.len() == 0 {
            assert(rs + rest =~= rest);
        } else {
            let init = rs.drop_last();
            let before = self.fold_all(init);
            self.lemma_fold_all(init, seq![rs.last()] + rest);
            before.lemma_fold_well_formed(rs.last());
            before.lemma_fold_eval(rs.last(), rest);
            assert(init + (seq![rs.last()] + rest) =~= rs + rest);
        }
    }
}

} // verus!
