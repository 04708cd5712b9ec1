//! The polynomial that a sum-check run is about: tables over one hypercube
//! and terms that each multiply some of them.

use vstd::prelude::*;
use vstd::arithmetic::power2::*;
use crate::field::{
    lemma_congruent_add, lemma_congruent_mul, lemma_modulus_positive, lemma_residue_range,
    lemma_residue_small, lemma_residues_congruent, lemma_residues_equal, residue, residues, values,
    Fq,
};
use crate::mle::{fold_table, mle_eval, Mle};
use crate::poly::{
    add_polys, evaluate, lemma_add_congruent, lemma_mul_linear_congruent, mul_linear, poly_add,
    poly_mul_linear,
};
use crate::sumcheck::polynomial::{
    column, combine, lemma_combine_congruent, max_factors, poly_sum, term_poly, term_product,
    ProductSumView,
};
use crate::summation::seq_sum;

verus! {

/// The tables of a list of extensions.
pub open spec fn table_views(tables: Seq<Mle>) -> Seq<Seq<int>> {
    Seq::new(tables.len(), |t: int| tables[t]@)
}

/// The terms of a list of index lists.
pub open spec fn index_lists(terms: Seq<Vec<usize>>) -> Seq<Seq<int>> {
    Seq::new(terms.len(), |k: int| Seq::new(terms[k]@.len(), |i: int| terms[k]@[i] as int))
}

/// Every index of every term is below `bound`.
pub open spec fn indices_below(terms: Seq<Vec<usize>>, bound: nat) -> bool {
    forall|k: int, i: int| 0 <= k < terms.len() && 0 <= i < terms[k]@.len() ==> (#[trigger] terms[k]@[i]) < bound
}

/// Every extension has `num_vars` variables.
pub open spec fn arities_are(tables: Seq<Mle>, num_vars: nat) -> bool {
    forall|t: int| 0 <= t < tables.len() ==> (#[trigger] tables[t]).arity() == num_vars
}

/// The product of the values that `vals` gives to the tables of `term`.
fn term_value(term: &Vec<usize>, vals: &Vec<Fq>) -> (r: Fq)
    requires
        forall|i: int| 0 <= i < term@.len() ==> (#[trigger] term@[i]) < vals@.len(),
    ensures
        r.value() == residue(term_product(Seq::new(term@.len(), |i: int| term@[i] as int), values(vals@))),
{
    let ghost ids = Seq::new(term@.len(), |i: int| term@[i] as int);
    let mut acc = Fq::one();
    let mut i: usize = 0;
    proof {
        assert(ids.take(0).len() == 0);
        lemma_modulus_positive();
        lemma_residue_small(1);
    }
    while i < term.len()
        invariant
            i <= term@.len(),
            ids == Seq::new(term@.len(), |i: int| term@[i] as int),
            forall|i: int| 0 <= i < term@.len() ==> (#[trigger] term@[i]) < vals@.len(),
            acc.value() == residue(term_product(ids.take(i as int), values(vals@))),
        decreases term@.len() - i,
    {
        let ghost before = acc.value();
        acc = acc.mul(&vals[term[i]]);
        proof {
            let init = ids.take(i as int);
            let next = ids.take(i + 1);
            assert(next.drop_last() =~= init);
            assert(next.last() == term@[i as int]);
            lemma_residue_range(term_product(init, values(vals@)));
            lemma_congruent_mul(
                before,
                term_product(init, values(vals@)),
                vals@[term@[i as int] as int].value(),
                values(vals@)[term@[i as int] as int],
            );
        }
        i = i + 1;
    }
    proof {
        assert(ids.take(i as int) =~= ids);
    }
    acc
}

/// The sum over `terms` of the products of the values that `vals` gives to
/// their tables.
fn combine_values(terms: &Vec<Vec<usize>>, vals: &Vec<Fq>) -> (r: Fq)
    requires
        indices_below(terms@, vals@.len()),
    ensures
        r.value() == residue(combine(index_lists(terms@), values(vals@))),
{
    let ghost products = Seq::new(
        terms@.len(),
        |k: int| term_product(index_lists(terms@)[k], values(vals@)),
    );
    let mut acc = Fq::zero();
    let mut k: usize = 0;
    proof {
        assert(products.take(0).len() == 0);
        lemma_modulus_positive();
        lemma_residue_small(0);
    }
    while k < terms.len()
        invariant
            k <= terms@.len(),
            indices_below(terms@, vals@.len()),
            products == Seq::new(terms@.len(), |k: int| term_product(index_lists(terms@)[k], values(vals@))),
            acc.value() == residue(seq_sum(products.take(k as int))),
        decreases terms@.len() - k,
    {
        let ghost before = acc.value();
        proof {
            assert forall|i: int| 0 <= i < terms@[k as int]@.len() implies (#[trigger] terms@[k as int]@[i])
                < vals@.len() by {}
        }
        let v = term_value(&terms[k], vals);
        acc = acc.add(&v);
        proof {
            let init = products.take(k as int);
            let next = products.take(k + 1);
            assert(next.drop_last() =~= init);
            assert(next.last() == products[k as int]);
            lemma_residue_range(seq_sum(init));
            lemma_residue_range(products[k as int]);
            lemma_congruent_add(before, seq_sum(init), v.value(), products[k as int]);
        }
        k = k + 1;
    }
    proof {
        assert(products.take(k as int) =~= products);
    }
    acc
}

/// A polynomial to be summed over the hypercube: tables of one size, and
/// terms that each multiply some of them.
pub struct ProductSum {
    num_vars: usize,
    tables: Vec<Mle>,
    terms: Vec<Vec<usize>>,
}

impl ProductSum {
    /// The tables and the terms.
    pub closed spec fn view(&self) -> ProductSumView {
        ProductSumView {
            num_vars: self.num_vars as nat,
            tables: table_views(self.tables@),
            terms: index_lists(self.terms@),
        }
    }

    /// Every table has the polynomial's number of variables.
    pub closed spec fn arities_agree(&self) -> bool {
        arities_are(self.tables@, self.num_vars as nat)
    }

    /// There is a table, every table covers the hypercube, and every term
    /// names tables that exist.
    #[verifier::type_invariant]
    pub open spec fn well_formed(&self) -> bool {
        &&& self@.well_formed()
        &&& self@.tables.len() >= 1
        &&& self.arities_agree()
    }

    /// The polynomial over `num_vars` variables with the given tables and
    /// terms; none where there is no table, a table has another number of
    /// variables, or a term names a table that does not exist.
    pub fn build(num_vars: usize, tables: Vec<Mle>, terms: Vec<Vec<usize>>) -> (r: Option<ProductSum>)
        ensures
            r is Some <==> tables@.len() >= 1 && arities_are(tables@, num_vars as nat) && indices_below(
                terms@,
                tables@.len(),
            ),
            r is Some ==> r->0@ == (ProductSumView {
                num_vars: num_vars as nat,
                tables: table_views(tables@),
                terms: index_lists(terms@),
            }),
    {
        if tables.len() == 0 {
            return None;
        }
        let mut t: usize = 0;
        while t < tables.len()
            invariant
                t <= tables@.len(),
                forall|j: int|
                    0 <= j < t ==> (#[trigger] tables@[j]).arity() == num_vars && tables@[j]@.len() == pow2(
                        num_vars as nat,
                    ),
            decreases tables@.len() - t,
        {
            if tables[t].num_vars() != num_vars {
                return None;
            }
            t = t + 1;
        }
        let mut k: usize = 0;
        while k < terms.len()
            invariant
                k <= terms@.len(),
                forall|j: int, i: int|
                    0 <= j < k && 0 <= i < terms@[j]@.len() ==> (#[trigger] terms@[j]@[i]) < tables@.len(),
            decreases terms@.len() - k,
        {
            let term = &terms[k];
            let mut i: usize = 0;
            while i < term.len()
                invariant
                    i <= term@.len(),
                    k < terms@.len(),
                    term@ == terms@[k as int]@,
                    forall|h: int| 0 <= h < i ==> (#[trigger] term@[h]) < tables@.len(),
                decreases term@.len() - i,
            {
                if term[i] >= tables.len() {
                    proof {
                        assert(terms@[k as int]@[i as int] >= tables@.len());
                    }
                    return None;
                }
                i = i + 1;
            }
            k = k + 1;
        }
        Some(ProductSum { num_vars, tables, terms })
    }

    /// The number of variables.
    pub fn num_vars(&self) -> (n: usize)
        ensures
            n == self@.num_vars,
            self@.well_formed(),
    {
        proof {
            use_type_invariant(self);
        }
        self.num_vars
    }

    /// The bound on the degree in each variable.
    pub fn degree(&self) -> (d: usize)
        ensures
            d == self@.degree(),
    {
        let mut d: usize = 0;
        let mut k: usize = 0;
        proof {
            assert(self@.terms.take(0).len() == 0);
        }
        while k < self.terms.len()
            invariant
                k <= self.terms@.len(),
                d == max_factors(self@.terms.take(k as int)),
            decreases self.terms@.len() - k,
        {
            proof {
                let next = self@.terms.take(k + 1);
                assert(next.drop_last() =~= self@.terms.take(k as int));
                assert(next.last().len() == self.terms@[k as int]@.len());
            }
            if self.terms[k].len() >= d {
                d = self.terms[k].len();
            }
            k = k + 1;
        }
        proof {
            assert(self@.terms.take(k as int) =~= self@.terms);
        }
        d
    }

    /// The number of points of the hypercube.
    fn size(&self) -> (n: usize)
        ensures
            n == pow2(self@.num_vars),
            self@.well_formed(),
            self@.tables.len() >= 1,
            self.arities_agree(),
    {
        proof {
            use_type_invariant(self);
            assert(self@.tables[0].len() == pow2(self@.num_vars));
        }
        self.tables[0].evaluations().len()
    }

    /// The entries at index `x` of all the tables.
    fn column_values(&self, x: usize) -> (col: Vec<Fq>)
        requires
            x < pow2(self@.num_vars),
        ensures
            values(col@) == column(self@.tables, x as int),
    {
        proof {
            use_type_invariant(self);
        }
        let mut col: Vec<Fq> = Vec::with_capacity(self.tables.len());
        let mut t: usize = 0;
        while t < self.tables.len()
            invariant
                t <= self.tables@.len(),
                x < pow2(self@.num_vars),
                self@.well_formed(),
                col@.len() == t,
                forall|j: int| 0 <= j < t ==> (#[trigger] col@[j]).value() == self@.tables[j][x as int],
            decreases self.tables@.len() - t,
        {
            proof {
                assert(self@.tables[t as int].len() == pow2(self@.num_vars));
            }
            let v = self.tables[t].evaluations()[x];
            col.push(v);
            t = t + 1;
        }
        proof {
            assert(values(col@) =~= column(self@.tables, x as int));
        }
        col
    }

    /// The sum of the polynomial's values over the hypercube.
    pub fn sum(&self) -> (r: Fq)
        ensures
            r.value() == residue(self@.sum()),
    {
        let size = self.size();
        let ghost all = Seq::new(pow2(self@.num_vars), |x: int| self@.value_at(x));
        let mut acc = Fq::zero();
        let mut x: usize = 0;
        proof {
            assert(all.take(0).len() == 0);
            lemma_modulus_positive();
            lemma_residue_small(0);
        }
        while x < size
            invariant
                x <= size,
                size == pow2(self@.num_vars),
                self@.well_formed(),
                all == Seq::new(pow2(self@.num_vars), |x: int| self@.value_at(x)),
                acc.value() == residue(seq_sum(all.take(x as int))),
            decreases size - x,
        {
            let ghost before = acc.value();
            let col = self.column_values(x);
            proof {
                assert(col@.len() == values(col@).len());
                assert(col@.len() == self@.tables.len());
                assert(indices_below(self.terms@, col@.len())) by {
                    assert forall|k: int, i: int|
                        0 <= k < self.terms@.len() && 0 <= i < self.terms@[k]@.len() implies (
                    #[trigger] self.terms@[k]@[i]) < col@.len() by {
                        assert(0 <= self@.terms[k][i] < self@.tables.len());
                    }
                }
            }
            let v = combine_values(&self.terms, &col);
            acc = acc.add(&v);
            proof {
                let init = all.take(x as int);
                let next = all.take(x + 1);
                assert(next.drop_last() =~= init);
                assert(next.last() == all[x as int]);
                lemma_residue_range(seq_sum(init));
                lemma_residue_range(all[x as int]);
                lemma_congruent_add(before, seq_sum(init), v.value(), all[x as int]);
            }
            x = x + 1;
        }
        proof {
            assert(all.take(x as int) =~= all);
        }
        acc
    }

    /// The value of the polynomial at `point`.
    pub fn evaluate(&self, point: &Vec<Fq>) -> (r: Fq)
        requires
            point@.len() == self@.num_vars,
        ensures
            r.value() == residue(self@.eval(values(point@))),
    {
        proof {
            use_type_invariant(self);
        }
        let ghost target = Seq::new(
            self@.tables.len(),
            |t: int| mle_eval(self@.tables[t], values(point@)),
        );
        let mut vals: Vec<Fq> = Vec::with_capacity(self.tables.len());
        let mut t: usize = 0;
        while t < self.tables.len()
            invariant
                t <= self.tables@.len(),
                point@.len() == self@.num_vars,
                self.arities_agree(),
                target == Seq::new(self@.tables.len(), |t: int| mle_eval(self@.tables[t], values(point@))),
                vals@.len() == t,
                forall|j: int| 0 <= j < t ==> (#[trigger] vals@[j]).value() == residue(target[j]),
            decreases self.tables@.len() - t,
        {
            proof {
                assert(self.tables@[t as int].arity() == self.num_vars);
            }
            let v = self.tables[t].evaluate(point);
            vals.push(v);
            t = t + 1;
        }
        proof {
            assert(indices_below(self.terms@, vals@.len())) by {
                assert forall|k: int, i: int|
                    0 <= k < self.terms@.len() && 0 <= i < self.terms@[k]@.len() implies (
                #[trigger] self.terms@[k]@[i]) < vals@.len() by {
                    assert(0 <= self@.terms[k][i] < self@.tables.len());
                }
            }
        }
        let r = combine_values(&self.terms, &vals);
        proof {
            assert(values(vals@) =~= residues(target));
            lemma_residues_congruent(target);
            assert forall|k: int, i: int|
                0 <= k < self@.terms.len() && 0 <= i < self@.terms[k].len() implies 0
                <= #[trigger] self@.terms[k][i] < residues(target).len() by {
                assert(0 <= self@.terms[k][i] < self@.tables.len());
            }
            lemma_combine_congruent(self@.terms, residues(target), target);
        }
        r
    }

    /// The polynomial in the first variable that the points `(X, y)`
    /// contribute.
    fn line_polynomial(&self, y: usize) -> (p: Vec<Fq>)
        requires
            2 * y + 1 < pow2(self@.num_vars),
        ensures
            values(p@) == residues(self@.line_at(y as int)),
    {
        let size = self.size();
        assert(2 * y + 1 < size);
        let lo = self.column_values(2 * y);
        let hi = self.column_values(2 * y + 1);
        let ghost polys = Seq::new(
            self@.terms.len(),
            |k: int| term_poly(self@.terms[k], values(lo@), values(hi@)),
        );
        let mut acc: Vec<Fq> = Vec::new();
        let mut k: usize = 0;
        proof {
            assert(polys.take(0).len() == 0);
            assert(values(acc@) =~= residues(poly_sum(polys.take(0))));
            assert(lo@.len() == values(lo@).len() && hi@.len() == values(hi@).len());
        }
        while k < self.terms.len()
            invariant
                k <= self.terms@.len(),
                self@.well_formed(),
                lo@.len() == self@.tables.len(),
                hi@.len() == self@.tables.len(),
                polys == Seq::new(self@.terms.len(), |k: int| term_poly(self@.terms[k], values(lo@), values(hi@))),
                values(acc@) == residues(poly_sum(polys.take(k as int))),
            decreases self.terms@.len() - k,
        {
            proof {
                assert forall|i: int| 0 <= i < self.terms@[k as int]@.len() implies (
                #[trigger] self.terms@[k as int]@[i]) < lo@.len() by {
                    assert(0 <= self@.terms[k as int][i] < self@.tables.len());
                }
                assert(self@.terms[k as int] =~= Seq::new(
                    self.terms@[k as int]@.len(),
                    |i: int| self.terms@[k as int]@[i] as int,
                ));
            }
            let tp = term_polynomial(&self.terms[k], &lo, &hi);
            let ghost before = values(acc@);
            acc = add_polys(&acc, &tp);
            proof {
                let init = polys.take(k as int);
                let next = polys.take(k + 1);
                assert(next.drop_last() =~= init);
                assert(next.last() == polys[k as int]);
                lemma_residues_congruent(poly_sum(init));
                lemma_residues_congruent(polys[k as int]);
                lemma_add_congruent(before, poly_sum(init), values(tp@), polys[k as int]);
                lemma_residues_equal(
                    poly_add(before, values(tp@)),
                    poly_add(poly_sum(init), polys[k as int]),
                );
            }
            k = k + 1;
        }
        proof {
            assert(polys.take(k as int) =~= polys);
        }
        acc
    }

    /// The round polynomial: the sum over the hypercube of the other
    /// variables, as a polynomial in the first variable.
    pub fn round_polynomial(&self) -> (p: Vec<Fq>)
        requires
            self@.num_vars >= 1,
        ensures
            values(p@) == residues(self@.round_poly()),
    {
        let size = self.size();
        let half = size / 2;
        let ghost lines = Seq::new((pow2(self@.num_vars) / 2) as nat, |y: int| self@.line_at(y));
        let mut acc: Vec<Fq> = Vec::new();
        let mut y: usize = 0;
        proof {
            lemma_pow2_unfold(self@.num_vars);
            assert(lines.take(0).len() == 0);
            assert(values(acc@) =~= residues(poly_sum(lines.take(0))));
        }
        while y < half
            invariant
                y <= half,
                half * 2 == pow2(self@.num_vars),
                lines == Seq::new((pow2(self@.num_vars) / 2) as nat, |y: int| self@.line_at(y)),
                values(acc@) == residues(poly_sum(lines.take(y as int))),
            decreases half - y,
        {
            let line = self.line_polynomial(y);
            let ghost before = values(acc@);
            acc = add_polys(&acc, &line);
            proof {
                let init = lines.take(y as int);
                let next = lines.take(y + 1);
                assert(next.drop_last() =~= init);
                assert(next.last() == lines[y as int]);
                lemma_residues_congruent(poly_sum(init));
                lemma_residues_congruent(lines[y as int]);
                lemma_add_congruent(before, poly_sum(init), values(line@), lines[y as int]);
                lemma_residues_equal(
                    poly_add(before, values(line@)),
                    poly_add(poly_sum(init), lines[y as int]),
                );
            }
            y = y + 1;
        }
        proof {
            assert(lines.take(y as int) =~= lines);
        }
        acc
    }

    /// The polynomial with its first variable set to `r`: every table folded.
    pub fn fold(self, r: &Fq) -> (out: ProductSum)
        requires
            self@.num_vars >= 1,
        ensures
            out@ == self@.fold(r.value()),
    {
        proof {
            use_type_invariant(&self);
            self@.lemma_fold_well_formed(r.value());
        }
        let mut tables: Vec<Mle> = Vec::with_capacity(self.tables.len());
        let mut t: usize = 0;
        while t < self.tables.len()
            invariant
                t <= self.tables@.len(),
                self.num_vars >= 1,
                self.arities_agree(),
                tables@.len() == t,
                forall|j: int|
                    0 <= j < t ==> (#[trigger] tables@[j]).arity() == self.num_vars - 1 && tables@[j]@
                        == residues(fold_table(self.tables@[j]@, r.value())),
            decreases self.tables@.len() - t,
        {
            proof {
                assert(self.tables@[t as int].arity() == self.num_vars);
            }
            let folded = self.tables[t].fold_one_variable(r);
            tables.push(folded);
            t = t + 1;
        }
        proof {
            assert(table_views(tables@) =~= self@.fold(r.value()).tables);
        }
        ProductSum { num_vars: self.num_vars - 1, tables, terms: self.terms }
    }

    /// A copy of the polynomial.
    pub fn duplicate(&self) -> (out: ProductSum)
        ensures
            out@ == self@,
    {
        proof {
            use_type_invariant(self);
        }
        let mut tables: Vec<Mle> = Vec::with_capacity(self.tables.len());
        let mut t: usize = 0;
        while t < self.tables.len()
            invariant
                t <= self.tables@.len(),
                tables@.len() == t,
                forall|j: int|
                    0 <= j < t ==> (#[trigger] tables@[j]).arity() == self.tables@[j].arity() && tables@[j]@
                        == self.tables@[j]@,
            decreases self.tables@.len() - t,
        {
            tables.push(self.tables[t].duplicate());
            t = t + 1;
        }
        let mut terms: Vec<Vec<usize>> = Vec::with_capacity(self.terms.len());
        let mut k: usize = 0;
        while k < self.terms.len()
            invariant
                k <= self.terms@.len(),
                terms@.len() == k,
                forall|j: int| 0 <= j < k ==> (#[trigger] terms@[j])@ == self.terms@[j]@,
            decreases self.terms@.len() - k,
        {
            let term = &self.terms[k];
            let mut copy: Vec<usize> = Vec::with_capacity(term.len());
            let mut i: usize = 0;
            while i < term.len()
                invariant
                    i <= term@.len(),
                    copy@ == term@.take(i as int),
                decreases term@.len() - i,
            {
                copy.push(term[i]);
                proof {
                    assert(copy@ =~= term@.take(i + 1));
                }
                i = i + 1;
            }
            proof {
                assert(term@.take(i as int) =~= term@);
            }
            terms.push(copy);
            k = k + 1;
        }
        proof {
            assert(table_views(tables@) =~= self@.tables);
            assert(index_lists(terms@) =~~= self@.terms);
        }
        ProductSum { num_vars: self.num_vars, tables, terms }
    }

    /// The value of the polynomial at `point`; none where the point has
    /// another number of coordinates than the polynomial has variables.
    pub fn evaluate_at(&self, point: &Vec<Fq>) -> (r: Option<Fq>)
        ensures
            r is Some <==> point@.len() == self@.num_vars,
            r is Some ==> r->0.value() == residue(self@.eval(values(point@))),
    {
        if point.len() == self.num_vars() {
            Some(self.evaluate(point))
        } else {
            None
        }
    }
}

/// The product of the lines through `lo` and `hi` over the tables of `term`,
/// as a polynomial.
fn term_polynomial(term: &Vec<usize>, lo: &Vec<Fq>, hi: &Vec<Fq>) -> (p: Vec<Fq>)
    requires
        lo@.len() == hi@.len(),
        forall|i: int| 0 <= i < term@.len() ==> (#[trigger] term@[i]) < lo@.len(),
    ensures
        values(p@) == residues(
            term_poly(Seq::new(term@.len(), |i: int| term@[i] as int), values(lo@), values(hi@)),
        ),
{
    let ghost ids = Seq::new(term@.len(), |i: int| term@[i] as int);
    let ghost (l, h) = (values(lo@), values(hi@));
    let mut p: Vec<Fq> = Vec::new();
    p.push(Fq::one());
    let mut i: usize = 0;
    proof {
        lemma_modulus_positive();
        lemma_residue_small(1);
        assert(ids.take(0).len() == 0);
        assert(values(p@) =~= residues(term_poly(ids.take(0), l, h)));
    }
    while i < term.len()
        invariant
            i <= term@.len(),
            lo@.len() == hi@.len(),
            forall|i: int| 0 <= i < term@.len() ==> (#[trigger] term@[i]) < lo@.len(),
            ids == Seq::new(term@.len(), |i: int| term@[i] as int),
            l == values(lo@),
            h == values(hi@),
            values(p@) == residues(term_poly(ids.take(i as int), l, h)),
        decreases term@.len() - i,
    {
        let t = term[i];
        let d = hi[t].sub(&lo[t]);
        let ghost before = values(p@);
        p = mul_linear(&p, &lo[t], &d);
        proof {
            let init = ids.take(i as int);
            let next = ids.take(i + 1);
            assert(next.drop_last() =~= init);
            assert(next.last() == t);
            let exact = term_poly(init, l, h);
            lemma_residues_congruent(exact);
            lemma_residue_range(h[t as int] - l[t as int]);
            lemma_mul_linear_congruent(
                before,
                exact,
                l[t as int],
                l[t as int],
                d.value(),
                h[t as int] - l[t as int],
            );
            lemma_residues_equal(
                poly_mul_linear(before, l[t as int], d.value()),
                poly_mul_linear(exact, l[t as int], h[t as int] - l[t as int]),
            );
        }
        i = i + 1;
    }
    proof {
        assert(ids.take(i as int) =~= ids);
    }
    p
}

} // verus!
