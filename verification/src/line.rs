//! The restriction of a multilinear extension to a line.
//!
//! The line through the points `b` and `c` is `l(t) = b + t (c - b)`, so that
//! `l(0) = b` and `l(1) = c`. The restriction of an extension `W` to it is the
//! univariate polynomial `W(l(t))`, of degree at most the number of
//! variables. It is computed by folding a table of polynomials: setting a
//! variable to `l_j(t)` turns two neighbours `lo`, `hi` into
//! `lo + l_j(t) (hi - lo)`.

use vstd::prelude::*;
use vstd::arithmetic::power2::*;
use crate::field::{
    congruent, congruent_seq, lemma_residue_range, lemma_residues_congruent, lemma_residues_equal,
    residues, values, Fq,
};
use crate::mle::{fold_table, lemma_eval_fold, mle_eval, Mle};
use crate::poly::{
    add_polys, lemma_add_congruent, lemma_eval_add, lemma_eval_mul_linear, lemma_eval_sub,
    lemma_mul_linear_congruent, lemma_sub_congruent, mul_linear, poly_add, poly_eval,
    poly_mul_linear, poly_sub, sub_polys,
};

verus! {

/// The point at `t` of the line through `b` at 0 and `c` at 1.
pub open spec fn line_point(b: Seq<int>, c: Seq<int>, t: int) -> Seq<int> {
    Seq::new(b.len(), |j: int| b[j] + t * (c[j] - b[j]))
}

/// The polynomial `lo + (b0 + (c0 - b0) X) (hi - lo)`.
pub open spec fn line_fold(lo: Seq<int>, hi: Seq<int>, b0: int, c0: int) -> Seq<int> {
    poly_add(lo, poly_mul_linear(poly_sub(hi, lo), b0, c0 - b0))
}

/// A table of polynomials with its first variable set to
/// `b0 + (c0 - b0) X`.
pub open spec fn line_fold_table(table: Seq<Seq<int>>, b0: int, c0: int) -> Seq<Seq<int>> {
    Seq::new((table.len() / 2) as nat, |y: int| line_fold(table[2 * y], table[2 * y + 1], b0, c0))
}

/// A table of polynomials with its variables set to the coordinates of the
/// line through `b` and `c`, one after the other.
pub open spec fn restrict_table(table: Seq<Seq<int>>, b: Seq<int>, c: Seq<int>) -> Seq<Seq<int>>
    decreases b.len(),
{
    if b.len() == 0 {
        table
    } else {
        restrict_table(line_fold_table(table, b[0], c[0]), b.drop_first(), c.drop_first())
    }
}

/// The entries of a table as constant polynomials.
pub open spec fn constant_polys(table: Seq<int>) -> Seq<Seq<int>> {
    Seq::new(table.len(), |x: int| seq![table[x]])
}

/// The coefficients of the restriction of the extension of `table` to the
/// line through `b` and `c`.
pub open spec fn line_restriction(table: Seq<int>, b: Seq<int>, c: Seq<int>) -> Seq<int> {
    restrict_table(constant_polys(table), b, c)[0]
}

/// The values at `t` of a table of polynomials.
pub open spec fn values_at(table: Seq<Seq<int>>, t: int) -> Seq<int> {
    Seq::new(table.len(), |x: int| poly_eval(table[x], t))
}

/// Two tables of polynomials with congruent coefficients.
pub open spec fn congruent_tables(a: Seq<Seq<int>>, b: Seq<Seq<int>>) -> bool {
    &&& a.len() == b.len()
    &&& forall|y: int| 0 <= y < a.len() ==> congruent_seq(#[trigger] a[y], b[y])
}

/// No polynomial of the table has more than `bound` coefficients.
pub open spec fn lengths_within(table: Seq<Seq<int>>, bound: nat) -> bool {
    forall|y: int| 0 <= y < table.len() ==> (#[trigger] table[y]).len() <= bound
}

/// The line passes through `b` at 0 and through `c` at 1.
pub proof fn lemma_line_endpoints(b: Seq<int>, c: Seq<int>)
    requires
        b.len() == c.len(),
    ensures
        line_point(b, c, 0) == b,
        line_point(b, c, 1) == c,
{
    assert forall|j: int| 0 <= j < b.len() implies line_point(b, c, 0)[j] == b[j] && line_point(
        b,
        c,
        1,
    )[j] == c[j] by {
        let d = c[j] - b[j];
        assert(0 * d == 0 && 1 * d == d) by (nonlinear_arith);
    }
    assert(line_point(b, c, 0) =~= b);
    assert(line_point(b, c, 1) =~= c);
}

/// The value of a folded pair is the fold of the values.
pub proof fn lemma_line_fold_eval(lo: Seq<int>, hi: Seq<int>, b0: int, c0: int, t: int)
    ensures
        poly_eval(line_fold(lo, hi, b0, c0), t) == poly_eval(lo, t) + (b0 + t * (c0 - b0)) * (poly_eval(
            hi,
            t,
        ) - poly_eval(lo, t)),
{
    let d = poly_sub(hi, lo);
    lemma_eval_sub(hi, lo, t);
    lemma_eval_mul_linear(d, b0, c0 - b0, t);
    lemma_eval_add(lo, poly_mul_linear(d, b0, c0 - b0), t);
    assert((c0 - b0) * t == t * (c0 - b0)) by (nonlinear_arith);
}

/// Folding a table of polynomials and taking values at `t` is folding the
/// table of values by the line's coordinate at `t`.
pub proof fn lemma_line_fold_values(table: Seq<Seq<int>>, b0: int, c0: int, t: int)
    requires
        table.len() % 2 == 0,
    ensures
        values_at(line_fold_table(table, b0, c0), t) == fold_table(
            values_at(table, t),
            b0 + t * (c0 - b0),
        ),
{
    let left = values_at(line_fold_table(table, b0, c0), t);
    let right = fold_table(values_at(table, t), b0 + t * (c0 - b0));
    assert forall|y: int| 0 <= y < left.len() implies left[y] == right[y] by {
        lemma_line_fold_eval(table[2 * y], table[2 * y + 1], b0, c0, t);
    }
    assert(left =~= right);
}

/// The restriction takes at `t` the value of the extension at the line's
/// point at `t`.
pub proof fn lemma_restrict_eval(table: Seq<Seq<int>>, b: Seq<int>, c: Seq<int>, t: int)
    requires
        b.len() == c.len(),
        table.len() == pow2(b.len()),
    ensures
        restrict_table(table, b, c).len() == 1,
        poly_eval(restrict_table(table, b, c)[0], t) == mle_eval(values_at(table, t), line_point(b, c, t)),
    decreases b.len(),
{
    if b.len() == 0 {
        lemma2_to64();
        assert(line_point(b, c, t) =~= Seq::<int>::empty());
        crate::mle::lemma_eval_no_variable(values_at(table, t));
    } else {
        lemma_pow2_unfold(b.len());
        let next = line_fold_table(table, b[0], c[0]);
        lemma_restrict_eval(next, b.drop_first(), c.drop_first(), t);
        lemma_line_fold_values(table, b[0], c[0], t);
        let point = line_point(b, c, t);
        assert(point.drop_first() =~= line_point(b.drop_first(), c.drop_first(), t));
        lemma_eval_fold(values_at(table, t), point);
    }
}

/// The restriction to the line takes, at every `t`, the value of the
/// extension at the line's point at `t`: at 0 the value at `b`, at 1 the value
/// at `c`.
pub proof fn lemma_line_restriction(table: Seq<int>, b: Seq<int>, c: Seq<int>, t: int)
    requires
        b.len() == c.len(),
        table.len() == pow2(b.len()),
    ensures
        poly_eval(line_restriction(table, b, c), t) == mle_eval(table, line_point(b, c, t)),
        poly_eval(line_restriction(table, b, c), 0) == mle_eval(table, b),
        poly_eval(line_restriction(table, b, c), 1) == mle_eval(table, c),
{
    let polys = constant_polys(table);
    lemma_restrict_eval(polys, b, c, t);
    lemma_restrict_eval(polys, b, c, 0);
    lemma_restrict_eval(polys, b, c, 1);
    lemma_line_endpoints(b, c);
    assert forall|s: int| values_at(polys, s) == table by {
        assert forall|x: int| 0 <= x < table.len() implies values_at(polys, s)[x] == table[x] by {
            let p = seq![table[x]];
            assert(p.drop_first().len() == 0);
            assert(poly_eval(p, s) == p[0] + s * poly_eval(p.drop_first(), s));
            assert(s * 0 == 0) by (nonlinear_arith);
        }
        assert(values_at(polys, s) =~= table);
    }
}

/// Folding adds at most one coefficient to the longest polynomial, and the
/// restriction has at most one coefficient more than there are variables.
pub proof fn lemma_restrict_len(table: Seq<Seq<int>>, b: Seq<int>, c: Seq<int>, bound: nat)
    requires
        b.len() == c.len(),
        table.len() == pow2(b.len()),
        lengths_within(table, bound),
    ensures
        restrict_table(table, b, c).len() == 1,
        restrict_table(table, b, c)[0].len() <= bound + b.len(),
    decreases b.len(),
{
    if b.len() == 0 {
        lemma2_to64();
    } else {
        lemma_pow2_unfold(b.len());
        let next = line_fold_table(table, b[0], c[0]);
        assert forall|y: int| 0 <= y < next.len() implies (#[trigger] next[y]).len() <= bound + 1 by {
            assert(table[2 * y].len() <= bound);
            assert(table[2 * y + 1].len() <= bound);
        }
        lemma_restrict_len(next, b.drop_first(), c.drop_first(), bound + 1);
    }
}

/// Folding tables with congruent coefficients along congruent lines gives
/// tables with congruent coefficients.
pub proof fn lemma_restrict_congruent(
    s: Seq<Seq<int>>,
    t: Seq<Seq<int>>,
    b: Seq<int>,
    c: Seq<int>,
)
    requires
        congruent_tables(s, t),
        b.len() == c.len(),
    ensures
        congruent_tables(restrict_table(s, b, c), restrict_table(t, b, c)),
    decreases b.len(),
{
    if b.len() > 0 {
        let s1 = line_fold_table(s, b[0], c[0]);
        let t1 = line_fold_table(t, b[0], c[0]);
        assert forall|y: int| 0 <= y < s1.len() implies congruent_seq(#[trigger] s1[y], t1[y]) by {
            let (sl, sh, tl, th) = (s[2 * y], s[2 * y + 1], t[2 * y], t[2 * y + 1]);
            assert(congruent_seq(sl, tl));
            assert(congruent_seq(sh, th));
            lemma_sub_congruent(sh, th, sl, tl);
            lemma_mul_linear_congruent(
                poly_sub(sh, sl),
                poly_sub(th, tl),
                b[0],
                b[0],
                c[0] - b[0],
                c[0] - b[0],
            );
            lemma_add_congruent(
                sl,
                tl,
                poly_mul_linear(poly_sub(sh, sl), b[0], c[0] - b[0]),
                poly_mul_linear(poly_sub(th, tl), b[0], c[0] - b[0]),
            );
        }
        lemma_restrict_congruent(s1, t1, b.drop_first(), c.drop_first());
    }
}

/// The coefficients of a table of polynomials.
pub open spec fn poly_values(table: Seq<Vec<Fq>>) -> Seq<Seq<int>> {
    Seq::new(table.len(), |y: int| values(table[y]@))
}

/// The pair `lo`, `hi` folded along `b0 + (c0 - b0) X`.
fn fold_pair(lo: &Vec<Fq>, hi: &Vec<Fq>, b0: &Fq, c0: &Fq) -> (r: Vec<Fq>)
    ensures
        values(r@) == residues(line_fold(values(lo@), values(hi@), b0.value(), c0.value())),
{
    let d = sub_polys(hi, lo);
    let slope = c0.sub(b0);
    let m = mul_linear(&d, b0, &slope);
    let r = add_polys(lo, &m);
    proof {
        let (l, h) = (values(lo@), values(hi@));
        let exact_d = poly_sub(h, l);
        lemma_residues_congruent(exact_d);
        lemma_residue_range(c0.value() - b0.value());
        lemma_mul_linear_congruent(
            values(d@),
            exact_d,
            b0.value(),
            b0.value(),
            slope.value(),
            c0.value() - b0.value(),
        );
        let exact_m = poly_mul_linear(exact_d, b0.value(), c0.value() - b0.value());
        lemma_residues_congruent(poly_mul_linear(values(d@), b0.value(), slope.value()));
        assert(congruent_seq(values(m@), exact_m)) by {
            let sent = poly_mul_linear(values(d@), b0.value(), slope.value());
            assert forall|i: int| 0 <= i < exact_m.len() implies congruent(
                #[trigger] values(m@)[i],
                exact_m[i],
            ) by {
                assert(congruent(residues(sent)[i], sent[i]));
                assert(congruent(sent[i], exact_m[i]));
            }
        }
        assert(congruent_seq(l, l));
        lemma_add_congruent(l, l, values(m@), exact_m);
        lemma_residues_equal(poly_add(l, values(m@)), poly_add(l, exact_m));
    }
    r
}

impl Mle {
    /// The coefficients of the restriction of the extension to the line
    /// through `b` at 0 and `c` at 1.
    pub fn restrict_to_line(&self, b: &Vec<Fq>, c: &Vec<Fq>) -> (q: Vec<Fq>)
        requires
            b@.len() == self.arity(),
            c@.len() == self.arity(),
        ensures
            values(q@) == residues(line_restriction(self@, values(b@), values(c@))),
    {
        let ghost bv = values(b@);
        let ghost cv = values(c@);
        let ghost target = restrict_table(constant_polys(self@), bv, cv);
        let n = self.num_vars();
        let evaluations = self.evaluations();
        let mut table: Vec<Vec<Fq>> = Vec::with_capacity(evaluations.len());
        let mut x: usize = 0;
        while x < evaluations.len()
            invariant
                x <= evaluations@.len(),
                values(evaluations@) == self@,
                table@.len() == x,
                forall|y: int| 0 <= y < x ==> values((#[trigger] table@[y])@) == seq![self@[y]],
            decreases evaluations@.len() - x,
        {
            let mut constant: Vec<Fq> = Vec::with_capacity(1);
            constant.push(evaluations[x]);
            proof {
                assert(values(constant@) =~= seq![self@[x as int]]);
            }
            table.push(constant);
            x = x + 1;
        }
        let mut j: usize = 0;
        proof {
            assert(poly_values(table@) =~= constant_polys(self@));
            assert(bv.skip(0) =~= bv && cv.skip(0) =~= cv);
            assert forall|y: int| 0 <= y < target.len() implies congruent_seq(
                #[trigger] target[y],
                target[y],
            ) by {}
        }
        while j < n
            invariant
                j <= n,
                n == self.arity(),
                bv == values(b@),
                cv == values(c@),
                b@.len() == n,
                c@.len() == n,
                target == restrict_table(constant_polys(self@), bv, cv),
                table@.len() == pow2((n - j) as nat),
                congruent_tables(
                    restrict_table(poly_values(table@), bv.skip(j as int), cv.skip(j as int)),
                    target,
                ),
            decreases n - j,
        {
            proof {
                lemma_pow2_unfold((n - j) as nat);
            }
            let half = table.len() / 2;
            assert(table@.len() <= usize::MAX);
            let ghost before = poly_values(table@);
            let mut next: Vec<Vec<Fq>> = Vec::with_capacity(half);
            let mut y: usize = 0;
            while y < half
                invariant
                    y <= half,
                    j < n,
                    b@.len() == n,
                    c@.len() == n,
                    half * 2 == table@.len(),
                    table@.len() <= usize::MAX,
                    before == poly_values(table@),
                    next@.len() == y,
                    forall|h: int|
                        0 <= h < y ==> values((#[trigger] next@[h])@) == residues(
                            line_fold_table(before, b@[j as int].value(), c@[j as int].value())[h],
                        ),
                decreases half - y,
            {
                let folded = fold_pair(&table[2 * y], &table[2 * y + 1], &b[j], &c[j]);
                next.push(folded);
                y = y + 1;
            }
            proof {
                let exact = line_fold_table(before, bv[j as int], cv[j as int]);
                let here_b = bv.skip(j as int);
                let here_c = cv.skip(j as int);
                assert(here_b.drop_first() =~= bv.skip(j + 1));
                assert(here_c.drop_first() =~= cv.skip(j + 1));
                assert(here_b[0] == bv[j as int] && here_c[0] == cv[j as int]);
                assert(congruent_tables(poly_values(next@), exact)) by {
                    assert forall|h: int| 0 <= h < exact.len() implies congruent_seq(
                        #[trigger] poly_values(next@)[h],
                        exact[h],
                    ) by {
                        lemma_residues_congruent(exact[h]);
                    }
                }
                lemma_restrict_congruent(poly_values(next@), exact, bv.skip(j + 1), cv.skip(j + 1));
                let a = restrict_table(poly_values(next@), bv.skip(j + 1), cv.skip(j + 1));
                let m = restrict_table(before, here_b, here_c);
                assert forall|h: int| 0 <= h < a.len() implies congruent_seq(#[trigger] a[h], target[h]) by {
                    assert(congruent_seq(a[h], m[h]));
                    assert(congruent_seq(m[h], target[h]));
                    assert forall|i: int| 0 <= i < a[h].len() implies congruent(
                        #[trigger] a[h][i],
                        target[h][i],
                    ) by {
                        assert(congruent(a[h][i], m[h][i]));
                        assert(congruent(m[h][i], target[h][i]));
                    }
                }
            }
            table = next;
            j = j + 1;
        }
        proof {
            lemma2_to64();
            assert(bv.skip(j as int).len() == 0);
        }
        let q = copy_canonical(&table[0]);
        proof {
            let last = restrict_table(poly_values(table@), bv.skip(j as int), cv.skip(j as int));
            assert(congruent_seq(last[0], target[0]));
            lemma_residues_equal(values(q@), target[0]);
        }
        q
    }
}

/// A copy of `p`, whose coefficients are canonical.
fn copy_canonical(p: &Vec<Fq>) -> (q: Vec<Fq>)
    ensures
        q@ == p@,
        values(q@) == residues(values(q@)),
{
    let q = crate::field::copy_elements(p.as_slice());
    proof {
        assert forall|i: int| 0 <= i < q@.len() implies values(q@)[i] == residues(values(q@))[i] by {
            assert(0 <= values(p@)[i] < crate::field::modulus());
            crate::field::lemma_residue_small(values(q@)[i]);
        }
        assert(values(q@) =~= residues(values(q@)));
    }
    q
}

} // verus!
