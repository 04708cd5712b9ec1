//! Univariate polynomials over the field, as vectors of coefficients with the
//! constant term first.

use vstd::prelude::*;
use crate::field::{
    congruent, congruent_seq, lemma_congruent_add, lemma_congruent_mul, lemma_congruent_sub,
    lemma_residue_range, residue, residues, values, Fq,
};

verus! {

/// The coefficient of `X^k`, which is 0 beyond the last one.
pub open spec fn coefficient(c: Seq<int>, k: int) -> int {
    if 0 <= k < c.len() {
        c[k]
    } else {
        0
    }
}

/// The value at `x` of the polynomial with coefficients `c`.
pub open spec fn poly_eval(c: Seq<int>, x: int) -> int
    decreases c.len(),
{
    if c.len() == 0 {
        0
    } else {
        c[0] + x * poly_eval(c.drop_first(), x)
    }
}

/// The longer of two lengths.
pub open spec fn longer(a: nat, b: nat) -> nat {
    if a >= b {
        a
    } else {
        b
    }
}

/// The sum of two polynomials.
pub open spec fn poly_add(a: Seq<int>, b: Seq<int>) -> Seq<int> {
    Seq::new(longer(a.len(), b.len()), |k: int| coefficient(a, k) + coefficient(b, k))
}

/// The difference of two polynomials.
pub open spec fn poly_sub(a: Seq<int>, b: Seq<int>) -> Seq<int> {
    Seq::new(longer(a.len(), b.len()), |k: int| coefficient(a, k) - coefficient(b, k))
}

/// The product of a polynomial with `a0 + a1 X`.
pub open spec fn poly_mul_linear(c: Seq<int>, a0: int, a1: int) -> Seq<int> {
    Seq::new(c.len() + 1, |k: int| a0 * coefficient(c, k) + a1 * coefficient(c, k - 1))
}

/// The value of a sum is the sum of the values.
pub proof fn lemma_eval_add(a: Seq<int>, b: Seq<int>, x: int)
    ensures
        poly_eval(poly_add(a, b), x) == poly_eval(a, x) + poly_eval(b, x),
    decreases a.len() + b.len(),
{
    let s = poly_add(a, b);
    if a.len() == 0 && b.len() == 0 {
    } else if a.len() == 0 {
        assert(s =~= b);
    } else if b.len() == 0 {
        assert(s =~= a);
    } else {
        lemma_eval_add(a.drop_first(), b.drop_first(), x);
        assert(s.drop_first() =~= poly_add(a.drop_first(), b.drop_first()));
        assert(x * (poly_eval(a.drop_first(), x) + poly_eval(b.drop_first(), x)) == x * poly_eval(
            a.drop_first(),
            x,
        ) + x * poly_eval(b.drop_first(), x)) by (nonlinear_arith);
    }
}

/// The value of the negated polynomial is the negated value.
proof fn lemma_eval_negate(b: Seq<int>, x: int)
    ensures
        poly_eval(poly_sub(Seq::<int>::empty(), b), x) == -poly_eval(b, x),
    decreases b.len(),
{
    let e = Seq::<int>::empty();
    let s = poly_sub(e, b);
    if b.len() > 0 {
        lemma_eval_negate(b.drop_first(), x);
        assert(s.drop_first() =~= poly_sub(e, b.drop_first()));
        assert(x * (-poly_eval(b.drop_first(), x)) == -(x * poly_eval(b.drop_first(), x)))
            by (nonlinear_arith);
    }
}

/// The value of a difference is the difference of the values.
pub proof fn lemma_eval_sub(a: Seq<int>, b: Seq<int>, x: int)
    ensures
        poly_eval(poly_sub(a, b), x) == poly_eval(a, x) - poly_eval(b, x),
    decreases a.len() + b.len(),
{
    let s = poly_sub(a, b);
    if a.len() == 0 {
        assert(a =~= Seq::<int>::empty());
        lemma_eval_negate(b, x);
    } else if b.len() == 0 {
        assert(s =~= a);
    } else {
        lemma_eval_sub(a.drop_first(), b.drop_first(), x);
        assert(s.drop_first() =~= poly_sub(a.drop_first(), b.drop_first()));
        assert(x * (poly_eval(a.drop_first(), x) - poly_eval(b.drop_first(), x)) == x * poly_eval(
            a.drop_first(),
            x,
        ) - x * poly_eval(b.drop_first(), x)) by (nonlinear_arith);
    }
}

/// The value of a product with a linear factor is the product of the values.
pub proof fn lemma_eval_mul_linear(c: Seq<int>, a0: int, a1: int, x: int)
    ensures
        poly_eval(poly_mul_linear(c, a0, a1), x) == (a0 + a1 * x) * poly_eval(c, x),
    decreases c.len(),
{
    let p = poly_mul_linear(c, a0, a1);
    if c.len() == 0 {
        assert(p.drop_first().len() == 0);
        assert(p[0] == 0) by (nonlinear_arith)
            requires
                p[0] == a0 * 0 + a1 * 0,
        ;
        assert(poly_eval(p, x) == p[0] + x * poly_eval(p.drop_first(), x));
        assert(x * 0 == 0 && (a0 + a1 * x) * 0 == 0) by (nonlinear_arith);
    } else {
        let rest = c.drop_first();
        let q = poly_mul_linear(rest, a0, a1);
        lemma_eval_mul_linear(rest, a0, a1, x);
        let tail = p.drop_first();
        assert(tail.drop_first() =~= q.drop_first());
        assert(coefficient(rest, -1) == 0);
        assert(q[0] == a0 * coefficient(rest, 0)) by (nonlinear_arith)
            requires
                q[0] == a0 * coefficient(rest, 0) + a1 * 0,
        ;
        assert(p[0] == a0 * c[0]) by (nonlinear_arith)
            requires
                p[0] == a0 * c[0] + a1 * 0,
        ;
        assert(tail[0] == a0 * coefficient(rest, 0) + a1 * c[0]);
        let e = poly_eval(rest, x);
        let t = poly_eval(q.drop_first(), x);
        assert(poly_eval(q, x) == q[0] + x * t);
        assert(poly_eval(tail, x) == tail[0] + x * t);
        assert(poly_eval(p, x) == p[0] + x * poly_eval(tail, x));
        let w = a0 * coefficient(rest, 0) + x * t;
        let c0 = c[0];
        assert(a0 * c0 + x * (w + a1 * c0) == (a0 + a1 * x) * (c0 + x * e)) by (nonlinear_arith)
            requires
                w == (a0 + a1 * x) * e,
        ;
        assert(poly_eval(c, x) == c0 + x * e);
        assert(poly_eval(p, x) == a0 * c0 + x * (w + a1 * c0));
    }
}

/// Polynomials with congruent coefficients take congruent values at
/// congruent points.
pub proof fn lemma_eval_congruent(a: Seq<int>, b: Seq<int>, x: int, y: int)
    requires
        congruent_seq(a, b),
        congruent(x, y),
    ensures
        congruent(poly_eval(a, x), poly_eval(b, y)),
    decreases a.len(),
{
    if a.len() > 0 {
        assert forall|i: int| 0 <= i < a.drop_first().len() implies congruent(
            #[trigger] a.drop_first()[i],
            b.drop_first()[i],
        ) by {
            assert(congruent(a[i + 1], b[i + 1]));
        }
        lemma_eval_congruent(a.drop_first(), b.drop_first(), x, y);
        lemma_congruent_mul(x, y, poly_eval(a.drop_first(), x), poly_eval(b.drop_first(), y));
        assert(congruent(a[0], b[0]));
        lemma_congruent_add(
            a[0],
            b[0],
            x * poly_eval(a.drop_first(), x),
            y * poly_eval(b.drop_first(), y),
        );
    }
}

/// Sums of polynomials with congruent coefficients have congruent
/// coefficients.
pub proof fn lemma_add_congruent(a: Seq<int>, b: Seq<int>, c: Seq<int>, d: Seq<int>)
    requires
        congruent_seq(a, b),
        congruent_seq(c, d),
    ensures
        congruent_seq(poly_add(a, c), poly_add(b, d)),
{
    assert forall|k: int| 0 <= k < poly_add(a, c).len() implies congruent(
        #[trigger] poly_add(a, c)[k],
        poly_add(b, d)[k],
    ) by {
        if k < a.len() {
            assert(congruent(a[k], b[k]));
        }
        if k < c.len() {
            assert(congruent(c[k], d[k]));
        }
        lemma_congruent_add(coefficient(a, k), coefficient(b, k), coefficient(c, k), coefficient(d, k));
    }
}

/// Differences of polynomials with congruent coefficients have congruent
/// coefficients.
pub proof fn lemma_sub_congruent(a: Seq<int>, b: Seq<int>, c: Seq<int>, d: Seq<int>)
    requires
        congruent_seq(a, b),
        congruent_seq(c, d),
    ensures
        congruent_seq(poly_sub(a, c), poly_sub(b, d)),
{
    assert forall|k: int| 0 <= k < poly_sub(a, c).len() implies congruent(
        #[trigger] poly_sub(a, c)[k],
        poly_sub(b, d)[k],
    ) by {
        if k < a.len() {
            assert(congruent(a[k], b[k]));
        }
        if k < c.len() {
            assert(congruent(c[k], d[k]));
        }
        lemma_congruent_sub(coefficient(a, k), coefficient(b, k), coefficient(c, k), coefficient(d, k));
    }
}

/// Products of congruent polynomials with congruent linear factors have
/// congruent coefficients.
pub proof fn lemma_mul_linear_congruent(a: Seq<int>, b: Seq<int>, a0: int, b0: int, a1: int, b1: int)
    requires
        congruent_seq(a, b),
        congruent(a0, b0),
        congruent(a1, b1),
    ensures
        congruent_seq(poly_mul_linear(a, a0, a1), poly_mul_linear(b, b0, b1)),
{
    assert forall|k: int| 0 <= k < poly_mul_linear(a, a0, a1).len() implies congruent(
        #[trigger] poly_mul_linear(a, a0, a1)[k],
        poly_mul_linear(b, b0, b1)[k],
    ) by {
        if k < a.len() {
            assert(congruent(a[k], b[k]));
        }
        if 1 <= k {
            assert(congruent(a[k - 1], b[k - 1]));
        }
        lemma_congruent_mul(a0, b0, coefficient(a, k), coefficient(b, k));
        lemma_congruent_mul(a1, b1, coefficient(a, k - 1), coefficient(b, k - 1));
        lemma_congruent_add(
            a0 * coefficient(a, k),
            b0 * coefficient(b, k),
            a1 * coefficient(a, k - 1),
            b1 * coefficient(b, k - 1),
        );
    }
}

/// The coefficient of `X^k` of `p`, zero beyond the last.
fn coefficient_at(p: &Vec<Fq>, k: usize) -> (r: Fq)
    ensures
        r.value() == coefficient(values(p@), k as int),
{
    if k < p.len() {
        p[k]
    } else {
        Fq::zero()
    }
}

/// The value of the polynomial `p` at `x`, by Horner's rule.
pub fn evaluate(p: &Vec<Fq>, x: &Fq) -> (r: Fq)
    ensures
        r.value() == residue(poly_eval(values(p@), x.value())),
{
    let ghost c = values(p@);
    let mut acc = Fq::zero();
    let mut k: usize = p.len();
    proof {
        assert(c.skip(k as int).len() == 0);
        lemma_residue_range(0);
    }
    while k > 0
        invariant
            k <= p@.len(),
            c == values(p@),
            acc.value() == residue(poly_eval(c.skip(k as int), x.value())),
        decreases k,
    {
        k = k - 1;
        let ghost before = acc.value();
        acc = acc.mul(x).add(&p[k]);
        proof {
            let tail = c.skip(k + 1);
            let here = c.skip(k as int);
            assert(here.drop_first() =~= tail);
            assert(here[0] == p@[k as int].value());
            let e = poly_eval(tail, x.value());
            lemma_residue_range(e);
            lemma_residue_range(before * x.value());
            lemma_congruent_mul(before, e, x.value(), x.value());
            lemma_congruent_add(residue(before * x.value()), e * x.value(), here[0], here[0]);
            assert(e * x.value() == x.value() * e) by (nonlinear_arith);
        }
    }
    proof {
        assert(c.skip(0) =~= c);
    }
    acc
}

/// The sum of two polynomials.
pub fn add_polys(a: &Vec<Fq>, b: &Vec<Fq>) -> (r: Vec<Fq>)
    ensures
        values(r@) == residues(poly_add(values(a@), values(b@))),
{
    let n = if a.len() >= b.len() {
        a.len()
    } else {
        b.len()
    };
    let mut out: Vec<Fq> = Vec::with_capacity(n);
    let mut k: usize = 0;
    while k < n
        invariant
            k <= n,
            n == longer(a@.len(), b@.len()),
            out@.len() == k,
            forall|j: int|
                0 <= j < k ==> (#[trigger] out@[j]).value() == residue(
                    poly_add(values(a@), values(b@))[j],
                ),
        decreases n - k,
    {
        let v = coefficient_at(a, k).add(&coefficient_at(b, k));
        out.push(v);
        k = k + 1;
    }
    proof {
        assert(values(out@) =~= residues(poly_add(values(a@), values(b@))));
    }
    out
}

/// The difference of two polynomials.
pub fn sub_polys(a: &Vec<Fq>, b: &Vec<Fq>) -> (r: Vec<Fq>)
    ensures
        values(r@) == residues(poly_sub(values(a@), values(b@))),
{
    let n = if a.len() >= b.len() {
        a.len()
    } else {
        b.len()
    };
    let mut out: Vec<Fq> = Vec::with_capacity(n);
    let mut k: usize = 0;
    while k < n
        invariant
            k <= n,
            n == longer(a@.len(), b@.len()),
            out@.len() == k,
            forall|j: int|
                0 <= j < k ==> (#[trigger] out@[j]).value() == residue(
                    poly_sub(values(a@), values(b@))[j],
                ),
        decreases n - k,
    {
        let v = coefficient_at(a, k).sub(&coefficient_at(b, k));
        out.push(v);
        k = k + 1;
    }
    proof {
        assert(values(out@) =~= residues(poly_sub(values(a@), values(b@))));
    }
    out
}

/// The product of the polynomial `p` with `a0 + a1 X`.
pub fn mul_linear(p: &Vec<Fq>, a0: &Fq, a1: &Fq) -> (r: Vec<Fq>)
    ensures
        values(r@) == residues(poly_mul_linear(values(p@), a0.value(), a1.value())),
{
    let ghost product = poly_mul_linear(values(p@), a0.value(), a1.value());
    let mut out: Vec<Fq> = Vec::new();
    let mut before = Fq::zero();
    let mut k: usize = 0;
    while k < p.len()
        invariant
            k <= p@.len(),
            product == poly_mul_linear(values(p@), a0.value(), a1.value()),
            out@.len() == k,
            before.value() == coefficient(values(p@), k - 1),
            forall|j: int| 0 <= j < k ==> (#[trigger] out@[j]).value() == residue(product[j]),
        decreases p@.len() - k,
    {
        let here = p[k];
        let low = a0.mul(&here);
        let high = a1.mul(&before);
        let v = low.add(&high);
        proof {
            lemma_residue_range(a0.value() * here.value());
            lemma_residue_range(a1.value() * before.value());
            lemma_congruent_add(
                low.value(),
                a0.value() * here.value(),
                high.value(),
                a1.value() * before.value(),
            );
        }
        out.push(v);
        before = here;
        k = k + 1;
    }
    let last = a1.mul(&before);
    proof {
        assert(a0.value() * 0 == 0) by (nonlinear_arith);
    }
    out.push(last);
    proof {
        assert(values(out@) =~= residues(product));
    }
    out
}

} // verus!
