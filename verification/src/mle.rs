//! Multilinear extensions of tables indexed by the boolean hypercube.
//!
//! A table of `2^n` field elements is read as a function on `{0,1}^n`: entry
//! `x` belongs to the point whose coordinate `j` is bit `j` of `x`, so the
//! first coordinate is the lowest-order bit. Its multilinear extension is the
//! one polynomial of degree at most one in each variable that takes the
//! table's values on the hypercube.

use vstd::prelude::*;
use vstd::arithmetic::power2::*;
use crate::field::{
    congruent, congruent_seq, copy_elements, lemma_congruent_mul, lemma_residues_congruent, residue,
    residues, values, Fq,
};
use crate::summation::{lemma_sum_congruent, lemma_sum_pairs, seq_sum};

verus! {

/// The multilinear polynomial that is 1 at the hypercube point `x` and 0 at
/// every other one, taken at `point`: the product over the coordinates `j` of
/// `point[j]` where bit `j` of `x` is set and of `1 - point[j]` where it is not.
pub open spec fn basis(x: int, point: Seq<int>) -> int
    decreases point.len(),
{
    if point.len() == 0 {
        1
    } else {
        (if x % 2 == 1 {
            point[0]
        } else {
            1 - point[0]
        }) * basis(x / 2, point.drop_first())
    }
}

/// The multilinear extension of `table` at `point`: the sum over the hypercube
/// of each entry times its basis polynomial.
pub open spec fn mle_eval(table: Seq<int>, point: Seq<int>) -> int {
    seq_sum(Seq::new(table.len(), |x: int| table[x] * basis(x, point)))
}

/// The table of the extension with its first variable set to `r`.
pub open spec fn fold_table(table: Seq<int>, r: int) -> Seq<int> {
    Seq::new((table.len() / 2) as nat, |y: int| table[2 * y] + r * (table[2 * y + 1] - table[2 * y]))
}

/// The index of the hypercube point with the given coordinates, each 0 or 1.
pub open spec fn hypercube_index(bits: Seq<int>) -> int
    decreases bits.len(),
{
    if bits.len() == 0 {
        0
    } else {
        bits[0] + 2 * hypercube_index(bits.drop_first())
    }
}

/// A point all of whose coordinates are 0 or 1.
pub open spec fn is_boolean(point: Seq<int>) -> bool {
    forall|j: int| 0 <= j < point.len() ==> #[trigger] point[j] == 0 || point[j] == 1
}

/// Setting the first variable and extending the folded table gives the
/// extension of the whole table.
pub proof fn lemma_eval_fold(table: Seq<int>, point: Seq<int>)
    requires
        point.len() >= 1,
        table.len() % 2 == 0,
    ensures
        mle_eval(table, point) == mle_eval(fold_table(table, point[0]), point.drop_first()),
{
    let r = point[0];
    let rest = point.drop_first();
    let folded = fold_table(table, r);
    let terms = Seq::new(table.len(), |x: int| table[x] * basis(x, point));
    let pairs = Seq::new((terms.len() / 2) as nat, |y: int| terms[2 * y] + terms[2 * y + 1]);
    let folded_terms = Seq::new(folded.len(), |y: int| folded[y] * basis(y, rest));
    lemma_sum_pairs(terms);
    // the points 2y and 2y + 1 differ in the first coordinate only: their two
    // terms make the term of y in the folded table
    assert forall|y: int| 0 <= y < pairs.len() implies pairs[y] == folded_terms[y] by {
        let b = basis(y, rest);
        let (lo, hi) = (table[2 * y], table[2 * y + 1]);
        assert((2 * y) / 2 == y && (2 * y + 1) / 2 == y);
        assert(basis(2 * y, point) == (1 - r) * b);
        assert(basis(2 * y + 1, point) == r * b);
        assert(lo * ((1 - r) * b) + hi * (r * b) == (lo + r * (hi - lo)) * b) by (nonlinear_arith);
    }
    assert(pairs =~= folded_terms);
}

/// With no variable the extension is the table's one entry.
pub proof fn lemma_eval_no_variable(table: Seq<int>)
    requires
        table.len() == 1,
    ensures
        mle_eval(table, Seq::<int>::empty()) == table[0],
{
    let terms = Seq::new(table.len(), |x: int| table[x] * basis(x, Seq::<int>::empty()));
    assert(terms.drop_last().len() == 0);
    assert(seq_sum(terms) == seq_sum(terms.drop_last()) + terms.last());
}

/// The extensions of tables that are congruent entry by entry are congruent.
pub proof fn lemma_eval_congruent(a: Seq<int>, b: Seq<int>, point: Seq<int>)
    requires
        congruent_seq(a, b),
    ensures
        congruent(mle_eval(a, point), mle_eval(b, point)),
{
    let ta = Seq::new(a.len(), |x: int| a[x] * basis(x, point));
    let tb = Seq::new(b.len(), |x: int| b[x] * basis(x, point));
    assert forall|x: int| 0 <= x < ta.len() implies congruent(#[trigger] ta[x], tb[x]) by {
        assert(congruent(a[x], b[x]));
        lemma_congruent_mul(a[x], b[x], basis(x, point), basis(x, point));
    }
    lemma_sum_congruent(ta, tb);
}

/// Folding the first variable at `r` and evaluating at the other coordinates
/// gives what the whole extension takes at the whole point.
pub proof fn lemma_fold_then_eval(table: Seq<int>, r: int, rest: Seq<int>)
    requires
        table.len() % 2 == 0,
    ensures
        congruent(mle_eval(residues(fold_table(table, r)), rest), mle_eval(table, seq![r] + rest)),
{
    let point = seq![r] + rest;
    assert(point.drop_first() =~= rest);
    lemma_residues_congruent(fold_table(table, r));
    lemma_eval_congruent(residues(fold_table(table, r)), fold_table(table, r), rest);
    lemma_eval_fold(table, point);
}

/// The table with its first variables set to `rs`, one after the other, and
/// reduced after each.
pub open spec fn fold_prefix(table: Seq<int>, rs: Seq<int>) -> Seq<int>
    decreases rs.len(),
{
    if rs.len() == 0 {
        table
    } else {
        fold_prefix(residues(fold_table(table, rs[0])), rs.drop_first())
    }
}

/// The entries of `table` from `y * size` up to `(y + 1) * size`.
pub open spec fn block(table: Seq<int>, y: int, size: int) -> Seq<int> {
    table.subrange(y * size, (y + 1) * size)
}

/// Setting one more variable is one more fold.
pub proof fn lemma_fold_prefix_push(table: Seq<int>, rs: Seq<int>, r: int)
    ensures
        fold_prefix(table, rs.push(r)) == residues(fold_table(fold_prefix(table, rs), r)),
    decreases rs.len(),
{
    let all = rs.push(r);
    if rs.len() == 0 {
        assert(all.drop_first() =~= rs);
        assert(all[0] == r);
        assert(fold_prefix(table, all) == fold_prefix(residues(fold_table(table, r)), rs));
    } else {
        let first = residues(fold_table(table, rs[0]));
        lemma_fold_prefix_push(first, rs.drop_first(), r);
        assert(all.drop_first() =~= rs.drop_first().push(r));
        assert(all[0] == rs[0]);
    }
}

/// Setting the first variables to `rs` and evaluating at `rest` gives what
/// the whole extension takes at `rs` followed by `rest`.
pub proof fn lemma_fold_prefix_eval(table: Seq<int>, rs: Seq<int>, rest: Seq<int>, m: nat)
    requires
        table.len() == pow2(rs.len()) * m,
    ensures
        fold_prefix(table, rs).len() == m,
        congruent(mle_eval(fold_prefix(table, rs), rest), mle_eval(table, rs + rest)),
    decreases rs.len(),
{
    if rs.len() == 0 {
        lemma2_to64();
        assert(rs + rest =~= rest);
        assert(1 * m == m) by (nonlinear_arith);
    } else {
        let k = rs.len();
        let h = pow2((k - 1) as nat);
        lemma_pow2_unfold(k);
        assert(table.len() == 2 * (h * m)) by (nonlinear_arith)
            requires
                table.len() == (2 * h) * m,
        ;
        let first = residues(fold_table(table, rs[0]));
        lemma_fold_prefix_eval(first, rs.drop_first(), rest, m);
        lemma_fold_then_eval(table, rs[0], rs.drop_first() + rest);
        assert(seq![rs[0]] + (rs.drop_first() + rest) =~= rs + rest);
    }
}

/// Entry `y` of the table with its first variables set to `rs` is the value
/// at `rs` of the extension of the `y`-th block of the table.
pub proof fn lemma_fold_prefix_entry(table: Seq<int>, rs: Seq<int>, m: nat, y: int)
    requires
        table.len() == pow2(rs.len()) * m,
        0 <= y < m,
    ensures
        fold_prefix(table, rs).len() == m,
        congruent(fold_prefix(table, rs)[y], mle_eval(block(table, y, pow2(rs.len()) as int), rs)),
    decreases rs.len(),
{
    let k = rs.len();
    let size = pow2(k) as int;
    lemma_pow2_pos(k);
    assert(0 <= y * size && (y + 1) * size <= size * m) by (nonlinear_arith)
        requires
            0 <= y < m,
            size > 0,
    ;
    if k == 0 {
        lemma2_to64();
        assert(1 * m == m) by (nonlinear_arith);
        assert(rs =~= Seq::<int>::empty());
        assert(y * 1 == y && (y + 1) * 1 == y + 1) by (nonlinear_arith);
        assert(block(table, y, 1).len() == 1);
        lemma_eval_no_variable(block(table, y, 1));
        assert(block(table, y, 1)[0] == table[y]);
    } else {
        let h = pow2((k - 1) as nat) as int;
        lemma_pow2_unfold(k);
        lemma_pow2_pos((k - 1) as nat);
        assert(table.len() == 2 * (h * m)) by (nonlinear_arith)
            requires
                table.len() == (2 * h) * m,
        ;
        assert(0 <= y * h && (y + 1) * h <= h * m) by (nonlinear_arith)
            requires
                0 <= y < m,
                h > 0,
        ;
        let first = residues(fold_table(table, rs[0]));
        let here = block(table, y, size);
        // folding acts block by block: block y of the folded table is the fold
        // of block y of the table
        lemma_fold_prefix_entry(first, rs.drop_first(), m, y);
        assert(block(first, y, h) =~= residues(fold_table(here, rs[0]))) by {
            assert((y + 1) * h - y * h == h) by (nonlinear_arith);
            assert((y + 1) * (2 * h) - y * (2 * h) == 2 * h) by (nonlinear_arith);
            assert forall|j: int| 0 <= j < h implies block(first, y, h)[j] == residues(
                fold_table(here, rs[0]),
            )[j] by {
                assert(2 * (y * h + j) == y * (2 * h) + 2 * j) by (nonlinear_arith);
                assert(y * h + j < h * m) by (nonlinear_arith)
                    requires
                        0 <= y < m,
                        0 <= j < h,
                ;
            }
        }
        assert(here.len() == 2 * h) by {
            assert((y + 1) * size - y * size == size) by (nonlinear_arith);
        }
        lemma_fold_then_eval(here, rs[0], rs.drop_first());
        assert(seq![rs[0]] + rs.drop_first() =~= rs);
    }
}

/// The extension of a table with one value everywhere is that value.
pub proof fn lemma_eval_constant(table: Seq<int>, point: Seq<int>, v: int)
    requires
        table.len() == pow2(point.len()),
        forall|x: int| 0 <= x < table.len() ==> table[x] == v,
    ensures
        mle_eval(table, point) == v,
    decreases point.len(),
{
    if point.len() == 0 {
        lemma2_to64();
        assert(point =~= Seq::<int>::empty());
        lemma_eval_no_variable(table);
    } else {
        lemma_pow2_unfold(point.len());
        let folded = fold_table(table, point[0]);
        assert forall|y: int| 0 <= y < folded.len() implies folded[y] == v by {
            assert(point[0] * (v - v) == 0) by (nonlinear_arith);
        }
        lemma_eval_fold(table, point);
        lemma_eval_constant(folded, point.drop_first(), v);
    }
}

/// The extension at congruent points takes congruent values.
pub proof fn lemma_eval_congruent_points(table: Seq<int>, p: Seq<int>, q: Seq<int>)
    requires
        congruent_seq(p, q),
        table.len() == pow2(p.len()),
    ensures
        congruent(mle_eval(table, p), mle_eval(table, q)),
    decreases p.len(),
{
    if p.len() == 0 {
        assert(p =~= q);
    } else {
        lemma_pow2_unfold(p.len());
        let fp = fold_table(table, p[0]);
        let fq = fold_table(table, q[0]);
        assert(congruent(p[0], q[0]));
        assert forall|y: int| 0 <= y < fp.len() implies congruent(#[trigger] fp[y], fq[y]) by {
            let (lo, hi) = (table[2 * y], table[2 * y + 1]);
            lemma_congruent_mul(p[0], q[0], hi - lo, hi - lo);
            crate::field::lemma_congruent_add(lo, lo, p[0] * (hi - lo), q[0] * (hi - lo));
        }
        assert forall|i: int| 0 <= i < p.drop_first().len() implies congruent(
            #[trigger] p.drop_first()[i],
            q.drop_first()[i],
        ) by {
            assert(congruent(p[i + 1], q[i + 1]));
        }
        lemma_eval_fold(table, p);
        lemma_eval_fold(table, q);
        lemma_eval_congruent(fp, fq, p.drop_first());
        lemma_eval_congruent_points(fq, p.drop_first(), q.drop_first());
    }
}

/// On the hypercube the extension takes the table's values: at a point whose
/// coordinates are all 0 or 1 it equals the entry at that point's index.
pub proof fn lemma_eval_on_hypercube(table: Seq<int>, point: Seq<int>)
    requires
        table.len() == pow2(point.len()),
        is_boolean(point),
    ensures
        0 <= hypercube_index(point) < table.len(),
        mle_eval(table, point) == table[hypercube_index(point)],
    decreases point.len(),
{
    if point.len() == 0 {
        lemma2_to64();
        assert(point =~= Seq::<int>::empty());
        lemma_eval_no_variable(table);
    } else {
        lemma_pow2_unfold(point.len());
        let rest = point.drop_first();
        let folded = fold_table(table, point[0]);
        assert(point[0] == 0 || point[0] == 1);
        assert forall|j: int| 0 <= j < rest.len() implies #[trigger] rest[j] == 0 || rest[j]
            == 1 by {
            assert(rest[j] == point[j + 1]);
        }
        lemma_eval_fold(table, point);
        lemma_eval_on_hypercube(folded, rest);
    }
}

/// Whether `len` is `2^n`.
pub fn is_pow2_of(len: usize, n: usize) -> (r: bool)
    ensures
        r == (len == pow2(n as nat)),
{
    let mut p: usize = 1;
    let mut i: usize = 0;
    proof {
        lemma2_to64();
    }
    while i < n
        invariant
            i <= n,
            p == pow2(i as nat),
            p <= len || (i == 0 && len == 0),
        decreases n - i,
    {
        proof {
            lemma_pow2_unfold((i + 1) as nat);
            if i + 1 < n {
                lemma_pow2_strictly_increases((i + 1) as nat, n as nat);
            }
        }
        if p > len / 2 {
            return false;
        }
        p = 2 * p;
        i = i + 1;
    }
    p == len
}

/// A length that is some power of two.
pub open spec fn is_power_of_two(n: nat) -> bool {
    exists|k: nat| n == pow2(k)
}

/// Whether `n` is a power of two.
pub fn power_of_two(n: usize) -> (r: bool)
    ensures
        r == is_power_of_two(n as nat),
{
    let mut p: usize = 1;
    let ghost mut i: nat = 0;
    proof {
        lemma2_to64();
    }
    while p < n
        invariant
            p >= 1,
            p == pow2(i),
            i == 0 || pow2((i - 1) as nat) < n,
        decreases n - p,
    {
        proof {
            lemma_pow2_unfold(i + 1);
        }
        if p > n / 2 {
            proof {
                assert forall|k: nat| n != pow2(k) by {
                    if k < i {
                        lemma_pow2_strictly_increases(k, i);
                    } else if k > i + 1 {
                        lemma_pow2_strictly_increases(i + 1, k);
                    }
                }
            }
            return false;
        }
        p = 2 * p;
        proof {
            i = i + 1;
        }
    }
    proof {
        if p != n {
            assert forall|k: nat| n != pow2(k) by {
                if i > 0 && k < i - 1 {
                    lemma_pow2_strictly_increases(k, (i - 1) as nat);
                } else if k > i {
                    lemma_pow2_strictly_increases(i, k);
                }
            }
        }
    }
    p == n
}

/// `2^n`, where it fits.
pub fn pow2_checked(n: usize) -> (r: Option<usize>)
    ensures
        r is Some <==> pow2(n as nat) <= usize::MAX,
        r is Some ==> r->0 == pow2(n as nat),
{
    let mut p: usize = 1;
    let mut i: usize = 0;
    proof {
        lemma2_to64();
    }
    while i < n
        invariant
            i <= n,
            p == pow2(i as nat),
        decreases n - i,
    {
        proof {
            lemma_pow2_unfold((i + 1) as nat);
            if i + 1 < n {
                lemma_pow2_strictly_increases((i + 1) as nat, n as nat);
            }
        }
        if p > usize::MAX / 2 {
            return None;
        }
        p = 2 * p;
        i = i + 1;
    }
    Some(p)
}

/// The multilinear extension of a table of `2^n` field elements.
pub struct Mle {
    num_vars: usize,
    evaluations: Vec<Fq>,
}

impl Mle {
    /// The number of variables.
    pub closed spec fn arity(&self) -> nat {
        self.num_vars as nat
    }

    /// The table: the representatives of the values on the hypercube.
    pub closed spec fn view(&self) -> Seq<int> {
        values(self.evaluations@)
    }

    /// The table has one entry for each point of the hypercube.
    #[verifier::type_invariant]
    pub open spec fn well_formed(&self) -> bool {
        self@.len() == pow2(self.arity())
    }

    /// The extension of `evaluations`, read as the values on `{0,1}^num_vars`;
    /// none where that is not their number.
    pub fn build(num_vars: usize, evaluations: Vec<Fq>) -> (r: Option<Mle>)
        ensures
            r is Some <==> evaluations@.len() == pow2(num_vars as nat),
            r is Some ==> r->0.arity() == num_vars && r->0@ == values(evaluations@),
    {
        if is_pow2_of(evaluations.len(), num_vars) {
            Some(Mle { num_vars, evaluations })
        } else {
            None
        }
    }

    /// The extension of a table that is known to have `2^num_vars` entries.
    pub(crate) fn from_table(num_vars: usize, evaluations: Vec<Fq>) -> (r: Mle)
        requires
            evaluations@.len() == pow2(num_vars as nat),
        ensures
            r.arity() == num_vars,
            r@ == values(evaluations@),
    {
        Mle { num_vars, evaluations }
    }

    /// A copy of the extension.
    pub fn duplicate(&self) -> (r: Mle)
        ensures
            r.arity() == self.arity(),
            r@ == self@,
    {
        proof {
            use_type_invariant(self);
        }
        Mle { num_vars: self.num_vars, evaluations: copy_elements(self.evaluations.as_slice()) }
    }

    /// The number of variables.
    pub fn num_vars(&self) -> (n: usize)
        ensures
            n == self.arity(),
            self@.len() == pow2(self.arity()),
    {
        proof {
            use_type_invariant(self);
        }
        self.num_vars
    }

    /// The values on the hypercube, in the order of their indices.
    pub fn evaluations(&self) -> (v: &Vec<Fq>)
        ensures
            values(v@) == self@,
            v@.len() == pow2(self.arity()),
    {
        proof {
            use_type_invariant(self);
        }
        &self.evaluations
    }

    /// The extension with its first variable set to `challenge`: a table of
    /// half the size.
    pub fn fold_one_variable(&self, challenge: &Fq) -> (r: Mle)
        requires
            self.arity() >= 1,
        ensures
            r.arity() == self.arity() - 1,
            r@ == residues(fold_table(self@, challenge.value())),
    {
        proof {
            use_type_invariant(self);
            lemma_pow2_unfold(self.arity());
        }
        let half = self.evaluations.len() / 2;
        let mut out: Vec<Fq> = Vec::with_capacity(half);
        let mut y: usize = 0;
        while y < half
            invariant
                y <= half,
                half * 2 == self.evaluations.len(),
                out.len() == y,
                forall|j: int|
                    0 <= j < y ==> (#[trigger] out[j]).value() == residue(
                        fold_table(self@, challenge.value())[j],
                    ),
            decreases half - y,
        {
            let v = Fq::interpolate(&self.evaluations[2 * y], &self.evaluations[2 * y + 1], challenge);
            out.push(v);
            y = y + 1;
        }
        assert(values(out@) =~= residues(fold_table(self@, challenge.value())));
        Mle { num_vars: self.num_vars - 1, evaluations: out }
    }

    /// The extension with its first variables set to the coordinates of
    /// `partial_point`: a table over the other variables.
    pub fn fix_variables(&self, partial_point: &Vec<Fq>) -> (r: Mle)
        requires
            partial_point@.len() <= self.arity(),
        ensures
            r.arity() == self.arity() - partial_point@.len(),
            r@ == fold_prefix(self@, values(partial_point@)),
    {
        let ghost pv = values(partial_point@);
        let mut cur = self.duplicate();
        let mut j: usize = 0;
        proof {
            assert(pv.take(0) =~= Seq::<int>::empty());
        }
        while j < partial_point.len()
            invariant
                j <= partial_point@.len(),
                partial_point@.len() <= self.arity(),
                pv == values(partial_point@),
                cur.arity() == self.arity() - j,
                cur@ == fold_prefix(self@, pv.take(j as int)),
            decreases partial_point@.len() - j,
        {
            proof {
                lemma_fold_prefix_push(self@, pv.take(j as int), pv[j as int]);
                assert(pv.take(j as int).push(pv[j as int]) =~= pv.take(j + 1));
            }
            cur = cur.fold_one_variable(&partial_point[j]);
            j = j + 1;
        }
        proof {
            assert(pv.take(j as int) =~= pv);
        }
        cur
    }

    /// The value of the extension at `point`.
    pub fn evaluate(&self, point: &Vec<Fq>) -> (r: Fq)
        requires
            point@.len() == self.arity(),
        ensures
            r.value() == residue(mle_eval(self@, values(point@))),
    {
        proof {
            use_type_invariant(self);
        }
        let ghost pv = values(point@);
        if self.num_vars == 0 {
            proof {
                lemma2_to64();
                assert(self@.len() == self.evaluations@.len());
            }
            let r = self.evaluations[0];
            proof {
                assert(pv =~= Seq::<int>::empty());
                lemma_eval_no_variable(self@);
                r.lemma_value_injective(r);
            }
            r.range();
            return r;
        }
        let mut cur = self.fold_one_variable(&point[0]);
        let mut j: usize = 1;
        proof {
            lemma_pow2_unfold(self.arity());
            lemma_residues_congruent(fold_table(self@, pv[0]));
            lemma_eval_congruent(cur@, fold_table(self@, pv[0]), pv.drop_first());
            lemma_eval_fold(self@, pv);
            assert(pv.drop_first() =~= pv.skip(1));
        }
        while j < point.len()
            invariant
                1 <= j <= point.len(),
                point@.len() == self.arity(),
                pv == values(point@),
                cur.arity() == self.arity() - j,
                congruent(mle_eval(cur@, pv.skip(j as int)), mle_eval(self@, pv)),
            decreases point.len() - j,
        {
            let ghost before = cur@;
            proof {
                use_type_invariant(&cur);
                lemma_pow2_unfold(cur.arity());
            }
            cur = cur.fold_one_variable(&point[j]);
            proof {
                let here = pv.skip(j as int);
                assert(here[0] == point@[j as int].value());
                assert(here.drop_first() =~= pv.skip(j + 1));
                lemma_residues_congruent(fold_table(before, here[0]));
                lemma_eval_congruent(cur@, fold_table(before, here[0]), pv.skip(j + 1));
                lemma_eval_fold(before, here);
            }
            j = j + 1;
        }
        proof {
            use_type_invariant(&cur);
            lemma2_to64();
            assert(pv.skip(j as int) =~= Seq::<int>::empty());
            lemma_eval_no_variable(cur@);
        }
        let r = cur.evaluations[0];
        r.range();
        r
    }
}

} // verus!
