//! Finite sums of integers, and what reduction modulo the field's modulus
//! keeps of them.

use vstd::prelude::*;
use crate::field::{congruent, congruent_seq, lemma_congruent_add};

verus! {

/// The sum of the entries of `s`.
pub open spec fn seq_sum(s: Seq<int>) -> int
    decreases s.len(),
{
    if s.len() == 0 {
        0
    } else {
        seq_sum(s.drop_last()) + s.last()
    }
}

/// Sums of congruent sequences are congruent.
pub proof fn lemma_sum_congruent(a: Seq<int>, b: Seq<int>)
    requires
        congruent_seq(a, b),
    ensures
        congruent(seq_sum(a), seq_sum(b)),
    decreases a.len(),
{
    if a.len() > 0 {
        lemma_sum_congruent(a.drop_last(), b.drop_last());
        assert(congruent(a[a.len() - 1], b[a.len() - 1]));
        lemma_congruent_add(seq_sum(a.drop_last()), seq_sum(b.drop_last()), a.last(), b.last());
    }
}

/// A sum can be taken two neighbours at a time.
pub proof fn lemma_sum_pairs(s: Seq<int>)
    requires
        s.len() % 2 == 0,
    ensures
        seq_sum(s) == seq_sum(Seq::new((s.len() / 2) as nat, |y: int| s[2 * y] + s[2 * y + 1])),
    decreases s.len(),
{
    let m = (s.len() / 2) as nat;
    let pairs = Seq::new(m, |y: int| s[2 * y] + s[2 * y + 1]);
    if s.len() > 0 {
        let rest = s.drop_last().drop_last();
        lemma_sum_pairs(rest);
        let rest_pairs = Seq::new((rest.len() / 2) as nat, |y: int| rest[2 * y] + rest[2 * y + 1]);
        assert(pairs.drop_last() =~= rest_pairs);
        assert(s.drop_last().last() == s[2 * (m - 1)]);
        assert(s.last() == s[2 * (m - 1) + 1]);
        assert(seq_sum(s.drop_last()) == seq_sum(rest) + s.drop_last().last());
        assert(seq_sum(pairs) == seq_sum(pairs.drop_last()) + pairs.last());
    }
}

/// The sum of entrywise sums is the sum of the sums.
pub proof fn lemma_sum_add(a: Seq<int>, b: Seq<int>)
    requires
        a.len() == b.len(),
    ensures
        seq_sum(Seq::new(a.len(), |i: int| a[i] + b[i])) == seq_sum(a) + seq_sum(b),
    decreases a.len(),
{
    let c = Seq::new(a.len(), |i: int| a[i] + b[i]);
    if a.len() > 0 {
        lemma_sum_add(a.drop_last(), b.drop_last());
        assert(c.drop_last() =~= Seq::new(
            a.drop_last().len(),
            |i: int| a.drop_last()[i] + b.drop_last()[i],
        ));
    }
}

/// A common factor can be taken out of a sum.
pub proof fn lemma_sum_scale(a: Seq<int>, k: int)
    ensures
        seq_sum(Seq::new(a.len(), |i: int| k * a[i])) == k * seq_sum(a),
    decreases a.len(),
{
    let c = Seq::new(a.len(), |i: int| k * a[i]);
    if a.len() > 0 {
        lemma_sum_scale(a.drop_last(), k);
        assert(c.drop_last() =~= Seq::new(a.drop_last().len(), |i: int| k * a.drop_last()[i]));
        assert(k * (seq_sum(a.drop_last()) + a.last()) == k * seq_sum(a.drop_last()) + k * a.last())
            by (nonlinear_arith);
    }
}

/// A sum whose entries vanish but at one place is the entry there.
pub proof fn lemma_sum_single(s: Seq<int>, k: int)
    requires
        0 <= k < s.len(),
        forall|i: int| 0 <= i < s.len() && i != k ==> s[i] == 0,
    ensures
        seq_sum(s) == s[k],
    decreases s.len(),
{
    if k == s.len() - 1 {
        lemma_sum_zero(s.drop_last());
    } else {
        lemma_sum_single(s.drop_last(), k);
    }
}

/// A sum of zeros is zero.
pub proof fn lemma_sum_zero(s: Seq<int>)
    requires
        forall|i: int| 0 <= i < s.len() ==> s[i] == 0,
    ensures
        seq_sum(s) == 0,
    decreases s.len(),
{
    if s.len() > 0 {
        lemma_sum_zero(s.drop_last());
    }
}

/// A sum with three entries.
pub proof fn lemma_sum_three(s: Seq<int>)
    requires
        s.len() == 3,
    ensures
        seq_sum(s) == s[0] + s[1] + s[2],
{
    let two = s.drop_last();
    let one = two.drop_last();
    assert(one.drop_last().len() == 0);
    assert(seq_sum(one) == seq_sum(one.drop_last()) + one.last());
    assert(seq_sum(two) == seq_sum(one) + two.last());
}

/// A double sum can be taken in either order.
pub proof fn lemma_sum_exchange(f: spec_fn(int, int) -> int, n: nat, m: nat)
    ensures
        seq_sum(Seq::new(n, |i: int| seq_sum(Seq::new(m, |j: int| f(i, j))))) == seq_sum(
            Seq::new(m, |j: int| seq_sum(Seq::new(n, |i: int| f(i, j)))),
        ),
    decreases n,
{
    let rows = Seq::new(n, |i: int| seq_sum(Seq::new(m, |j: int| f(i, j))));
    let cols = Seq::new(m, |j: int| seq_sum(Seq::new(n, |i: int| f(i, j))));
    if n == 0 {
        assert forall|j: int| 0 <= j < cols.len() implies cols[j] == 0 by {
            assert(Seq::new(n, |i: int| f(i, j)).len() == 0);
        }
        lemma_sum_zero(cols);
    } else {
        let n1 = (n - 1) as nat;
        lemma_sum_exchange(f, n1, m);
        let rows1 = Seq::new(n1, |i: int| seq_sum(Seq::new(m, |j: int| f(i, j))));
        let cols1 = Seq::new(m, |j: int| seq_sum(Seq::new(n1, |i: int| f(i, j))));
        let last = Seq::new(m, |j: int| f(n - 1, j));
        assert(rows.drop_last() =~= rows1);
        assert(rows.last() == seq_sum(last));
        lemma_sum_add(cols1, last);
        assert forall|j: int| 0 <= j < m implies cols[j] == cols1[j] + last[j] by {
            let whole = Seq::new(n, |i: int| f(i, j));
            assert(whole.drop_last() =~= Seq::new(n1, |i: int| f(i, j)));
            assert(whole.last() == f(n - 1, j));
        }
        assert(cols =~= Seq::new(cols1.len(), |j: int| cols1[j] + last[j]));
    }
}

} // verus!
