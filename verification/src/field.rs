//! Elements of the BLS12-381 base field.
//!
//! A field element is held as the six little-endian 64-bit limbs of its
//! canonical representative. Contracts speak of that representative as a
//! mathematical integer (`Fq::value`), reduced with `residue`. The arithmetic
//! itself is done by `ark_ff` on `ark_bls12_381::Fq`.

use vstd::prelude::*;
use vstd::arithmetic::div_mod::*;
use vstd::std_specs::cmp::PartialEqSpecImpl;
use crate::encoding::{le_bytes, le_bytes_value, lemma_le_bytes_split, push_le_bytes, radix_power};

verus! {

/// The radix of the limb representation, `2^64`.
pub open spec fn limb_radix() -> int {
    0x1_0000_0000_0000_0000
}

/// The integer that six little-endian limbs stand for.
pub open spec fn limbs_value(l: Seq<u64>) -> int
    recommends
        l.len() == 6,
{
    l[0] + limb_radix() * (l[1] + limb_radix() * (l[2] + limb_radix() * (l[3] + limb_radix() * (l[4]
        + limb_radix() * l[5]))))
}

/// A number below the radix and the part above it are told apart.
proof fn lemma_split_radix(a: int, s: int, b: int, t: int)
    requires
        0 <= a < limb_radix(),
        0 <= b < limb_radix(),
        a + limb_radix() * s == b + limb_radix() * t,
    ensures
        a == b,
        s == t,
{
}

/// The limbs of the field's modulus, least significant first.
pub open spec fn modulus_limbs() -> Seq<u64> {
    seq![
        0xb9fe_ffff_ffff_aaab_u64,
        0x1eab_fffe_b153_ffff_u64,
        0x6730_d2a0_f6b0_f624_u64,
        0x6477_4b84_f385_12bf_u64,
        0x4b1b_a7b6_434b_acd7_u64,
        0x1a01_11ea_397f_e69a_u64,
    ]
}

/// The prime modulus of the BLS12-381 base field.
pub open spec fn modulus() -> int {
    limbs_value(modulus_limbs())
}

/// The canonical representative of `x` modulo the field's modulus.
pub open spec fn residue(x: int) -> int {
    x % modulus()
}

/// Two integers that stand for the same field element.
pub open spec fn congruent(a: int, b: int) -> bool {
    residue(a) == residue(b)
}

/// The modulus is more than one limb long.
pub proof fn lemma_modulus_positive()
    ensures
        modulus() > limb_radix(),
{
}

/// A representative is canonical, and congruent to what it stands for.
pub proof fn lemma_residue_range(x: int)
    ensures
        0 <= residue(x) < modulus(),
        congruent(residue(x), x),
{
    lemma_modulus_positive();
    lemma_mod_bound(x, modulus());
    lemma_mod_twice(x, modulus());
}

/// A canonical integer is its own representative.
pub proof fn lemma_residue_small(x: int)
    requires
        0 <= x < modulus(),
    ensures
        residue(x) == x,
{
    lemma_small_mod(x as nat, modulus() as nat);
}

/// Sums of congruent integers are congruent.
pub proof fn lemma_congruent_add(a: int, b: int, c: int, d: int)
    requires
        congruent(a, b),
        congruent(c, d),
    ensures
        congruent(a + c, b + d),
{
    lemma_modulus_positive();
    lemma_add_mod_noop(a, c, modulus());
    lemma_add_mod_noop(b, d, modulus());
}

/// Differences of congruent integers are congruent.
pub proof fn lemma_congruent_sub(a: int, b: int, c: int, d: int)
    requires
        congruent(a, b),
        congruent(c, d),
    ensures
        congruent(a - c, b - d),
{
    lemma_modulus_positive();
    lemma_sub_mod_noop(a, c, modulus());
    lemma_sub_mod_noop(b, d, modulus());
}

/// Products of congruent integers are congruent.
pub proof fn lemma_congruent_mul(a: int, b: int, c: int, d: int)
    requires
        congruent(a, b),
        congruent(c, d),
    ensures
        congruent(a * c, b * d),
{
    lemma_modulus_positive();
    lemma_mul_mod_noop_general(a, c, modulus());
    lemma_mul_mod_noop_general(b, d, modulus());
}

/// The representatives of a sequence of elements.
pub open spec fn values(s: Seq<Fq>) -> Seq<int> {
    Seq::new(s.len(), |i: int| s[i].value())
}

/// The canonical representatives of a sequence of integers.
pub open spec fn residues(s: Seq<int>) -> Seq<int> {
    Seq::new(s.len(), |i: int| residue(s[i]))
}

/// Two sequences that stand for the same field elements, place by place.
pub open spec fn congruent_seq(a: Seq<int>, b: Seq<int>) -> bool {
    &&& a.len() == b.len()
    &&& forall|i: int| 0 <= i < a.len() ==> congruent(#[trigger] a[i], b[i])
}

/// Congruent sequences have the same canonical representatives.
pub proof fn lemma_residues_equal(a: Seq<int>, b: Seq<int>)
    requires
        congruent_seq(a, b),
    ensures
        residues(a) == residues(b),
{
    assert forall|i: int| 0 <= i < a.len() implies residues(a)[i] == residues(b)[i] by {
        assert(congruent(a[i], b[i]));
    }
    assert(residues(a) =~= residues(b));
}

/// Reduced entries are congruent to the entries.
pub proof fn lemma_residues_congruent(s: Seq<int>)
    ensures
        congruent_seq(residues(s), s),
{
    assert forall|i: int| 0 <= i < s.len() implies congruent(#[trigger] residues(s)[i], s[i]) by {
        lemma_residue_range(s[i]);
    }
}

/// An element of the BLS12-381 base field, kept as the limbs of its canonical
/// representative.
#[derive(Clone, Copy, Debug)]
pub struct Fq {
    limbs: [u64; 6],
}

impl Fq {
    /// The canonical representative, an integer in `0 .. modulus()`.
    pub closed spec fn value(self) -> int {
        limbs_value(self.limbs@)
    }

    /// Every element holds a representative below the modulus.
    #[verifier::type_invariant]
    pub open spec fn canonical(self) -> bool {
        0 <= self.value() < modulus()
    }

    /// Distinct limbs stand for distinct integers.
    pub proof fn lemma_value_injective(self, other: Fq)
        ensures
            self.value() == other.value() <==> self == other,
            0 <= self.value(),
    {
        let a = self.limbs@;
        let b = other.limbs@;
        if self.value() == other.value() {
            let r = limb_radix();
            let (a4, b4) = (a[4] + r * a[5], b[4] + r * b[5]);
            let (a3, b3) = (a[3] + r * a4, b[3] + r * b4);
            let (a2, b2) = (a[2] + r * a3, b[2] + r * b3);
            let (a1, b1) = (a[1] + r * a2, b[1] + r * b2);
            lemma_split_radix(a[0] as int, a1, b[0] as int, b1);
            lemma_split_radix(a[1] as int, a2, b[1] as int, b2);
            lemma_split_radix(a[2] as int, a3, b[2] as int, b3);
            lemma_split_radix(a[3] as int, a4, b[3] as int, b4);
            lemma_split_radix(a[4] as int, a[5] as int, b[4] as int, b[5] as int);
            assert(a =~= b);
            assert(self.limbs =~= other.limbs);
        }
    }

    /// The element 0.
    pub fn zero() -> (r: Fq)
        ensures
            r.value() == 0,
    {
        Fq { limbs: [0, 0, 0, 0, 0, 0] }
    }

    /// The element 1.
    pub fn one() -> (r: Fq)
        ensures
            r.value() == 1,
    {
        Fq { limbs: [1, 0, 0, 0, 0, 0] }
    }

    /// The element that `n` stands for.
    pub fn from_u64(n: u64) -> (r: Fq)
        ensures
            r.value() == n,
    {
        Fq { limbs: [n, 0, 0, 0, 0, 0] }
    }

    /// The limbs of the canonical representative, least significant first.
    pub fn to_limbs(&self) -> (l: [u64; 6])
        ensures
            limbs_value(l@) == self.value(),
    {
        self.limbs
    }

    /// The element with the given limbs, if they stand for an integer below
    /// the modulus.
    pub fn from_limbs(l: [u64; 6]) -> (r: Option<Fq>)
        ensures
            r is Some <==> limbs_value(l@) < modulus(),
            r is Some ==> r->0.value() == limbs_value(l@),
    {
        let below = l[5] < 0x1a01_11ea_397f_e69a || (l[5] == 0x1a01_11ea_397f_e69a && (l[4]
            < 0x4b1b_a7b6_434b_acd7 || (l[4] == 0x4b1b_a7b6_434b_acd7 && (l[3]
            < 0x6477_4b84_f385_12bf || (l[3] == 0x6477_4b84_f385_12bf && (l[2]
            < 0x6730_d2a0_f6b0_f624 || (l[2] == 0x6730_d2a0_f6b0_f624 && (l[1]
            < 0x1eab_fffe_b153_ffff || (l[1] == 0x1eab_fffe_b153_ffff && l[0]
            < 0xb9fe_ffff_ffff_aaab)))))))));
        if below {
            Some(Fq { limbs: l })
        } else {
            None
        }
    }

    /// The sum of two elements.
    pub fn add(&self, rhs: &Fq) -> (r: Fq)
        ensures
            r.value() == residue(self.value() + rhs.value()),
    {
        proof {
            use_type_invariant(self);
            use_type_invariant(rhs);
        }
        field_add(*self, *rhs)
    }

    /// The difference of two elements.
    pub fn sub(&self, rhs: &Fq) -> (r: Fq)
        ensures
            r.value() == residue(self.value() - rhs.value()),
    {
        proof {
            use_type_invariant(self);
            use_type_invariant(rhs);
        }
        field_sub(*self, *rhs)
    }

    /// The product of two elements.
    pub fn mul(&self, rhs: &Fq) -> (r: Fq)
        ensures
            r.value() == residue(self.value() * rhs.value()),
    {
        proof {
            use_type_invariant(self);
            use_type_invariant(rhs);
        }
        field_mul(*self, *rhs)
    }

    /// The point at `c` of the line through `lo` at 0 and `hi` at 1.
    pub fn interpolate(lo: &Fq, hi: &Fq, c: &Fq) -> (r: Fq)
        ensures
            r.value() == residue(lo.value() + c.value() * (hi.value() - lo.value())),
    {
        let d = hi.sub(lo);
        let m = c.mul(&d);
        let r = lo.add(&m);
        proof {
            let (l, h, k) = (lo.value(), hi.value(), c.value());
            lemma_residue_range(h - l);
            lemma_residue_range(k * residue(h - l));
            lemma_congruent_mul(k, k, residue(h - l), h - l);
            lemma_congruent_add(l, l, residue(k * residue(h - l)), k * (h - l));
        }
        r
    }

    /// Appends the 48 bytes of the canonical representative, least
    /// significant first.
    pub fn write_le_bytes(&self, out: &mut Vec<u8>)
        ensures
            final(out)@ == old(out)@ + le_bytes(self.value(), 48),
    {
        let l = self.limbs;
        push_le_bytes(out, l[0]);
        push_le_bytes(out, l[1]);
        push_le_bytes(out, l[2]);
        push_le_bytes(out, l[3]);
        push_le_bytes(out, l[4]);
        push_le_bytes(out, l[5]);
        proof {
            reveal_with_fuel(radix_power, 9);
            let r = limb_radix();
            assert(radix_power(8) == r);
            let t4 = l[4] + r * l[5];
            let t3 = l[3] + r * t4;
            let t2 = l[2] + r * t3;
            let t1 = l[1] + r * t2;
            lemma_le_bytes_split(l[4] as int, l[5] as int, 8, 8);
            lemma_le_bytes_split(l[3] as int, t4, 8, 16);
            lemma_le_bytes_split(l[2] as int, t3, 8, 24);
            lemma_le_bytes_split(l[1] as int, t2, 8, 32);
            lemma_le_bytes_split(l[0] as int, t1, 8, 40);
            assert(out@ =~= old(out)@ + le_bytes(self.value(), 48));
        }
    }

    /// Does nothing when run; tells the verifier what the type's invariant
    /// says of an element.
    pub fn range(&self)
        ensures
            0 <= self.value() < modulus(),
            residue(self.value()) == self.value(),
    {
        proof {
            use_type_invariant(self);
            lemma_residue_small(self.value());
        }
    }
}

/// A sequence of canonical representatives.
pub open spec fn all_canonical(s: Seq<int>) -> bool {
    forall|i: int| 0 <= i < s.len() ==> 0 <= #[trigger] s[i] < modulus()
}

/// A copy of the elements of `s`; each of them is canonical.
pub fn copy_elements(s: &[Fq]) -> (v: Vec<Fq>)
    ensures
        v@ == s@,
        all_canonical(values(s@)),
{
    let mut v: Vec<Fq> = Vec::with_capacity(s.len());
    let mut i: usize = 0;
    while i < s.len()
        invariant
            i <= s@.len(),
            v@ == s@.take(i as int),
            forall|k: int| 0 <= k < i ==> 0 <= (#[trigger] s@[k]).value() < modulus(),
        decreases s@.len() - i,
    {
        let x = s[i];
        x.range();
        v.push(x);
        proof {
            assert(v@ =~= s@.take(i + 1));
        }
        i = i + 1;
    }
    proof {
        assert(s@.take(i as int) =~= s@);
    }
    v
}

/// The elements of `v` from position `from` up to, not including, `to`.
pub fn slice_elements(v: &Vec<Fq>, from: usize, to: usize) -> (r: Vec<Fq>)
    requires
        from <= to <= v@.len(),
    ensures
        r@ == v@.subrange(from as int, to as int),
{
    let mut r: Vec<Fq> = Vec::with_capacity(to - from);
    let mut i: usize = from;
    while i < to
        invariant
            from <= i <= to,
            to <= v@.len(),
            r@ == v@.subrange(from as int, i as int),
        decreases to - i,
    {
        r.push(v[i]);
        proof {
            assert(r@ =~= v@.subrange(from as int, i + 1));
        }
        i = i + 1;
    }
    r
}

/// The elements of `a` followed by those of `b`.
pub fn concat_elements(a: &Vec<Fq>, b: &Vec<Fq>) -> (r: Vec<Fq>)
    ensures
        r@ == a@ + b@,
        values(r@) == values(a@) + values(b@),
{
    let mut r: Vec<Fq> = slice_elements(a, 0, a.len());
    let mut i: usize = 0;
    proof {
        assert(r@ =~= a@ + b@.take(0));
    }
    while i < b.len()
        invariant
            i <= b@.len(),
            r@ == a@ + b@.take(i as int),
        decreases b@.len() - i,
    {
        r.push(b[i]);
        proof {
            assert(r@ =~= a@ + b@.take(i + 1));
        }
        i = i + 1;
    }
    proof {
        assert(b@.take(i as int) =~= b@);
        assert(values(r@) =~= values(a@) + values(b@));
    }
    r
}

/// Two elements are equal where their representatives are.
impl PartialEq for Fq {
    fn eq(&self, other: &Fq) -> (r: bool) {
        proof {
            self.lemma_value_injective(*other);
            if self.limbs@ =~= other.limbs@ {
                assert(self.limbs == other.limbs);
            }
        }
        self.limbs[0] == other.limbs[0] && self.limbs[1] == other.limbs[1] && self.limbs[2]
            == other.limbs[2] && self.limbs[3] == other.limbs[3] && self.limbs[4] == other.limbs[4]
            && self.limbs[5] == other.limbs[5]
    }
}

impl PartialEqSpecImpl for Fq {
    open spec fn obeys_eq_spec() -> bool {
        true
    }

    open spec fn eq_spec(&self, other: &Fq) -> bool {
        self.value() == other.value()
    }
}

impl Eq for Fq {

}

/// Adds in the field with `+` of `ark_bls12_381::Fq`, which `ark_ff` keeps
/// reduced: the result stands for the sum of the two representatives modulo
/// the field's modulus. Both arguments must be canonical, since `ark_ff`
/// refuses limbs that are not.
#[verifier::external_body]
fn field_add(a: Fq, b: Fq) -> (r: Fq)
    requires
        a.canonical(),
        b.canonical(),
    ensures
        r.value() == residue(a.value() + b.value()),
{
    let x = ark_bls12_381::Fq::from(ark_ff::BigInt::new(a.limbs));
    let y = ark_bls12_381::Fq::from(ark_ff::BigInt::new(b.limbs));
    Fq { limbs: ark_ff::PrimeField::into_bigint(x + y).0 }
}

/// Subtracts in the field with `-` of `ark_bls12_381::Fq`: the result stands
/// for the difference of the two representatives modulo the field's modulus,
/// taken in `0 .. modulus()`.
#[verifier::external_body]
fn field_sub(a: Fq, b: Fq) -> (r: Fq)
    requires
        a.canonical(),
        b.canonical(),
    ensures
        r.value() == residue(a.value() - b.value()),
{
    let x = ark_bls12_381::Fq::from(ark_ff::BigInt::new(a.limbs));
    let y = ark_bls12_381::Fq::from(ark_ff::BigInt::new(b.limbs));
    Fq { limbs: ark_ff::PrimeField::into_bigint(x - y).0 }
}

/// Multiplies in the field with `*` of `ark_bls12_381::Fq`: the result stands
/// for the product of the two representatives modulo the field's modulus.
#[verifier::external_body]
fn field_mul(a: Fq, b: Fq) -> (r: Fq)
    requires
        a.canonical(),
        b.canonical(),
    ensures
        r.value() == residue(a.value() * b.value()),
{
    let x = ark_bls12_381::Fq::from(ark_ff::BigInt::new(a.limbs));
    let y = ark_bls12_381::Fq::from(ark_ff::BigInt::new(b.limbs));
    Fq { limbs: ark_ff::PrimeField::into_bigint(x * y).0 }
}

/// Reads bytes as an integer, least significant first, and reduces it with
/// `from_le_bytes_mod_order` of `ark_ff::PrimeField`: the result stands for
/// that integer modulo the field's modulus, whatever the number of bytes.
#[verifier::external_body]
pub(crate) fn element_from_le_bytes(bytes: &Vec<u8>) -> (r: Fq)
    ensures
        r.value() == residue(le_bytes_value(bytes@)),
{
    let x = <ark_bls12_381::Fq as ark_ff::PrimeField>::from_le_bytes_mod_order(bytes.as_slice());
    Fq { limbs: ark_ff::PrimeField::into_bigint(x).0 }
}

/// Draws an element with `rand` of `UniformRand`, which `ark_ff` hands on
/// from `ark_std`, from the thread's random number generator; `ark_ff`
/// samples limbs until they stand for an integer below the modulus. Nothing
/// is known of the element but that it is canonical.
#[verifier::external_body]
pub(crate) fn random_element() -> (r: Fq)
    ensures
        r.canonical(),
{
    let x = <ark_bls12_381::Fq as ark_ff::UniformRand>::rand(&mut ark_std::rand::thread_rng());
    Fq { limbs: ark_ff::PrimeField::into_bigint(x).0 }
}

} // verus!
