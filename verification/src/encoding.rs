//! Integers as bytes, least significant first.

use vstd::prelude::*;
use vstd::arithmetic::div_mod::{lemma_fundamental_div_mod, lemma_fundamental_div_mod_converse};

verus! {

/// The `n` low bytes of `v`, least significant first.
pub open spec fn le_bytes(v: int, n: nat) -> Seq<u8>
    decreases n,
{
    if n == 0 {
        Seq::<u8>::empty()
    } else {
        seq![(v % 256) as u8] + le_bytes(v / 256, (n - 1) as nat)
    }
}

/// The integer that bytes stand for, least significant first.
pub open spec fn le_bytes_value(b: Seq<u8>) -> int
    decreases b.len(),
{
    if b.len() == 0 {
        0
    } else {
        b[0] as int + 256 * le_bytes_value(b.drop_first())
    }
}

/// `256^k`.
pub open spec fn radix_power(k: nat) -> int
    decreases k,
{
    if k == 0 {
        1
    } else {
        256 * radix_power((k - 1) as nat)
    }
}

/// The bytes of `a + 256^k b`, for `a` below `256^k`, are the `k` bytes of `a`
/// followed by the bytes of `b`.
pub proof fn lemma_le_bytes_split(a: int, b: int, k: nat, m: nat)
    requires
        0 <= a < radix_power(k),
        0 <= b,
    ensures
        le_bytes(a + radix_power(k) * b, k + m) == le_bytes(a, k) + le_bytes(b, m),
    decreases k,
{
    if k == 0 {
        assert(1 * b == b) by (nonlinear_arith);
        assert(le_bytes(a, 0) + le_bytes(b, m) =~= le_bytes(b, m));
    } else {
        let p = radix_power((k - 1) as nat);
        let x = a + radix_power(k) * b;
        assert(x == (a / 256 + p * b) * 256 + a % 256) by (nonlinear_arith)
            requires
                x == a + (256 * p) * b,
                a == 256 * (a / 256) + a % 256,
        {
        }
        lemma_fundamental_div_mod(a, 256);
        lemma_fundamental_div_mod_converse(x, 256, a / 256 + p * b, a % 256);
        lemma_le_bytes_split(a / 256, b, (k - 1) as nat, m);
        assert(le_bytes(x, k + m) == seq![(x % 256) as u8] + le_bytes(x / 256, (k + m - 1) as nat));
        assert(le_bytes(a, k) == seq![(a % 256) as u8] + le_bytes(a / 256, (k - 1) as nat));
        assert(le_bytes(x, k + m) =~= le_bytes(a, k) + le_bytes(b, m));
    }
}

/// Appends the eight bytes of `v`, least significant first.
pub fn push_le_bytes(out: &mut Vec<u8>, v: u64)
    ensures
        final(out)@ == old(out)@ + le_bytes(v as int, 8),
{
    let mut x = v;
    let mut k: usize = 0;
    proof {
        assert(out@ + le_bytes(x as int, 8) =~= old(out)@ + le_bytes(v as int, 8));
    }
    while k < 8
        invariant
            k <= 8,
            out@ + le_bytes(x as int, (8 - k) as nat) == old(out)@ + le_bytes(v as int, 8),
        decreases 8 - k,
    {
        let ghost before = out@;
        out.push((x % 256) as u8);
        proof {
            assert(le_bytes(x as int, (8 - k) as nat) == seq![((x as int) % 256) as u8] + le_bytes(
                (x as int) / 256,
                (8 - k - 1) as nat,
            ));
            assert(out@ + le_bytes((x as int) / 256, (8 - k - 1) as nat) =~= before + le_bytes(
                x as int,
                (8 - k) as nat,
            ));
        }
        x = x / 256;
        k = k + 1;
    }
    proof {
        assert(out@ + le_bytes(x as int, 0) =~= out@);
    }
}

} // verus!
