//! Index and bit arithmetic for the flat tree layout, and the pair hash.

use vstd::arithmetic::div_mod::{lemma_div_denominator, lemma_mod_breakdown};
use vstd::arithmetic::power::pow;
use vstd::arithmetic::power2::{lemma_pow2_unfold, pow2};
use vstd::bits::lemma_usize_shr_is_div;
use vstd::prelude::*;

use crate::hash::{node_hash, sha3_256};

verus! {

/// Two to the power `k`.
pub open spec fn exp2(k: nat) -> nat
    decreases k,
{
    if k == 0 {
        1
    } else {
        2 * exp2((k - 1) as nat)
    }
}

/// The number of times `n` must be halved (rounding up) to reach one: the
/// exponent of the smallest power of two that is at least `n`.
pub open spec fn ceil_log2(n: nat) -> nat
    decreases n,
{
    if n <= 1 {
        0
    } else {
        1 + ceil_log2(((n + 1) / 2) as nat)
    }
}

/// The smallest power of two that is at least `n` (one for zero).
pub open spec fn padded_len(n: nat) -> nat {
    exp2(ceil_log2(n))
}

/// The position of the lowest set bit of `n`, zero when `n` is zero.
pub open spec fn trailing_zeros(n: nat) -> nat
    decreases n,
{
    if n == 0 || n % 2 == 1 {
        0
    } else {
        1 + trailing_zeros(n / 2)
    }
}

/// `padded_len(n)` is no smaller than `n`, and less than
/// twice `n` when `n` is positive.
pub proof fn lemma_padded_len_bounds(n: nat)
    ensures
        n <= padded_len(n),
        n >= 1 ==> padded_len(n) < 2 * n,
        n <= 1 ==> padded_len(n) == 1,
    decreases n,
{
    if n > 1 {
        let h = ((n + 1) / 2) as nat;
        lemma_padded_len_bounds(h);
    }
}

/// A power of two is its own padded length.
pub proof fn lemma_padded_len_exp2(k: nat)
    ensures
        ceil_log2(exp2(k)) == k,
        padded_len(exp2(k)) == exp2(k),
    decreases k,
{
    if k > 0 {
        lemma_padded_len_exp2((k - 1) as nat);
        if k == 1 {
            assert(exp2(0) == 1);
        }
    }
}

/// The lowest set bit of a power of two is its exponent.
pub proof fn lemma_trailing_zeros_exp2(k: nat)
    ensures
        trailing_zeros(exp2(k)) == k,
    decreases k,
{
    if k > 0 {
        lemma_trailing_zeros_exp2((k - 1) as nat);
    }
}

/// The smallest power of two that is at least `n`; one for zero.
pub fn shift_to_2n(n: usize) -> (r: usize)
    requires
        n <= usize::MAX / 2 + 1,
    ensures
        r == padded_len(n as nat),
{
    let mut p: usize = 1;
    let mut k: Ghost<nat> = Ghost(0);
    while p < n
        invariant
            n <= usize::MAX / 2 + 1,
            p == exp2(k@),
            p >= 1,
            k@ == 0 || exp2((k@ - 1) as nat) < n,
        decreases usize::MAX - p,
    {
        p = p * 2;
        k = Ghost(k@ + 1);
    }
    proof {
        lemma_smallest_exp2(n as nat, k@);
    }
    p
}

/// A power of two that covers `n` while its half does not is `padded_len(n)`.
proof fn lemma_smallest_exp2(n: nat, k: nat)
    requires
        n <= exp2(k),
        k == 0 || exp2((k - 1) as nat) < n,
    ensures
        exp2(k) == padded_len(n),
    decreases k,
{
    if k == 0 {
        lemma_padded_len_bounds(n);
    } else {
        let h = ((n + 1) / 2) as nat;
        assert(h <= exp2((k - 1) as nat));
        if k >= 2 {
        }
        lemma_smallest_exp2(h, (k - 1) as nat);
        assert(n > 1);
    }
}

/// `exp2` agrees with vstd's `pow2`.
proof fn lemma_exp2_is_pow2(k: nat)
    ensures
        exp2(k) == pow2(k),
    decreases k,
{
    if k == 0 {
        reveal(pow);
    } else {
        lemma_exp2_is_pow2((k - 1) as nat);
        lemma_pow2_unfold(k);
    }
}

/// Whether bit `pos` of `n` is set.
pub fn bit(n: usize, pos: u32) -> (r: bool)
    requires
        pos < usize::BITS,
    ensures
        r == ((n as nat / exp2(pos as nat)) % 2 == 1),
{
    let p = pos as usize;
    proof {
        assert(n & (1usize << p) != 0 <==> (n >> p) & 1 == 1) by (bit_vector)
            requires
                p < usize::BITS,
        ;
        assert((n >> p) & 1 == 1 <==> (n >> p) % 2 == 1) by (bit_vector);
        lemma_usize_shr_is_div(n, p);
        lemma_exp2_is_pow2(pos as nat);
    }
    n & (1usize << p) != 0
}

/// A number whose low `i` bits are clear and whose bit `i` is set has
/// exactly `i` trailing zeros.
proof fn lemma_trailing_zeros_at(n: nat, i: nat)
    requires
        n % exp2(i) == 0,
        (n / exp2(i)) % 2 == 1,
    ensures
        trailing_zeros(n) == i,
    decreases i,
{
    if i > 0 {
        let q = exp2((i - 1) as nat);
        lemma_exp2_pos((i - 1) as nat);
        lemma_mod_breakdown(n as int, 2, q as int);
        lemma_div_denominator(n as int, 2, q as int);
        assert(n != 0) by {
            if n == 0 {
                assert(0nat / exp2(i) == 0) by (nonlinear_arith)
                    requires
                        exp2(i) > 0,
                ;
            }
        }
        assert(exp2(i) == 2 * q);
        assert(n % 2 == 0 && (n / 2) % q == 0) by (nonlinear_arith)
            requires
                n % (2 * q) == 2 * ((n / 2) % q) + n % 2,
                n % (2 * q) == 0,
                q > 0,
        ;
        lemma_trailing_zeros_at(n / 2, (i - 1) as nat);
    } else {
        assert(n / 1 == n);
    }
}

/// Two to the width of a machine word is one more than its largest value.
pub proof fn lemma_exp2_word()
    ensures
        exp2(usize::BITS as nat) == usize::MAX as nat + 1,
{
    reveal_with_fuel(exp2, 65);
}

/// Padding never goes past a power of two that already holds `n`.
pub proof fn lemma_padded_len_le(n: nat, k: nat)
    requires
        n <= exp2(k),
    ensures
        padded_len(n) <= exp2(k),
    decreases k,
{
    lemma_exp2_pos(k);
    if n > 1 {
        lemma_padded_len_le(((n + 1) / 2) as nat, (k - 1) as nat);
    }
}

/// Padding a count of at most half the word range keeps it within that range.
pub proof fn lemma_padded_len_fits(n: nat)
    requires
        n <= usize::MAX / 2 + 1,
    ensures
        padded_len(n) <= usize::MAX / 2 + 1,
{
    lemma_exp2_word();
    assert(exp2(usize::BITS as nat) == 2 * exp2((usize::BITS - 1) as nat));
    lemma_padded_len_le(n, (usize::BITS - 1) as nat);
}

/// Two to any power is positive.
pub proof fn lemma_exp2_pos(k: nat)
    ensures
        exp2(k) > 0,
    decreases k,
{
    if k > 0 {
        lemma_exp2_pos((k - 1) as nat);
    }
}

/// The position of the lowest set bit of `n`, or zero when `n` is zero: for
/// a power of two, its exponent.
pub fn get_n_for_2n(n: usize) -> (r: usize)
    ensures
        r == trailing_zeros(n as nat),
        r < usize::BITS,
{
    let mut i: u32 = 0;
    while i < usize::BITS
        invariant
            i <= usize::BITS,
            n as nat % exp2(i as nat) == 0,
        decreases usize::BITS - i,
    {
        let set = bit(n, i);
        proof {
            lemma_exp2_pos(i as nat);
            lemma_mod_breakdown(n as int, exp2(i as nat) as int, 2);
        }
        if set {
            proof {
                lemma_trailing_zeros_at(n as nat, i as nat);
            }
            return i as usize;
        }
        proof {
            let q = exp2(i as nat);
            assert(exp2(i as nat + 1) == q * 2);
            assert(n as nat % (q * 2) == 0) by (nonlinear_arith)
                requires
                    n as nat % (q * 2) == q * ((n as nat / q) % 2) + n as nat % q,
                    (n as nat / q) % 2 != 1,
                    n as nat % q == 0,
                    q > 0,
            ;
        }
        i = i + 1;
    }
    proof {
        lemma_exp2_word();
        assert(n as nat % exp2(usize::BITS as nat) == n as nat) by (nonlinear_arith)
            requires
                (n as nat) < exp2(usize::BITS as nat),
        ;
    }
    0
}

/// The digest of the inner node whose children are `x` (left) and `y`
/// (right).
pub fn hash_2_node(x: Vec<u8>, y: Vec<u8>) -> (r: Vec<u8>)
    ensures
        r@ == node_hash(x@, y@),
        r@.len() == 32,
{
    let mut data = x;
    let mut right = y;
    data.append(&mut right);
    sha3_256(data.as_slice())
}

} // verus!
