//! Minterm indices and their binary expansion.
//!
//! A minterm is a truth-table row index in `[0, 2^n)` for a function of `n`
//! variables. Bit `j` of the index gives the value of variable `x_j` on that
//! row; the expansion into a vector of ternary bits is the starting point of
//! the minimization.

use vstd::arithmetic::div_mod::{
    lemma_basic_div, lemma_div_basics, lemma_div_denominator, lemma_fundamental_div_mod,
    lemma_hoist_over_denominator, lemma_mod_multiples_vanish, lemma_multiply_divide_lt,
};
use vstd::arithmetic::power2::{
    lemma2_to64, lemma_pow2_adds, lemma_pow2_pos, lemma_pow2_strictly_increases,
    lemma_pow2_unfold, pow2,
};
use vstd::bits::{
    lemma_usize_low_bits_mask_is_mod, lemma_usize_shl_is_mul, lemma_usize_shr_is_div,
    low_bits_mask,
};
use vstd::prelude::*;

use crate::ternary::Bit;

verus! {

/// Whether bit `j` of the binary expansion of `m` is 1.
pub open spec fn minterm_bit(m: nat, j: nat) -> bool {
    (m / pow2(j)) % 2 == 1
}

/// Bit `j` of row index `m`, as a ternary bit. A row expansion never holds
/// `DontCare`: those arise only from combination.
pub open spec fn bit_at(m: nat, j: nat) -> Bit {
    if minterm_bit(m, j) {
        Bit::One
    } else {
        Bit::Zero
    }
}

/// The expansion of row index `m` into `n` ternary bits, entry `j` holding
/// the value of variable `x_j`.
pub open spec fn minterm_seq(m: nat, n: nat) -> Seq<Bit> {
    Seq::new(n, |j: int| bit_at(m, j as nat))
}

/// Extracts bit `j` of a row index.
pub fn get_bit(m: usize, j: usize) -> (b: Bit)
    requires
        j < 16,
    ensures
        b == bit_at(m as nat, j as nat),
{
    proof {
        lemma_usize_shr_is_div(m, j);
        lemma_usize_low_bits_mask_is_mod(m >> j, 1);
        lemma2_to64();
        assert(low_bits_mask(1) == 1);
        assert((m >> j) % 2usize == ((m >> j) as nat % pow2(1)) as usize);
    }
    if ((m >> j) & 1) == 1 {
        Bit::One
    } else {
        Bit::Zero
    }
}

/// Computes `2^n` on machine words; `n <= 16` keeps it well within range.
pub fn pow2_usize(n: usize) -> (p: usize)
    requires
        n <= 16,
    ensures
        p as nat == pow2(n as nat),
        p >= 1,
{
    proof {
        lemma2_to64();
        if n < 16 {
            lemma_pow2_strictly_increases(n as nat, 16);
        }
        lemma_pow2_pos(n as nat);
        lemma_usize_shl_is_mul(1, n);
    }
    1usize << n
}

/// Two row indices below `2^n` with the same `n` low bits are the same
/// index.
pub proof fn lemma_bits_determine(m1: nat, m2: nat, n: nat)
    requires
        m1 < pow2(n),
        m2 < pow2(n),
        forall|j: nat| j < n ==> minterm_bit(m1, j) == minterm_bit(m2, j),
    ensures
        m1 == m2,
    decreases n,
{
    lemma2_to64();
    if n == 0 {
        assert(pow2(0) == 1);
    } else {
        assert(minterm_bit(m1, 0) == minterm_bit(m2, 0));
        lemma_div_basics(m1 as int);
        lemma_div_basics(m2 as int);
        assert(m1 % 2 == m2 % 2);
        assert forall|j: nat| j < sub1(n) implies #[trigger] minterm_bit(m1 / 2, j) == minterm_bit(
            m2 / 2,
            j,
        ) by {
            lemma_pow2_pos(j);
            lemma_div_denominator(m1 as int, 2, pow2(j) as int);
            lemma_div_denominator(m2 as int, 2, pow2(j) as int);
            lemma_pow2_unfold(j + 1);
            assert(minterm_bit(m1, j + 1) == minterm_bit(m2, j + 1));
        }
        lemma_pow2_unfold(n);
        lemma_multiply_divide_lt(m1 as int, 2, pow2(sub1(n)) as int);
        lemma_multiply_divide_lt(m2 as int, 2, pow2(sub1(n)) as int);
        lemma_bits_determine(m1 / 2, m2 / 2, sub1(n));
        lemma_fundamental_div_mod(m1 as int, 2);
        lemma_fundamental_div_mod(m2 as int, 2);
    }
}

/// `n - 1` on naturals, used to keep the recursion on `n` readable.
pub open spec fn sub1(n: nat) -> nat {
    (n - 1) as nat
}

/// Every fully defined bit vector is the expansion of exactly one row
/// index below `2^n`; this builds that index.
pub proof fn lemma_vector_index(v: Seq<Bit>, n: nat) -> (m: nat)
    requires
        v.len() == n,
        forall|j: int| 0 <= j < v.len() ==> v[j] != Bit::DontCare,
    ensures
        m < pow2(n),
        minterm_seq(m, n) == v,
    decreases n,
{
    lemma_pow2_pos(n);
    if n == 0 {
        lemma2_to64();
        assert(minterm_seq(0, 0) =~= v);
        0
    } else {
        let n1 = sub1(n);
        let m0 = lemma_vector_index(v.drop_last(), n1);
        lemma_pow2_unfold(n);
        lemma_pow2_pos(n1);
        let c: nat = if v[n - 1] == Bit::One {
            1
        } else {
            0
        };
        let m: nat = m0 + c * pow2(n1);
        assert(m < pow2(n));
        assert forall|j: int| 0 <= j < n implies minterm_seq(m, n)[j] == v[j] by {
            let jn = j as nat;
            lemma_pow2_pos(jn);
            if j < n - 1 {
                if c == 1 {
                    let e = (n1 - jn) as nat;
                    lemma_pow2_adds(e, jn);
                    lemma_pow2_unfold(e);
                    lemma_pow2_pos((e - 1) as nat);
                    assert(m == m0 + pow2(e) * pow2(jn));
                    lemma_hoist_over_denominator(m0 as int, pow2(e) as int, pow2(jn));
                    assert(m as int / pow2(jn) as int == m0 as int / pow2(jn) as int + pow2(
                        e,
                    ) as int);
                    lemma_mod_multiples_vanish(
                        pow2((e - 1) as nat) as int,
                        m0 as int / pow2(jn) as int,
                        2,
                    );
                    assert((m0 as int / pow2(jn) as int + 2 * pow2((e - 1) as nat)) % 2 == (
                    m0 as int / pow2(jn) as int) % 2);
                    assert(minterm_bit(m, jn) == minterm_bit(m0, jn));
                } else {
                    assert(m == m0);
                }
                assert(minterm_seq(m0, n1)[j] == v.drop_last()[j]);
                assert(bit_at(m0, jn) == v[j]);
            } else {
                lemma_basic_div(m0 as int, pow2(n1) as int);
                if c == 1 {
                    lemma_hoist_over_denominator(m0 as int, 1, pow2(n1));
                    assert(m as int / pow2(n1) as int == 1);
                    assert(minterm_bit(m, n1));
                    assert(v[j] == Bit::One);
                } else {
                    assert(m == m0);
                    assert(m as int / pow2(n1) as int == 0);
                    assert(!minterm_bit(m, n1));
                    assert(v[j] != Bit::One && v[j] != Bit::DontCare);
                }
            }
        }
        assert(minterm_seq(m, n) =~= v);
        m
    }
}

} // verus!
