//! Ternary bits and implicants.
//!
//! A truth-table row is encoded as a vector of `Bit::One` / `Bit::Zero`
//! values; combining two rows that differ in a single position yields a
//! `Bit::DontCare` there. An implicant is such a vector, one entry per
//! variable: entry `j` describes variable `x_j`.

use vstd::prelude::*;

verus! {

/// One position of an implicant: the value a variable must take, or
/// `DontCare` when the variable does not constrain the term.
#[derive(Copy, Clone, PartialEq, Eq, Structural, Debug)]
pub enum Bit {
    One,
    Zero,
    DontCare,
}

/// An implicant: an ordered sequence of ternary bits, entry `j` for
/// variable `x_j`. Equality is structural: same length, same bit at every
/// position.
#[derive(Debug)]
pub struct BitList(pub Vec<Bit>);

impl View for BitList {
    type V = Seq<Bit>;

    open spec fn view(&self) -> Seq<Bit> {
        self.0@
    }
}

impl Clone for BitList {
    fn clone(&self) -> (r: Self)
        ensures
            r@ == self@,
    {
        let mut bits: Vec<Bit> = Vec::new();
        for j in 0..self.0.len()
            invariant
                bits@.len() == j,
                forall|t: int| 0 <= t < j ==> bits@[t] == self.0@[t],
        {
            bits.push(self.0[j]);
        }
        proof {
            assert(bits@ =~= self.0@);
        }
        BitList(bits)
    }
}

impl PartialEq for BitList {
    fn eq(&self, other: &Self) -> (r: bool) {
        if self.0.len() != other.0.len() {
            return false;
        }
        for j in 0..self.0.len()
            invariant
                self.0@.len() == other.0@.len(),
                forall|t: int| 0 <= t < j ==> self.0@[t] == other.0@[t],
        {
            if self.0[j] != other.0[j] {
                return false;
            }
        }
        proof {
            assert(self.0@ =~= other.0@);
        }
        true
    }
}

impl Eq for BitList {}

impl vstd::std_specs::cmp::PartialEqSpecImpl for BitList {
    open spec fn obeys_eq_spec() -> bool {
        true
    }

    open spec fn eq_spec(&self, other: &BitList) -> bool {
        self.0@ == other.0@
    }
}

/// The number of `One` bits of a sequence: the weight by which the
/// combination step groups implicants. `DontCare` positions never count.
pub open spec fn ones(s: Seq<Bit>) -> nat
    decreases s.len(),
{
    if s.len() == 0 {
        0
    } else {
        ones(s.drop_last()) + (if s.last() == Bit::One {
            1nat
        } else {
            0nat
        })
    }
}

/// The number of `DontCare` bits of a sequence.
pub open spec fn dont_cares(s: Seq<Bit>) -> nat
    decreases s.len(),
{
    if s.len() == 0 {
        0
    } else {
        dont_cares(s.drop_last()) + (if s.last() == Bit::DontCare {
            1nat
        } else {
            0nat
        })
    }
}

pub proof fn lemma_dont_cares_le_len(s: Seq<Bit>)
    ensures
        dont_cares(s) <= s.len(),
    decreases s.len(),
{
    if s.len() > 0 {
        lemma_dont_cares_le_len(s.drop_last());
    }
}

/// Setting a position that is not `DontCare` to `DontCare` raises the
/// `DontCare` count by exactly one.
pub proof fn lemma_dont_cares_update(s: Seq<Bit>, d: int)
    requires
        0 <= d < s.len(),
        s[d] != Bit::DontCare,
    ensures
        dont_cares(s.update(d, Bit::DontCare)) == dont_cares(s) + 1,
    decreases s.len(),
{
    let t = s.update(d, Bit::DontCare);
    if d == s.len() - 1 {
        assert(t.drop_last() =~= s.drop_last());
    } else {
        assert(t.drop_last() =~= s.drop_last().update(d, Bit::DontCare));
        lemma_dont_cares_update(s.drop_last(), d);
        assert(t.last() == s.last());
    }
}

/// Replacing one position changes the `One` count by the difference the
/// two bits contribute.
pub proof fn lemma_ones_update(s: Seq<Bit>, d: int, x: Bit)
    requires
        0 <= d < s.len(),
    ensures
        ones(s.update(d, x)) + (if s[d] == Bit::One {
            1nat
        } else {
            0nat
        }) == ones(s) + (if x == Bit::One {
            1nat
        } else {
            0nat
        }),
    decreases s.len(),
{
    let t = s.update(d, x);
    if d == s.len() - 1 {
        assert(t.drop_last() =~= s.drop_last());
    } else {
        assert(t.drop_last() =~= s.drop_last().update(d, x));
        lemma_ones_update(s.drop_last(), d, x);
        assert(t.last() == s.last());
    }
}

/// Replacing one position changes the `DontCare` count by the difference
/// the two bits contribute.
pub proof fn lemma_dont_cares_update_gen(s: Seq<Bit>, d: int, x: Bit)
    requires
        0 <= d < s.len(),
    ensures
        dont_cares(s.update(d, x)) + (if s[d] == Bit::DontCare {
            1nat
        } else {
            0nat
        }) == dont_cares(s) + (if x == Bit::DontCare {
            1nat
        } else {
            0nat
        }),
    decreases s.len(),
{
    let t = s.update(d, x);
    if d == s.len() - 1 {
        assert(t.drop_last() =~= s.drop_last());
    } else {
        assert(t.drop_last() =~= s.drop_last().update(d, x));
        lemma_dont_cares_update_gen(s.drop_last(), d, x);
        assert(t.last() == s.last());
    }
}

/// A sequence with fewer `DontCare` bits than positions has a defined
/// position.
pub proof fn lemma_dc_lt_len_has_defined(s: Seq<Bit>)
    requires
        dont_cares(s) < s.len(),
    ensures
        exists|j: int| 0 <= j < s.len() && s[j] != Bit::DontCare,
    decreases s.len(),
{
    if s.last() != Bit::DontCare {
        assert(s[s.len() - 1] != Bit::DontCare);
    } else {
        lemma_dont_cares_le_len(s.drop_last());
        lemma_dc_lt_len_has_defined(s.drop_last());
        let j = choose|j: int| 0 <= j < s.drop_last().len() && s.drop_last()[j] != Bit::DontCare;
        assert(s[j] != Bit::DontCare);
    }
}

/// A sequence with a positive `DontCare` count has a `DontCare` position.
pub proof fn lemma_dc_pos_has_dc(s: Seq<Bit>)
    requires
        dont_cares(s) > 0,
    ensures
        exists|j: int| 0 <= j < s.len() && s[j] == Bit::DontCare,
    decreases s.len(),
{
    if s.last() == Bit::DontCare {
        assert(s[s.len() - 1] == Bit::DontCare);
    } else {
        lemma_dc_pos_has_dc(s.drop_last());
        let j = choose|j: int| 0 <= j < s.drop_last().len() && s.drop_last()[j] == Bit::DontCare;
        assert(s[j] == Bit::DontCare);
    }
}

/// A sequence whose `DontCare` count equals its length is `DontCare`
/// everywhere.
pub proof fn lemma_dc_full(s: Seq<Bit>)
    requires
        dont_cares(s) == s.len(),
    ensures
        forall|j: int| 0 <= j < s.len() ==> s[j] == Bit::DontCare,
    decreases s.len(),
{
    if s.len() > 0 {
        lemma_dont_cares_le_len(s.drop_last());
        lemma_dc_full(s.drop_last());
        assert forall|j: int| 0 <= j < s.len() implies s[j] == Bit::DontCare by {
            if j < s.len() - 1 {
                assert(s.drop_last()[j] == Bit::DontCare);
            }
        }
    }
}

/// A sequence without `DontCare` bits has `DontCare` count zero.
pub proof fn lemma_dc_zero(s: Seq<Bit>)
    requires
        forall|j: int| 0 <= j < s.len() ==> s[j] != Bit::DontCare,
    ensures
        dont_cares(s) == 0,
    decreases s.len(),
{
    if s.len() > 0 {
        assert(s.last() != Bit::DontCare);
        lemma_dc_zero(s.drop_last());
    }
}

/// A sequence without `One` bits has `One` count zero.
pub proof fn lemma_ones_zero(s: Seq<Bit>)
    requires
        forall|j: int| 0 <= j < s.len() ==> s[j] != Bit::One,
    ensures
        ones(s) == 0,
    decreases s.len(),
{
    if s.len() > 0 {
        assert(s.last() != Bit::One);
        lemma_ones_zero(s.drop_last());
    }
}

impl BitList {
    /// The number of variables the implicant speaks of: its length.
    pub fn len(&self) -> (r: usize)
        ensures
            r == self@.len(),
    {
        self.0.len()
    }

    /// Counts the `One` bits, the implicant's weight.
    pub fn count_ones(&self) -> (c: usize)
        ensures
            c as nat == ones(self@),
            c <= self@.len(),
    {
        let mut c: usize = 0;
        for j in 0..self.0.len()
            invariant
                c as nat == ones(self.0@.take(j as int)),
                c <= j,
        {
            proof {
                assert(self.0@.take(j + 1).drop_last() =~= self.0@.take(j as int));
                assert(self.0@.take(j + 1).last() == self.0@[j as int]);
            }
            if self.0[j] == Bit::One {
                c = c + 1;
            }
        }
        proof {
            assert(self.0@.take(self.0@.len() as int) =~= self.0@);
        }
        c
    }
}

} // verus!
