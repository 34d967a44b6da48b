//! The minimizer: reduces a set of minterms to a set of implicants.
//!
//! Minterms are expanded into bit vectors, grouped by their number of `One`
//! bits, and repeatedly combined pairwise: two implicants that differ in
//! exactly one position merge into one with `DontCare` there. An implicant
//! that takes part in no combination during a round is prime with respect to
//! that round and enters the result. The loop stops at the first round
//! without a combination.

use vstd::arithmetic::power2::pow2;
use vstd::prelude::*;

use vstd::arithmetic::power2::{lemma2_to64, lemma_pow2_strictly_increases};

use crate::minterm::{
    bit_at, lemma_bits_determine, lemma_vector_index, minterm_bit, minterm_seq, pow2_usize, sub1,
};
use crate::ternary::{
    dont_cares, lemma_dc_full, lemma_dc_lt_len_has_defined, lemma_dc_pos_has_dc, lemma_dc_zero,
    lemma_dont_cares_le_len, lemma_dont_cares_update, lemma_dont_cares_update_gen,
    lemma_ones_update, lemma_ones_zero, ones, Bit, BitList,
};

verus! {

/// An implicant covers a row index when every position that is not
/// `DontCare` agrees with the corresponding bit of the index.
pub open spec fn covers(imp: Seq<Bit>, m: nat) -> bool {
    forall|j: int|
        0 <= j < imp.len() ==> (#[trigger] imp[j]) == Bit::DontCare || imp[j] == bit_at(
            m,
            j as nat,
        )
}

/// An implicant is sound for a minterm set when every row of the truth
/// table it covers is one of the minterms: the term never turns a 0-row of
/// the function into a 1.
pub open spec fn sound(imp: Seq<Bit>, n: nat, minterms: Seq<usize>) -> bool {
    forall|m: nat| m < pow2(n) && #[trigger] covers(imp, m) ==> minterms.contains(m as usize)
}

/// Some implicant of the list covers row `m`.
pub open spec fn covered(m: nat, l: Seq<BitList>) -> bool {
    exists|k: int| 0 <= k < l.len() && covers(#[trigger] l[k]@, m)
}

/// No two implicants of the list have the same bits: the list represents a
/// set.
pub open spec fn no_dup(l: Seq<BitList>) -> bool {
    forall|k1: int, k2: int| 0 <= k1 < k2 < l.len() ==> (#[trigger] l[k1]@) != (#[trigger] l[k2]@)
}

/// Position `d` is the only position where `a` and `b` differ.
pub open spec fn is_only_diff(a: Seq<Bit>, b: Seq<Bit>, d: int) -> bool {
    &&& 0 <= d < a.len()
    &&& a[d] != b[d]
    &&& forall|j: int| 0 <= j < a.len() && j != d ==> a[j] == b[j]
}

/// `a` and `b` differ in exactly one position: the condition under which
/// two implicants of equal length combine.
pub open spec fn one_diff(a: Seq<Bit>, b: Seq<Bit>) -> bool {
    exists|d: int| is_only_diff(a, b, d)
}

/// The combination of two implicants: matching bits are kept, the
/// differing position becomes `DontCare`.
pub open spec fn merged(a: Seq<Bit>, b: Seq<Bit>) -> Seq<Bit> {
    Seq::new(
        a.len(),
        |j: int|
            if a[j] == b[j] {
                a[j]
            } else {
                Bit::DontCare
            },
    )
}

/// What `minimize` guarantees of its result: every implicant has `n` bits
/// and is sound for the minterm set, every minterm is covered, an empty
/// input gives an empty result, and the result holds no duplicates.
pub open spec fn minimized_for(result: Seq<BitList>, n: nat, minterms: Seq<usize>) -> bool {
    &&& forall|k: int| 0 <= k < result.len() ==> (#[trigger] result[k]@).len() == n
    &&& forall|k: int| 0 <= k < result.len() ==> sound(#[trigger] result[k]@, n, minterms)
    &&& forall|t: int| 0 <= t < minterms.len() ==> covered((#[trigger] minterms[t]) as nat, result)
    &&& minterms.len() == 0 ==> result.len() == 0
    &&& no_dup(result)
}

/// The minterm set marks every row of the truth table: the function is the
/// constant 1.
pub open spec fn full_input(minterms: Seq<usize>, n: nat) -> bool {
    forall|m: nat| m < pow2(n) ==> #[trigger] minterms.contains(m as usize)
}

/// The implicant that constrains nothing: `DontCare` at every position.
pub open spec fn all_dont_care(n: nat) -> Seq<Bit> {
    Seq::new(n, |j: int| Bit::DontCare)
}

/// The list holds an implicant with exactly these bits.
spec fn contains_view(l: Seq<BitList>, v: Seq<Bit>) -> bool {
    exists|k: int| 0 <= k < l.len() && (#[trigger] l[k]@) == v
}

/// Two implicants of `n` bits with adjacent weights that differ in exactly
/// one position: the pairs the combination pass merges.
spec fn parent_pair(a: Seq<Bit>, b: Seq<Bit>, n: nat) -> bool {
    a.len() == n && b.len() == n && ones(b) == ones(a) + 1 && one_diff(a, b)
}

/// Every implicant of the list has exactly `g` `DontCare` bits.
spec fn exact_dc(l: Seq<BitList>, g: nat) -> bool {
    forall|k: int| 0 <= k < l.len() ==> dont_cares(#[trigger] l[k]@) == g
}

/// The list holds every implicant of `n` bits with exactly `g` `DontCare`
/// bits: for the constant-1 function each generation is such a full layer.
spec fn complete(l: Seq<BitList>, n: nat, g: nat) -> bool {
    forall|v: Seq<Bit>|
        #![trigger dont_cares(v)]
        v.len() == n && dont_cares(v) == g ==> contains_view(l, v)
}

/// The pair `(ka, kb)` of the generation has been scanned: if it merges,
/// both sides are marked used and the merge is in the next generation.
spec fn pair_done(l: Seq<BitList>, used: Seq<BitList>, nxt: Seq<BitList>, n: nat, ka: int, kb: int) -> bool {
    parent_pair(l[ka]@, l[kb]@, n) ==> contains_view(used, l[ka]@) && contains_view(used, l[kb]@)
        && contains_view(nxt, merged(l[ka]@, l[kb]@))
}

proof fn lemma_contains_view_extends(v: Seq<Bit>, l1: Seq<BitList>, l2: Seq<BitList>)
    requires
        contains_view(l1, v),
        extends(l2, l1),
    ensures
        contains_view(l2, v),
{
    let k = choose|k: int| 0 <= k < l1.len() && (#[trigger] l1[k]@) == v;
    assert(l2[k]@ == v);
}

proof fn lemma_all_dc_count(n: nat)
    ensures
        all_dont_care(n).len() == n,
        dont_cares(all_dont_care(n)) == n,
    decreases n,
{
    if n > 0 {
        lemma_all_dc_count(sub1(n));
        assert(all_dont_care(n).drop_last() =~= all_dont_care(sub1(n)));
        assert(all_dont_care(n).last() == Bit::DontCare);
    }
}

/// The combined implicant covers exactly the rows its two parents cover
/// between them.
proof fn lemma_merged_covers(a: Seq<Bit>, b: Seq<Bit>, d: int)
    requires
        a.len() == b.len(),
        is_only_diff(a, b, d),
    ensures
        forall|m: nat| #[trigger] covers(merged(a, b), m) <==> covers(a, m) || covers(b, m),
{
    let c = merged(a, b);
    assert forall|m: nat| #[trigger] covers(c, m) <==> covers(a, m) || covers(b, m) by {
        if covers(a, m) {
            assert forall|j: int| 0 <= j < c.len() implies (#[trigger] c[j]) == Bit::DontCare
                || c[j] == bit_at(m, j as nat) by {
                assert(a[j] == Bit::DontCare || a[j] == bit_at(m, j as nat));
            }
        }
        if covers(b, m) {
            assert forall|j: int| 0 <= j < c.len() implies (#[trigger] c[j]) == Bit::DontCare
                || c[j] == bit_at(m, j as nat) by {
                assert(b[j] == Bit::DontCare || b[j] == bit_at(m, j as nat));
            }
        }
        if covers(c, m) && !covers(a, m) {
            // Every position other than `d` agrees with both parents, so the
            // mismatch of `a` is at `d`; since `b[d]` differs from `a[d]` it
            // is `DontCare` or the matching value, and `b` covers `m`.
            assert forall|j: int| 0 <= j < b.len() implies (#[trigger] b[j]) == Bit::DontCare
                || b[j] == bit_at(m, j as nat) by {
                assert(c[j] == Bit::DontCare || c[j] == bit_at(m, j as nat));
                if j != d {
                    assert(b[j] == a[j]);
                    assert(c[j] == a[j]);
                } else {
                    assert(!(a[d] == Bit::DontCare || a[d] == bit_at(m, d as nat))) by {
                        if a[d] == Bit::DontCare || a[d] == bit_at(m, d as nat) {
                            assert forall|t: int|
                                0 <= t < a.len() implies (#[trigger] a[t]) == Bit::DontCare || a[t]
                                == bit_at(m, t as nat) by {
                                if t != d {
                                    assert(c[t] == Bit::DontCare || c[t] == bit_at(m, t as nat));
                                    assert(a[t] == c[t] || c[t] == Bit::DontCare);
                                    if c[t] == Bit::DontCare && a[t] != c[t] {
                                        assert(a[t] != b[t]);
                                        assert(false);
                                    }
                                }
                            }
                            assert(covers(a, m));
                        }
                    }
                }
            }
            assert(covers(b, m));
        }
    }
}

/// `l2` keeps every entry of `l1` at its place and may add more at the end.
pub open spec fn extends(l2: Seq<BitList>, l1: Seq<BitList>) -> bool {
    l2.len() >= l1.len() && forall|k: int| 0 <= k < l1.len() ==> l2[k] == l1[k]
}

proof fn lemma_covered_extends(m: nat, l1: Seq<BitList>, l2: Seq<BitList>)
    requires
        covered(m, l1),
        extends(l2, l1),
    ensures
        covered(m, l2),
{
    let k = choose|k: int| 0 <= k < l1.len() && covers(#[trigger] l1[k]@, m);
    assert(covers(l2[k]@, m));
}

/// Looks an implicant up in a list by structural equality.
#[verifier::loop_isolation(false)]
fn contains_bits(l: &Vec<BitList>, x: &BitList) -> (r: bool)
    ensures
        r == exists|k: int| 0 <= k < l@.len() && (#[trigger] l@[k]@) == x@,
{
    for k in 0..l.len()
        invariant
            forall|t: int| 0 <= t < k ==> (#[trigger] l@[t]@) != x@,
    {
        if l[k] == *x {
            assert(l@[k as int].0@ == x.0@);
            assert(l@[k as int]@ == x@);
            return true;
        }
    }
    false
}

/// Inserts an implicant unless a structurally equal one is present: the
/// lists model sets of implicants.
fn insert_unique(l: &mut Vec<BitList>, x: BitList)
    ensures
        (exists|k: int| 0 <= k < old(l)@.len() && (#[trigger] old(l)@[k]@) == x@) ==> final(l)@
            == old(l)@,
        !(exists|k: int| 0 <= k < old(l)@.len() && (#[trigger] old(l)@[k]@) == x@) ==> final(l)@
            == old(l)@.push(x),
        extends(final(l)@, old(l)@),
        exists|k: int| 0 <= k < final(l)@.len() && (#[trigger] final(l)@[k]@) == x@,
{
    if !contains_bits(l, &x) {
        let ghost oldl = l@;
        l.push(x);
        assert(l@[oldl.len() as int]@ == x@);
    }
}

/// Expands a minterm index into its vector of `n` defined bits.
#[verifier::loop_isolation(false)]
fn minterm_to_bits(m: usize, n: usize) -> (bl: BitList)
    requires
        n <= 16,
    ensures
        bl@ == minterm_seq(m as nat, n as nat),
{
    let mut bits: Vec<Bit> = Vec::new();
    for j in 0..n
        invariant
            bits@.len() == j,
            forall|t: int| 0 <= t < j ==> (#[trigger] bits@[t]) == bit_at(m as nat, t as nat),
    {
        bits.push(crate::minterm::get_bit(m, j));
    }
    proof {
        assert(bits@ =~= minterm_seq(m as nat, n as nat));
    }
    BitList(bits)
}

/// Attempts the combination step on two implicants of equal length: scans
/// the positions in order, gives up as soon as two differ, and otherwise
/// merges the pair, putting `DontCare` at the one differing position.
#[verifier::loop_isolation(false)]
fn try_combine(a: &BitList, b: &BitList) -> (r: Option<BitList>)
    requires
        a@.len() == b@.len(),
    ensures
        match r {
            Some(c) => one_diff(a@, b@) && c@ == merged(a@, b@),
            None => !one_diff(a@, b@),
        },
{
    let n = a.0.len();
    let mut bits: Vec<Bit> = Vec::new();
    let mut diff_count: usize = 0;
    let ghost mut dpos: int = 0;
    let ghost mut dpos2: int = 0;
    let mut j: usize = 0;
    while j < n && diff_count <= 1
        invariant
            j <= n,
            bits@.len() == j,
            diff_count <= 2,
            forall|t: int| 0 <= t < j ==> (#[trigger] bits@[t]) == merged(a@, b@)[t],
            diff_count == 0 ==> forall|t: int| 0 <= t < j ==> a@[t] == b@[t],
            diff_count == 1 ==> 0 <= dpos < j && a@[dpos] != b@[dpos] && (forall|t: int|
                0 <= t < j && t != dpos ==> a@[t] == b@[t]),
            diff_count == 2 ==> 0 <= dpos < j && 0 <= dpos2 < j && dpos != dpos2 && a@[dpos]
                != b@[dpos] && a@[dpos2] != b@[dpos2],
        decreases n - j,
    {
        if a.0[j] != b.0[j] {
            diff_count = diff_count + 1;
            proof {
                if diff_count == 1 {
                    dpos = j as int;
                } else {
                    dpos2 = j as int;
                }
            }
            bits.push(Bit::DontCare);
        } else {
            bits.push(a.0[j]);
        }
        j = j + 1;
    }
    if diff_count == 1 {
        proof {
            assert(is_only_diff(a@, b@, dpos));
            assert(bits@ =~= merged(a@, b@));
        }
        Some(BitList(bits))
    } else {
        proof {
            if one_diff(a@, b@) {
                let d = choose|d: int| is_only_diff(a@, b@, d);
                if diff_count == 0 {
                    assert(a@[d] == b@[d]);
                } else {
                    assert(dpos != d || dpos2 != d);
                }
                assert(false);
            }
        }
        None
    }
}

/// Every implicant of the list has `n` bits and is sound for the minterm
/// set: the working-state invariant of the combination loop.
spec fn inv_list(l: Seq<BitList>, n: nat, minterms: Seq<usize>) -> bool {
    forall|k: int|
        0 <= k < l.len() ==> (#[trigger] l[k]@).len() == n && sound(l[k]@, n, minterms)
}

/// Every implicant of the list has at least `g` `DontCare` bits. Each
/// combination round raises this floor by one, which bounds the number of
/// rounds.
spec fn min_dc(l: Seq<BitList>, g: nat) -> bool {
    forall|k: int| 0 <= k < l.len() ==> dont_cares(#[trigger] l[k]@) >= g
}

/// The implicant `c` covers every row that `imp` covers.
spec fn covers_all_of(imp: Seq<Bit>, c: Seq<Bit>) -> bool {
    forall|m: nat| #[trigger] covers(imp, m) ==> covers(c, m)
}

/// Some implicant of `l` covers every row that `imp` covers: dropping
/// `imp` loses no coverage while `l` is kept.
spec fn subsumed(imp: Seq<Bit>, l: Seq<BitList>) -> bool {
    exists|k: int| 0 <= k < l.len() && covers_all_of(imp, #[trigger] l[k]@)
}

/// Some implicant of `l` at position `k` or later covers row `m`.
spec fn covered_from(m: nat, l: Seq<BitList>, k: int) -> bool {
    exists|i: int| k <= i < l.len() && covers(#[trigger] l[i]@, m)
}

proof fn lemma_subsumed_extends(imp: Seq<Bit>, l1: Seq<BitList>, l2: Seq<BitList>)
    requires
        subsumed(imp, l1),
        extends(l2, l1),
    ensures
        subsumed(imp, l2),
{
    let k = choose|k: int| 0 <= k < l1.len() && covers_all_of(imp, #[trigger] l1[k]@);
    assert(l2[k] == l1[k]);
    assert(covers_all_of(imp, l2[k]@));
}

/// Inserting one implicant into a duplicate-free list keeps it
/// duplicate-free, with the shape `insert_unique` guarantees.
proof fn lemma_no_dup_insert(prev: Seq<BitList>, cur: Seq<BitList>, x: Seq<Bit>)
    requires
        no_dup(prev),
        extends(cur, prev),
        cur.len() <= prev.len() + 1,
        (exists|k: int| 0 <= k < prev.len() && (#[trigger] prev[k]@) == x) ==> cur == prev,
        forall|k: int| prev.len() <= k < cur.len() ==> (#[trigger] cur[k]@) == x,
    ensures
        no_dup(cur),
{
    if cur != prev {
        assert(!(exists|k: int| 0 <= k < prev.len() && (#[trigger] prev[k]@) == x));
        assert forall|k1: int, k2: int| 0 <= k1 < k2 < cur.len() implies (#[trigger] cur[k1]@)
            != (#[trigger] cur[k2]@) by {
            if k2 < prev.len() {
                assert(cur[k1]@ == prev[k1]@ && cur[k2]@ == prev[k2]@);
            } else {
                assert(cur[k2]@ == x);
                if k1 < prev.len() {
                    assert(cur[k1]@ == prev[k1]@);
                    assert(prev[k1]@ != x);
                } else {
                    assert(k1 >= prev.len() && k2 >= prev.len());
                    assert(false);
                }
            }
        }
    }
}

/// The expansion of an in-range minterm has `n` bits, covers its own row,
/// and covers no other row: rows below `2^n` are determined by their bits.
proof fn lemma_minterm_expansion(m: nat, n: nat, minterms: Seq<usize>)
    requires
        m < pow2(n),
        minterms.contains(m as usize),
        forall|k: int| 0 <= k < minterms.len() ==> ((#[trigger] minterms[k]) as nat) < pow2(n),
    ensures
        minterm_seq(m, n).len() == n,
        covers(minterm_seq(m, n), m),
        sound(minterm_seq(m, n), n, minterms),
{
    let s = minterm_seq(m, n);
    assert forall|m2: nat| m2 < pow2(n) && #[trigger] covers(s, m2) implies minterms.contains(
        m2 as usize,
    ) by {
        assert forall|j: nat| j < n implies minterm_bit(m, j) == minterm_bit(m2, j) by {
            assert(s[j as int] == bit_at(m, j));
            assert(s[j as int] == Bit::DontCare || s[j as int] == bit_at(m2, j));
        }
        lemma_bits_determine(m, m2, n);
        assert(m2 as usize == m as usize);
    }
}

/// Reduces the minterm set of a function of `num_args` variables to a set
/// of implicants: expands every minterm, then repeatedly combines pairs of
/// implicants whose weights are adjacent and that differ in exactly one
/// position, until a round combines nothing. An implicant that no round
/// could combine is kept; together the kept implicants cover exactly the
/// given minterms.
#[verifier::loop_isolation(false)]
#[verifier::rlimit(100)]
pub fn minimize(num_args: usize, minterms: &Vec<usize>) -> (result: Vec<BitList>)
    requires
        1 <= num_args <= 16,
        forall|k: int|
            0 <= k < minterms@.len() ==> ((#[trigger] minterms@[k]) as nat) < pow2(num_args as nat),
    ensures
        minimized_for(result@, num_args as nat, minterms@),
        full_input(minterms@, num_args as nat) ==> result@.len() == 1 && result@[0]@
            == all_dont_care(num_args as nat),
{
    let ghost n = num_args as nat;
    let ghost full = full_input(minterms@, n);
    proof {
        lemma2_to64();
        if num_args < 16 {
            lemma_pow2_strictly_increases(n, 16);
        }
    }
    let mut result: Vec<BitList> = Vec::new();
    let mut current: Vec<BitList> = Vec::new();

    // Expansion: one defined bit vector per minterm, duplicates dropped.
    for k in 0..minterms.len()
        invariant
            inv_list(current@, n, minterms@),
            forall|t: int| 0 <= t < k ==> covered((#[trigger] minterms@[t]) as nat, current@),
            minterms@.len() == 0 ==> current@.len() == 0,
            exact_dc(current@, 0),
            forall|t: int|
                0 <= t < k ==> contains_view(
                    current@,
                    minterm_seq((#[trigger] minterms@[t]) as nat, n),
                ),
    {
        let bl = minterm_to_bits(minterms[k], num_args);
        proof {
            assert(minterms@.contains(minterms@[k as int]));
            lemma_minterm_expansion(minterms@[k as int] as nat, n, minterms@);
            assert forall|j: int| 0 <= j < bl@.len() implies bl@[j] != Bit::DontCare by {
                assert(bl@[j] == bit_at(minterms@[k as int] as nat, j as nat));
            }
            lemma_dc_zero(bl@);
        }
        let ghost prev = current@;
        insert_unique(&mut current, bl);
        proof {
            assert forall|t: int| 0 <= t < k + 1 implies covered(
                (#[trigger] minterms@[t]) as nat,
                current@,
            ) by {
                if t < k {
                    lemma_covered_extends(minterms@[t] as nat, prev, current@);
                } else {
                    let ki = choose|ki: int|
                        0 <= ki < current@.len() && (#[trigger] current@[ki]@) == minterm_seq(
                            minterms@[t] as nat,
                            n,
                        );
                    assert(covers(current@[ki]@, minterms@[t] as nat));
                }
            }
            assert forall|t: int| 0 <= t < k + 1 implies contains_view(
                current@,
                minterm_seq((#[trigger] minterms@[t]) as nat, n),
            ) by {
                if t < k {
                    lemma_contains_view_extends(
                        minterm_seq(minterms@[t] as nat, n),
                        prev,
                        current@,
                    );
                }
            }
        }
    }

    proof {
        if full {
            assert forall|v: Seq<Bit>|
                #![trigger dont_cares(v)]
                v.len() == n && dont_cares(v) == 0 implies contains_view(current@, v) by {
                assert forall|j: int| 0 <= j < v.len() implies v[j] != Bit::DontCare by {
                    if v[j] == Bit::DontCare {
                        lemma_dont_cares_update_gen(v, j, Bit::Zero);
                    }
                }
                let mval = lemma_vector_index(v, n);
                assert(minterms@.contains(mval as usize));
                let t = choose|t: int| 0 <= t < minterms@.len() && minterms@[t] == mval as usize;
                assert(contains_view(current@, minterm_seq(minterms@[t] as nat, n)));
                assert(minterms@[t] as nat == mval);
            }
            assert(complete(current@, n, 0));
        }
    }

    let ghost mut gen: nat = 0;
    let mut done = false;
    while !done
        invariant
            inv_list(current@, n, minterms@),
            min_dc(current@, gen),
            gen <= 16,
            inv_list(result@, n, minterms@),
            no_dup(result@),
            forall|t: int|
                0 <= t < minterms@.len() ==> covered((#[trigger] minterms@[t]) as nat, result@)
                    || covered(minterms@[t] as nat, current@),
            minterms@.len() == 0 ==> result@.len() == 0 && current@.len() == 0,
            done ==> forall|t: int|
                0 <= t < minterms@.len() ==> covered((#[trigger] minterms@[t]) as nat, result@),
            full ==> exact_dc(current@, gen),
            full ==> complete(current@, n, gen),
            full ==> gen <= n,
            full && !done ==> result@.len() == 0,
            full && done ==> result@.len() == 1 && result@[0]@ == all_dont_care(n),
        decreases 17 - gen, (if done {
            0int
        } else {
            1int
        }),
    {
        let mut used: Vec<BitList> = Vec::new();
        let mut next: Vec<BitList> = Vec::new();

        // Combination pass: every implicant against every implicant of the
        // next weight group; matches are recorded on both sides.
        for ai in 0..current.len()
            invariant
                inv_list(next@, n, minterms@),
                min_dc(next@, gen + 1),
                forall|u: int| 0 <= u < used@.len() ==> subsumed((#[trigger] used@[u]@), next@),
                used@.len() == 0 ==> next@.len() == 0,
                used@.len() > 0 ==> next@.len() > 0,
                minterms@.len() == 0 ==> next@.len() == 0 && used@.len() == 0,
                full ==> exact_dc(next@, gen + 1),
                full && gen == n ==> used@.len() == 0,
                full ==> forall|ka: int, kb: int|
                    0 <= ka < ai && 0 <= kb < current@.len() ==> #[trigger] pair_done(
                        current@,
                        used@,
                        next@,
                        n,
                        ka,
                        kb,
                    ),
        {
            for bi in 0..current.len()
                invariant
                    inv_list(next@, n, minterms@),
                    min_dc(next@, gen + 1),
                    forall|u: int| 0 <= u < used@.len() ==> subsumed((#[trigger] used@[u]@), next@),
                    used@.len() == 0 ==> next@.len() == 0,
                    used@.len() > 0 ==> next@.len() > 0,
                    minterms@.len() == 0 ==> next@.len() == 0 && used@.len() == 0,
                    full ==> exact_dc(next@, gen + 1),
                    full && gen == n ==> used@.len() == 0,
                    full ==> forall|ka: int, kb: int|
                        0 <= ka < ai && 0 <= kb < current@.len() ==> #[trigger] pair_done(
                            current@,
                            used@,
                            next@,
                            n,
                            ka,
                            kb,
                        ),
                    full ==> forall|kb: int|
                        0 <= kb < bi ==> #[trigger] pair_done(
                            current@,
                            used@,
                            next@,
                            n,
                            ai as int,
                            kb,
                        ),
            {
                let oa = current[ai].count_ones();
                let ob = current[bi].count_ones();
                if ob == oa + 1 {
                    let combined = try_combine(&current[ai], &current[bi]);
                    match combined {
                        Some(c) => {
                            let ghost av = current@[ai as int]@;
                            let ghost bv = current@[bi as int]@;
                            let ghost cv = c@;
                            proof {
                                if full && gen == n {
                                    lemma_dc_full(av);
                                    lemma_ones_zero(av);
                                    lemma_dc_full(bv);
                                    lemma_ones_zero(bv);
                                    assert(false);
                                }
                                let d = choose|d: int| is_only_diff(av, bv, d);
                                lemma_merged_covers(av, bv, d);
                                assert forall|m: nat|
                                    m < pow2(n) && #[trigger] covers(cv, m) implies minterms@
                                    .contains(m as usize) by {
                                    assert(covers(merged(av, bv), m));
                                    assert(covers(av, m) || covers(bv, m));
                                }
                                if av[d] != Bit::DontCare {
                                    assert(cv =~= av.update(d, Bit::DontCare));
                                    lemma_dont_cares_update(av, d);
                                } else {
                                    assert(bv[d] != Bit::DontCare);
                                    assert(cv =~= bv.update(d, Bit::DontCare));
                                    lemma_dont_cares_update(bv, d);
                                }
                            }
                            let ghost next_before = next@;
                            insert_unique(&mut next, c);
                            proof {
                                assert forall|u: int| 0 <= u < used@.len() implies subsumed(
                                    (#[trigger] used@[u]@),
                                    next@,
                                ) by {
                                    lemma_subsumed_extends(used@[u]@, next_before, next@);
                                }
                                let ki = choose|ki: int|
                                    0 <= ki < next@.len() && (#[trigger] next@[ki]@) == cv;
                                assert forall|m: nat| #[trigger] covers(av, m) implies covers(
                                    next@[ki]@,
                                    m,
                                ) by {
                                    assert(covers(merged(av, bv), m) <==> covers(av, m) || covers(
                                        bv,
                                        m,
                                    ));
                                }
                                assert(covers_all_of(av, next@[ki]@));
                                assert(subsumed(av, next@));
                                assert forall|m: nat| #[trigger] covers(bv, m) implies covers(
                                    next@[ki]@,
                                    m,
                                ) by {
                                    assert(covers(merged(av, bv), m) <==> covers(av, m) || covers(
                                        bv,
                                        m,
                                    ));
                                }
                                assert(covers_all_of(bv, next@[ki]@));
                                assert(subsumed(bv, next@));
                            }
                            let ghost used_before = used@;
                            insert_unique(&mut used, current[ai].clone());
                            let ghost used_mid = used@;
                            insert_unique(&mut used, current[bi].clone());
                            proof {
                                assert forall|u: int| 0 <= u < used@.len() implies subsumed(
                                    (#[trigger] used@[u]@),
                                    next@,
                                ) by {
                                    if u < used_before.len() {
                                        assert(used@[u]@ == used_before[u]@);
                                    } else {
                                        assert(used@[u]@ == av || used@[u]@ == bv);
                                    }
                                }
                                if full {
                                    assert(extends(used@, used_before));
                                    assert(contains_view(used_mid, av));
                                    lemma_contains_view_extends(av, used_mid, used@);
                                    assert(contains_view(used@, bv));
                                    assert(contains_view(next@, cv));
                                    assert forall|ka: int, kb: int|
                                        0 <= ka < ai && 0 <= kb
                                            < current@.len() implies #[trigger] pair_done(
                                        current@,
                                        used@,
                                        next@,
                                        n,
                                        ka,
                                        kb,
                                    ) by {
                                        if parent_pair(current@[ka]@, current@[kb]@, n) {
                                            assert(pair_done(
                                                current@,
                                                used_before,
                                                next_before,
                                                n,
                                                ka,
                                                kb,
                                            ));
                                            lemma_contains_view_extends(
                                                current@[ka]@,
                                                used_before,
                                                used@,
                                            );
                                            lemma_contains_view_extends(
                                                current@[kb]@,
                                                used_before,
                                                used@,
                                            );
                                            lemma_contains_view_extends(
                                                merged(current@[ka]@, current@[kb]@),
                                                next_before,
                                                next@,
                                            );
                                        }
                                    }
                                    assert forall|kb: int| 0 <= kb < bi + 1 implies #[trigger] pair_done(
                                        current@,
                                        used@,
                                        next@,
                                        n,
                                        ai as int,
                                        kb,
                                    ) by {
                                        if kb < bi {
                                            if parent_pair(current@[ai as int]@, current@[kb]@, n) {
                                                assert(pair_done(
                                                    current@,
                                                    used_before,
                                                    next_before,
                                                    n,
                                                    ai as int,
                                                    kb,
                                                ));
                                                lemma_contains_view_extends(
                                                    current@[ai as int]@,
                                                    used_before,
                                                    used@,
                                                );
                                                lemma_contains_view_extends(
                                                    current@[kb]@,
                                                    used_before,
                                                    used@,
                                                );
                                                lemma_contains_view_extends(
                                                    merged(current@[ai as int]@, current@[kb]@),
                                                    next_before,
                                                    next@,
                                                );
                                            }
                                        } else {
                                            assert(merged(av, bv) == cv);
                                        }
                                    }
                                }
                            }
                        },
                        None => {
                            proof {
                                if full {
                                    assert(!one_diff(current@[ai as int]@, current@[bi as int]@));
                                    assert(pair_done(
                                        current@,
                                        used@,
                                        next@,
                                        n,
                                        ai as int,
                                        bi as int,
                                    ));
                                }
                            }
                        },
                    }
                } else {
                    proof {
                        if full {
                            assert(ones(current@[bi as int]@) != ones(current@[ai as int]@) + 1);
                            assert(pair_done(current@, used@, next@, n, ai as int, bi as int));
                        }
                    }
                }
            }
        }

        proof {
            if full && gen < n {
                // Every implicant of this generation has a defined position
                // left, so it has a partner of adjacent weight and was used.
                assert forall|kv: int| 0 <= kv < current@.len() implies contains_view(
                    used@,
                    (#[trigger] current@[kv])@,
                ) by {
                    let v = current@[kv]@;
                    lemma_dc_lt_len_has_defined(v);
                    let jj = choose|j: int| 0 <= j < v.len() && v[j] != Bit::DontCare;
                    if v[jj] == Bit::One {
                        let w = v.update(jj, Bit::Zero);
                        lemma_dont_cares_update_gen(v, jj, Bit::Zero);
                        lemma_ones_update(v, jj, Bit::Zero);
                        assert(dont_cares(w) == gen);
                        assert(contains_view(current@, w));
                        let kw = choose|k: int|
                            0 <= k < current@.len() && (#[trigger] current@[k]@) == w;
                        assert(is_only_diff(w, v, jj));
                        assert(parent_pair(current@[kw]@, current@[kv]@, n));
                        assert(pair_done(current@, used@, next@, n, kw, kv));
                    } else {
                        let w = v.update(jj, Bit::One);
                        lemma_dont_cares_update_gen(v, jj, Bit::One);
                        lemma_ones_update(v, jj, Bit::One);
                        assert(dont_cares(w) == gen);
                        assert(contains_view(current@, w));
                        let kw = choose|k: int|
                            0 <= k < current@.len() && (#[trigger] current@[k]@) == w;
                        assert(is_only_diff(v, w, jj));
                        assert(parent_pair(current@[kv]@, current@[kw]@, n));
                        assert(pair_done(current@, used@, next@, n, kv, kw));
                    }
                }
                // The generation is not empty: row 0 is still covered by it.
                assert(minterms@.contains((0nat) as usize));
                let t0 = choose|t: int| 0 <= t < minterms@.len() && minterms@[t] == (0nat) as usize;
                assert(covered(minterms@[t0] as nat, result@) || covered(
                    minterms@[t0] as nat,
                    current@,
                ));
                assert(current@.len() > 0);
                assert(contains_view(used@, current@[0]@));
                assert(used@.len() > 0);
                // The next generation is the complete layer above this one.
                assert forall|v: Seq<Bit>|
                    #![trigger dont_cares(v)]
                    v.len() == n && dont_cares(v) == gen + 1 implies contains_view(next@, v) by {
                    lemma_dc_pos_has_dc(v);
                    let d = choose|j: int| 0 <= j < v.len() && v[j] == Bit::DontCare;
                    let a = v.update(d, Bit::Zero);
                    let b = v.update(d, Bit::One);
                    lemma_dont_cares_update_gen(v, d, Bit::Zero);
                    lemma_dont_cares_update_gen(v, d, Bit::One);
                    lemma_ones_update(v, d, Bit::Zero);
                    lemma_ones_update(v, d, Bit::One);
                    assert(dont_cares(a) == gen);
                    assert(dont_cares(b) == gen);
                    assert(contains_view(current@, a));
                    assert(contains_view(current@, b));
                    let ka = choose|k: int|
                        0 <= k < current@.len() && (#[trigger] current@[k]@) == a;
                    let kb = choose|k: int|
                        0 <= k < current@.len() && (#[trigger] current@[k]@) == b;
                    assert(is_only_diff(a, b, d));
                    assert(parent_pair(current@[ka]@, current@[kb]@, n));
                    assert(pair_done(current@, used@, next@, n, ka, kb));
                    assert(merged(a, b) =~= v);
                }
                assert(complete(next@, n, gen + 1));
            }
        }

        // Collection pass: an implicant that took part in no combination is
        // prime with respect to this round and enters the result.
        for k in 0..current.len()
            invariant
                inv_list(result@, n, minterms@),
                no_dup(result@),
                minterms@.len() == 0 ==> result@.len() == 0,
                forall|t: int|
                    0 <= t < minterms@.len() ==> covered((#[trigger] minterms@[t]) as nat, result@)
                        || covered(minterms@[t] as nat, next@) || covered_from(
                        minterms@[t] as nat,
                        current@,
                        k as int,
                    ),
                full && gen < n ==> result@.len() == 0,
                full && gen == n ==> (forall|t: int|
                    0 <= t < result@.len() ==> (#[trigger] result@[t]@) == all_dont_care(n)),
                full && gen == n ==> result@.len() <= 1,
                full && gen == n && k > 0 ==> result@.len() == 1,
                full && gen < n ==> used@.len() > 0 && (forall|kv: int|
                    0 <= kv < current@.len() ==> contains_view(used@, (#[trigger] current@[kv])@)),
                full && gen == n ==> used@.len() == 0,
        {
            let ghost prev = result@;
            proof {
                if full && gen < n {
                    let w = choose|w: int|
                        0 <= w < used@.len() && (#[trigger] used@[w]@) == current@[k as int]@;
                    assert(used@[w]@ == current@[k as int]@);
                }
            }
            let taken = contains_bits(&used, &current[k]);
            if !taken {
                insert_unique(&mut result, current[k].clone());
                proof {
                    lemma_no_dup_insert(prev, result@, current@[k as int]@);
                    if full && gen == n {
                        assert(current@[k as int]@.len() == n);
                        lemma_dc_full(current@[k as int]@);
                        assert(current@[k as int]@ =~= all_dont_care(n));
                        if prev.len() == 1 {
                            assert(prev[0]@ == current@[k as int]@);
                        }
                    }
                }
            }
            proof {
                assert forall|t: int| 0 <= t < minterms@.len() implies covered(
                    (#[trigger] minterms@[t]) as nat,
                    result@,
                ) || covered(minterms@[t] as nat, next@) || covered_from(
                    minterms@[t] as nat,
                    current@,
                    k + 1,
                ) by {
                    let m = minterms@[t] as nat;
                    if covered(m, prev) {
                        lemma_covered_extends(m, prev, result@);
                    } else if !covered(m, next@) && covered_from(m, current@, k as int) {
                        let i = choose|i: int|
                            k <= i < current@.len() && covers(#[trigger] current@[i]@, m);
                        if i == k {
                            if taken {
                                let u = choose|u: int|
                                    0 <= u < used@.len() && (#[trigger] used@[u]@)
                                        == current@[k as int]@;
                                let ki = choose|ki: int|
                                    0 <= ki < next@.len() && covers_all_of(
                                        used@[u]@,
                                        #[trigger] next@[ki]@,
                                    );
                                assert(covers(used@[u]@, m));
                                assert(covers(next@[ki]@, m));
                                assert(covered(m, next@));
                            } else {
                                let ki = choose|ki: int|
                                    0 <= ki < result@.len() && (#[trigger] result@[ki]@)
                                        == current@[k as int]@;
                                assert(covers(result@[ki]@, m));
                                assert(covered(m, result@));
                            }
                        } else {
                            assert(covered_from(m, current@, k + 1));
                        }
                    }
                }
            }
        }

        if used.len() == 0 {
            done = true;
            proof {
                assert forall|t: int| 0 <= t < minterms@.len() implies covered(
                    (#[trigger] minterms@[t]) as nat,
                    result@,
                ) by {
                    let m = minterms@[t] as nat;
                    assert(!covered(m, next@));
                    assert(!covered_from(m, current@, current@.len() as int));
                }
                if full {
                    assert(gen == n);
                    lemma_all_dc_count(n);
                    assert(contains_view(current@, all_dont_care(n)));
                    assert(current@.len() > 0);
                    assert(result@.len() == 1);
                    assert(result@[0]@ == all_dont_care(n));
                }
            }
        } else {
            proof {
                assert(next@.len() > 0);
                lemma_dont_cares_le_len(next@[0]@);
                assert(dont_cares(next@[0]@) >= gen + 1);
                if full {
                    assert(gen < n);
                }
                gen = gen + 1;
            }
            current = next;
        }
    }
    result
}

/// The result contract reads the minterm list as a set: a result admitted
/// for one listing of the minterms is admitted for every other listing
/// with the same members. Together with the duplicate-free result this is
/// what makes the outcome a set over a set, with no dependence on element
/// order.
pub proof fn lemma_minimized_for_reads_members(
    result: Seq<BitList>,
    n: nat,
    minterms1: Seq<usize>,
    minterms2: Seq<usize>,
)
    requires
        minimized_for(result, n, minterms1),
        forall|x: usize| minterms1.contains(x) <==> #[trigger] minterms2.contains(x),
        minterms1.len() == 0 <==> minterms2.len() == 0,
    ensures
        minimized_for(result, n, minterms2),
{
    assert forall|k: int| 0 <= k < result.len() implies sound(
        #[trigger] result[k]@,
        n,
        minterms2,
    ) by {
        assert forall|m: nat|
            m < pow2(n) && #[trigger] covers(result[k]@, m) implies minterms2.contains(
            m as usize,
        ) by {
            assert(minterms1.contains(m as usize));
        }
    }
    assert forall|t: int| 0 <= t < minterms2.len() implies covered(
        (#[trigger] minterms2[t]) as nat,
        result,
    ) by {
        assert(minterms2.contains(minterms2[t]));
        assert(minterms1.contains(minterms2[t]));
        let t1 = choose|t1: int| 0 <= t1 < minterms1.len() && minterms1[t1] == minterms2[t];
        assert(covered((minterms1[t1]) as nat, result));
    }
}

/// Decides whether an implicant covers a truth-table row: every position
/// that is not `DontCare` must agree with the corresponding bit of the row
/// index.
#[verifier::loop_isolation(false)]
pub fn covers_minterm(imp: &BitList, m: usize) -> (r: bool)
    requires
        imp@.len() <= 16,
    ensures
        r == covers(imp@, m as nat),
{
    for j in 0..imp.0.len()
        invariant
            forall|t: int|
                0 <= t < j ==> (#[trigger] imp@[t]) == Bit::DontCare || imp@[t] == bit_at(
                    m as nat,
                    t as nat,
                ),
    {
        let bj = imp.0[j];
        if bj != Bit::DontCare {
            let actual = crate::minterm::get_bit(m, j);
            if bj != actual {
                proof {
                    assert(imp@[j as int] != Bit::DontCare && imp@[j as int] != bit_at(
                        m as nat,
                        j as nat,
                    ));
                }
                return false;
            }
        }
    }
    true
}

/// The input errors: a variable count outside `[1, 16]`, or a minterm at
/// or above `2^n`.
#[derive(Copy, Clone, PartialEq, Eq, Structural, Debug)]
pub enum MinimizeError {
    InvalidVariableCount,
    MintermOutOfRange,
}

/// Validates the inputs at the boundary, then minimizes: `Ok` exactly on
/// the inputs `minimize` accepts, and otherwise the error naming what was
/// wrong, the variable count being checked first.
#[verifier::loop_isolation(false)]
pub fn try_minimize(num_args: usize, minterms: &Vec<usize>) -> (r: Result<
    Vec<BitList>,
    MinimizeError,
>)
    ensures
        match r {
            Ok(result) => {
                &&& 1 <= num_args <= 16
                &&& forall|k: int|
                    0 <= k < minterms@.len() ==> ((#[trigger] minterms@[k]) as nat) < pow2(
                        num_args as nat,
                    )
                &&& minimized_for(result@, num_args as nat, minterms@)
            },
            Err(e) => {
                &&& (e == MinimizeError::InvalidVariableCount <==> !(1 <= num_args <= 16))
                &&& (e == MinimizeError::MintermOutOfRange ==> 1 <= num_args <= 16
                    && exists|k: int|
                    0 <= k < minterms@.len() && ((#[trigger] minterms@[k]) as nat) >= pow2(
                        num_args as nat,
                    ))
            },
        },
{
    if num_args < 1 || num_args > 16 {
        return Err(MinimizeError::InvalidVariableCount);
    }
    let p = pow2_usize(num_args);
    for k in 0..minterms.len()
        invariant
            forall|t: int| 0 <= t < k ==> (#[trigger] minterms@[t]) < p,
    {
        if minterms[k] >= p {
            return Err(MinimizeError::MintermOutOfRange);
        }
    }
    Ok(minimize(num_args, minterms))
}

} // verus!
