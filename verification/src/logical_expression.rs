//! The state of a truth-table editor and its update rules.
//!
//! A caller (a UI, a test harness) owns a variable count and the set of row
//! indices currently marked 1, and asks for the minimized expression after
//! every change. The decisions live here as a pure function from state and
//! message to the next state; performing input and output around it is the
//! caller's business.

use vstd::arithmetic::power2::{
    lemma2_to64, lemma_pow2_pos, lemma_pow2_strictly_increases, pow2,
};
use vstd::prelude::*;

use crate::minimizer::{covered, covers, minimize, minimized_for, no_dup};
use crate::minterm::pow2_usize;
use crate::ternary::BitList;

verus! {

/// The messages the state reacts to: grow or shrink the table by one
/// variable (within `[1, 16]`), toggle one row of the table, or store a
/// computed expression.
pub enum LogicalExpressionMessage {
    Ignore,
    PlusCol,
    MinusCol,
    FlipState(usize),
    UpdateExpression(Vec<BitList>),
}

/// No index occurs twice: the row set is a set.
pub open spec fn distinct_indices(l: Seq<usize>) -> bool {
    forall|p: int, q: int| 0 <= p < q < l.len() ==> l[p] != l[q]
}

/// Row `m` is marked 1: some stored index has `m` as its `n` low bits.
/// Indices keep bits above the current variable count (the count may have
/// been lowered after they were set); only the low bits select a row.
pub open spec fn row_is_set(bit_state: Seq<usize>, n: nat, m: nat) -> bool {
    exists|k: int| 0 <= k < bit_state.len() && ((#[trigger] bit_state[k]) as nat) % pow2(n) == m
}

/// The expression is the minimized form of the marked rows: implicants of
/// `n` bits, every marked row covered, no unmarked row covered, an empty
/// row set giving an empty expression, and no duplicate implicants.
pub open spec fn expression_matches(expr: Seq<BitList>, n: nat, bit_state: Seq<usize>) -> bool {
    &&& forall|k: int| 0 <= k < expr.len() ==> (#[trigger] expr[k]@).len() == n
    &&& forall|t: int|
        0 <= t < bit_state.len() ==> covered(
            ((#[trigger] bit_state[t]) as nat) % pow2(n),
            expr,
        )
    &&& forall|k: int, m: nat|
        0 <= k < expr.len() && m < pow2(n) && #[trigger] covers(expr[k]@, m) ==> row_is_set(
            bit_state,
            n,
            m,
        )
    &&& bit_state.len() == 0 ==> expr.len() == 0
    &&& no_dup(expr)
}

/// The truth-table state: the variable count, the set of row indices
/// marked 1, and the expression last computed for them.
pub struct LogicalExpressionProperties {
    pub num_args: usize,
    pub bit_state: Vec<usize>,
    pub expression: Vec<BitList>,
}

impl Default for LogicalExpressionProperties {
    /// One variable, no row marked, no expression.
    fn default() -> (d: Self)
        ensures
            d.wf(),
            d.num_args == 1,
            d.bit_state@.len() == 0,
            d.expression@.len() == 0,
    {
        LogicalExpressionProperties {
            num_args: 1,
            bit_state: Vec::new(),
            expression: Vec::new(),
        }
    }
}

/// Finds an index in the row set.
#[verifier::loop_isolation(false)]
fn index_of(v: &Vec<usize>, x: usize) -> (r: Option<usize>)
    ensures
        match r {
            Some(j) => j < v@.len() && v@[j as int] == x,
            None => !v@.contains(x),
        },
{
    for k in 0..v.len()
        invariant
            forall|t: int| 0 <= t < k ==> v@[t] != x,
    {
        if v[k] == x {
            return Some(k);
        }
    }
    None
}

/// Whether the row set holds an index.
#[verifier::loop_isolation(false)]
fn contains_index(v: &Vec<usize>, x: usize) -> (r: bool)
    ensures
        r == v@.contains(x),
{
    match index_of(v, x) {
        Some(_) => true,
        None => false,
    }
}

/// The marked rows of the current table: every stored index reduced to its
/// `n` low bits, duplicates dropped.
#[verifier::loop_isolation(false)]
fn reduced_rows(bit_state: &Vec<usize>, num_args: usize) -> (r: Vec<usize>)
    requires
        1 <= num_args <= 16,
    ensures
        forall|t: int|
            0 <= t < r@.len() ==> ((#[trigger] r@[t]) as nat) < pow2(num_args as nat),
        forall|t: int|
            0 <= t < bit_state@.len() ==> r@.contains(
                ((((#[trigger] bit_state@[t]) as nat) % pow2(num_args as nat)) as usize),
            ),
        forall|t: int|
            0 <= t < r@.len() ==> row_is_set(bit_state@, num_args as nat, (#[trigger] r@[t]) as nat),
        bit_state@.len() == 0 ==> r@.len() == 0,
{
    let p = pow2_usize(num_args);
    let mut r: Vec<usize> = Vec::new();
    for k in 0..bit_state.len()
        invariant
            forall|t: int| 0 <= t < r@.len() ==> (#[trigger] r@[t]) < p,
            forall|t: int|
                0 <= t < k ==> r@.contains(
                    ((((#[trigger] bit_state@[t]) as nat) % pow2(num_args as nat)) as usize),
                ),
            forall|t: int|
                0 <= t < r@.len() ==> row_is_set(
                    bit_state@,
                    num_args as nat,
                    (#[trigger] r@[t]) as nat,
                ),
            bit_state@.len() == 0 ==> r@.len() == 0,
    {
        let row = bit_state[k] % p;
        if !contains_index(&r, row) {
            let ghost prev = r@;
            r.push(row);
            proof {
                assert forall|t: int| 0 <= t < k + 1 implies r@.contains(
                    ((((#[trigger] bit_state@[t]) as nat) % pow2(num_args as nat)) as usize),
                ) by {
                    if t < k {
                        let i = choose|i: int|
                            0 <= i < prev.len() && prev[i] == ((((bit_state@[t]) as nat) % pow2(
                                num_args as nat,
                            )) as usize);
                        assert(r@[i] == prev[i]);
                    } else {
                        assert(r@[prev.len() as int] == row);
                    }
                }
                assert(row_is_set(bit_state@, num_args as nat, row as nat)) by {
                    assert(((bit_state@[k as int]) as nat) % pow2(num_args as nat) == row as nat);
                }
            }
        } else {
            proof {
                assert forall|t: int| 0 <= t < k + 1 implies r@.contains(
                    ((((#[trigger] bit_state@[t]) as nat) % pow2(num_args as nat)) as usize),
                ) by {
                    if t == k {
                        assert(r@.contains(row));
                    }
                }
            }
        }
    }
    r
}

impl LogicalExpressionProperties {
    /// The state invariant: a legal variable count and a duplicate-free
    /// row set.
    pub open spec fn wf(&self) -> bool {
        &&& 1 <= self.num_args <= 16
        &&& distinct_indices(self.bit_state@)
    }

    /// Recomputes the expression from scratch for the current variable
    /// count and row set.
    #[verifier::loop_isolation(false)]
    fn recompute(&mut self)
        requires
            1 <= old(self).num_args <= 16,
        ensures
            final(self).num_args == old(self).num_args,
            final(self).bit_state == old(self).bit_state,
            expression_matches(
                final(self).expression@,
                final(self).num_args as nat,
                final(self).bit_state@,
            ),
    {
        let ghost n = self.num_args as nat;
        proof {
            lemma2_to64();
            if self.num_args < 16 {
                lemma_pow2_strictly_increases(n, 16);
            }
            lemma_pow2_pos(n);
        }
        let rows = reduced_rows(&self.bit_state, self.num_args);
        let expr = minimize(self.num_args, &rows);
        proof {
            assert(minimized_for(expr@, n, rows@));
            assert forall|t: int| 0 <= t < self.bit_state@.len() implies covered(
                ((#[trigger] self.bit_state@[t]) as nat) % pow2(n),
                expr@,
            ) by {
                let row = ((((self.bit_state@[t]) as nat) % pow2(n)) as usize);
                assert(rows@.contains(row));
                let i = choose|i: int| 0 <= i < rows@.len() && rows@[i] == row;
                assert(covered((rows@[i]) as nat, expr@));
            }
            assert forall|k: int, m: nat|
                0 <= k < expr@.len() && m < pow2(n) && #[trigger] covers(
                    expr@[k]@,
                    m,
                ) implies row_is_set(self.bit_state@, n, m) by {
                assert(rows@.contains(m as usize));
                let i = choose|i: int| 0 <= i < rows@.len() && rows@[i] == m as usize;
                assert(row_is_set(self.bit_state@, n, (rows@[i]) as nat));
            }
        }
        self.expression = expr;
    }

    /// Applies one message: clamps the variable count to `[1, 16]`,
    /// toggles a row in or out of the set, or stores an expression, and
    /// recomputes the expression after every change of count or rows. The
    /// returned flag asks the caller to redraw.
    #[verifier::loop_isolation(false)]
    pub fn update(&mut self, msg: LogicalExpressionMessage) -> (redraw: bool)
        requires
            old(self).wf(),
        ensures
            final(self).wf(),
            match msg {
                LogicalExpressionMessage::Ignore => *final(self) == *old(self) && !redraw,
                LogicalExpressionMessage::PlusCol => {
                    if old(self).num_args < 16 {
                        &&& final(self).num_args == old(self).num_args + 1
                        &&& final(self).bit_state == old(self).bit_state
                        &&& expression_matches(
                            final(self).expression@,
                            final(self).num_args as nat,
                            final(self).bit_state@,
                        )
                        &&& redraw
                    } else {
                        *final(self) == *old(self) && !redraw
                    }
                },
                LogicalExpressionMessage::MinusCol => {
                    if old(self).num_args > 1 {
                        &&& final(self).num_args == old(self).num_args - 1
                        &&& final(self).bit_state == old(self).bit_state
                        &&& expression_matches(
                            final(self).expression@,
                            final(self).num_args as nat,
                            final(self).bit_state@,
                        )
                        &&& redraw
                    } else {
                        *final(self) == *old(self) && !redraw
                    }
                },
                LogicalExpressionMessage::FlipState(i) => {
                    &&& final(self).num_args == old(self).num_args
                    &&& forall|x: usize|
                        final(self).bit_state@.contains(x) <==> (if x == i {
                            !old(self).bit_state@.contains(i)
                        } else {
                            old(self).bit_state@.contains(x)
                        })
                    &&& expression_matches(
                        final(self).expression@,
                        final(self).num_args as nat,
                        final(self).bit_state@,
                    )
                    &&& !redraw
                },
                LogicalExpressionMessage::UpdateExpression(e) => {
                    &&& final(self).num_args == old(self).num_args
                    &&& final(self).bit_state == old(self).bit_state
                    &&& final(self).expression == e
                    &&& redraw
                },
            },
    {
        match msg {
            LogicalExpressionMessage::Ignore => false,
            LogicalExpressionMessage::PlusCol => {
                if self.num_args < 16 {
                    self.num_args = self.num_args + 1;
                    self.recompute();
                    true
                } else {
                    false
                }
            },
            LogicalExpressionMessage::MinusCol => {
                if self.num_args > 1 {
                    self.num_args = self.num_args - 1;
                    self.recompute();
                    true
                } else {
                    false
                }
            },
            LogicalExpressionMessage::FlipState(i) => {
                match index_of(&self.bit_state, i) {
                    Some(j) => {
                        let ghost old_bits = self.bit_state@;
                        proof {
                            assert(old_bits[j as int] == i);
                            assert(old_bits.contains(i));
                        }
                        let mut kept: Vec<usize> = Vec::new();
                        for k in 0..self.bit_state.len()
                            invariant
                                distinct_indices(self.bit_state@),
                                self.bit_state@ == old_bits,
                                forall|t: int| 0 <= t < kept@.len() ==> (#[trigger] kept@[t]) != i,
                                forall|t: int|
                                    0 <= t < kept@.len() ==> old_bits.contains(#[trigger] kept@[t]),
                                forall|t: int|
                                    0 <= t < k ==> (old_bits[t] == i || kept@.contains(
                                        #[trigger] old_bits[t],
                                    )),
                                distinct_indices(kept@),
                        {
                            let x = self.bit_state[k];
                            if x != i && !contains_index(&kept, x) {
                                let ghost prev = kept@;
                                kept.push(x);
                                proof {
                                    assert(kept@[prev.len() as int] == x);
                                    assert forall|t: int| 0 <= t < k + 1 implies (old_bits[t] == i
                                        || kept@.contains(#[trigger] old_bits[t])) by {
                                        if t < k && old_bits[t] != i {
                                            let w = choose|w: int|
                                                0 <= w < prev.len() && prev[w] == old_bits[t];
                                            assert(kept@[w] == old_bits[t]);
                                        }
                                    }
                                }
                            }
                        }
                        self.bit_state = kept;
                        proof {
                            assert forall|x: usize| self.bit_state@.contains(x) <==> (if x == i {
                                !old_bits.contains(i)
                            } else {
                                old_bits.contains(x)
                            }) by {
                                if x == i {
                                    if self.bit_state@.contains(i) {
                                        let w = choose|w: int|
                                            0 <= w < self.bit_state@.len() && self.bit_state@[w]
                                                == i;
                                        assert(false);
                                    }
                                } else {
                                    if old_bits.contains(x) {
                                        let t = choose|t: int|
                                            0 <= t < old_bits.len() && old_bits[t] == x;
                                        assert(self.bit_state@.contains(old_bits[t]));
                                    }
                                    if self.bit_state@.contains(x) {
                                        let w = choose|w: int|
                                            0 <= w < self.bit_state@.len() && self.bit_state@[w]
                                                == x;
                                        assert(old_bits.contains(self.bit_state@[w]));
                                    }
                                }
                            }
                        }
                    },
                    None => {
                        let ghost prev = self.bit_state@;
                        self.bit_state.push(i);
                        proof {
                            assert(self.bit_state@[prev.len() as int] == i);
                            assert forall|x: usize| self.bit_state@.contains(x) <==> (if x == i {
                                !prev.contains(i)
                            } else {
                                prev.contains(x)
                            }) by {
                                if x == i {
                                } else {
                                    if prev.contains(x) {
                                        let w = choose|w: int|
                                            0 <= w < prev.len() && prev[w] == x;
                                        assert(self.bit_state@[w] == x);
                                    } else {
                                        if self.bit_state@.contains(x) {
                                            let w = choose|w: int|
                                                0 <= w < self.bit_state@.len()
                                                    && self.bit_state@[w] == x;
                                            assert(w < prev.len());
                                        }
                                    }
                                }
                            }
                        }
                    },
                }
                self.recompute();
                false
            },
            LogicalExpressionMessage::UpdateExpression(e) => {
                self.expression = e;
                true
            },
        }
    }
}

} // verus!
