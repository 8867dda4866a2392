//! The lookup tables of the wheel, built once by verified loops: the cursor
//! initialisation table, the ascending list of representable residues, and
//! the transition table that drives the sieving cursors.
use vstd::prelude::*;

use crate::residues::{
    byte_residue, coprime210, gap210, lemma_next_coprime210, lemma_rank_monotone,
    lemma_rank_period_base, lemma_residue210, lemma_residue210_unique, rank, residue210,
    residue_bit, steps_to_coprime,
};
use crate::wheel::{WheelElem, WheelInit, BYTE_MODULO, BYTE_SIZE};

verus! {

/// Representable residues in one period of 210.
pub const SIZE: usize = 48;

/// The period of the representable integers.
pub const MODULO: usize = 210;

/// Number of transition states: one cycle of `SIZE` states for each of the
/// eight classes modulo 30 that a sieving prime can fall in.
pub const WHEEL_LEN: usize = 384;

/// The initialisation entry of residue `r` modulo 210.
pub open spec fn init_entry(r: int) -> WheelInit {
    WheelInit {
        next_mult_factor: steps_to_coprime(r) as u8,
        wheel_index: rank(r as nat) as u8,
    }
}

/// Residue modulo 30 of the primes that transition state `i` serves: its
/// spoke.
pub open spec fn spoke_residue(i: int) -> int {
    byte_residue(i / 48)
}

/// Residue modulo 210 of the cofactor that state `i` stands for: state `j`
/// of a spoke stands for the multiples `p * c` of the prime with
/// `c % 210 == residue210(j)`.
pub open spec fn cofactor_residue(i: int) -> int {
    residue210(i % 48)
}

/// Residue modulo 30 of the multiple that state `i` clears.
pub open spec fn mark_residue(i: int) -> int {
    (spoke_residue(i) * cofactor_residue(i)) % 30
}

/// How far the cofactor moves from state `i` to the next.
pub open spec fn stride(i: int) -> int {
    gap210(i % 48)
}

/// Whole bytes that the residue part of the multiple adds on the move.
pub open spec fn correction(i: int) -> int {
    (spoke_residue(i) * (cofactor_residue(i) + stride(i))) / 30 - (spoke_residue(i)
        * cofactor_residue(i)) / 30
}

/// The stride and the correction of a state fit its byte-sized fields.
#[verifier::spinoff_prover]
pub proof fn lemma_transition_fields(i: int)
    requires
        0 <= i < 384,
    ensures
        0 < stride(i) <= 210,
        0 <= correction(i) <= 203,
        transition(i).next_mult_factor as int == stride(i),
        transition(i).correction as int == correction(i),
{
    let j = i % 48;
    let c = cofactor_residue(i);
    let r = spoke_residue(i);
    let d = stride(i);
    lemma_residue210(j);
    lemma_residue210(47);
    lemma_next_coprime210(c, j);
    if j < 47 {
        lemma_residue210(j + 1);
    }
    assert(0 < r <= 29);
    assert(r * (c + d) <= 29 * 211 && r * c <= r * (c + d)) by (nonlinear_arith)
        requires
            0 < r <= 29,
            c + d <= 211,
            0 < d,
            0 < c,
    ;
    vstd::arithmetic::div_mod::lemma_div_is_ordered(r * c, r * (c + d), 30);
    vstd::arithmetic::div_mod::lemma_div_is_ordered(r * (c + d), 6119, 30);
}

/// Offset to the state that follows `i`: the last state of a spoke leads
/// back to its first.
pub open spec fn next_delta(i: int) -> int {
    if i % 48 == 47 {
        -47
    } else {
        1
    }
}

/// Transition state `i`.
pub open spec fn transition(i: int) -> WheelElem {
    WheelElem {
        unset_bit: (1u8 << (residue_bit(mark_residue(i)) as u8)),
        next_mult_factor: stride(i) as u8,
        correction: correction(i) as u8,
        next: next_delta(i) as i8,
    }
}

/// The state reached from state `i` after `k` steps of the transition table.
pub open spec fn walk(i: int, k: nat) -> int
    decreases k,
{
    if k == 0 {
        i
    } else {
        walk((i + transition(i).next as int) % 384, (k - 1) as nat)
    }
}

/// Within its spoke `s`, the walk from state `48 * s + j` moves up one state
/// per step and, after the last state, returns to the first.
#[verifier::spinoff_prover]
proof fn lemma_walk_within_spoke(s: int, j: int, k: nat)
    requires
        0 <= s < 8,
        0 <= j < 48,
        j + k <= 48,
    ensures
        walk(48 * s + j, k) == if j + k == 48 {
            48 * s
        } else {
            48 * s + j + k
        },
    decreases k,
{
    if k > 0 {
        let i = 48 * s + j;
        vstd::arithmetic::div_mod::lemma_fundamental_div_mod_converse(i, 48, s, j);
        assert(transition(i).next as int == next_delta(i));
        let n = (i + transition(i).next as int) % 384;
        assert(n == if j == 47 {
            48 * s
        } else {
            i + 1
        });
        assert(walk(i, k) == walk(n, (k - 1) as nat));
        if j < 47 {
            lemma_walk_within_spoke(s, j + 1, (k - 1) as nat);
        }
    }
}

/// Sum of the strides of the first `k` states of spoke `s`.
pub open spec fn stride_sum(s: int, k: nat) -> int
    decreases k,
{
    if k == 0 {
        0
    } else {
        stride_sum(s, (k - 1) as nat) + stride(48 * s + k - 1)
    }
}

/// Along the first `k` states of a spoke the cofactor moves from the first
/// representable residue to the `k`-th.
proof fn lemma_stride_sum(s: int, k: nat)
    requires
        0 <= s < 8,
        k <= 47,
    ensures
        stride_sum(s, k) == residue210(k as int) - residue210(0),
    decreases k,
{
    if k > 0 {
        lemma_stride_sum(s, (k - 1) as nat);
        vstd::arithmetic::div_mod::lemma_fundamental_div_mod_converse(
            48 * s + k - 1,
            48,
            s,
            k - 1,
        );
    }
}

/// One full cycle of a spoke moves the cofactor by 210, so the cursor by
/// `210 * p` integers, that is `7 * p` bytes.
pub proof fn lemma_cycle_span(s: int)
    requires
        0 <= s < 8,
    ensures
        stride_sum(s, 48) == 210,
{
    lemma_stride_sum(s, 47);
    vstd::arithmetic::div_mod::lemma_fundamental_div_mod_converse(48 * s + 47, 48, s, 47);
}

/// Cyclic closure: the transition table has 384 states, and from the first
/// state of any spoke the walk visits the 48 states of that spoke in order
/// and is back at the first after 48 steps.
pub proof fn lemma_spoke_cycle(t: &WheelTables, s: int)
    requires
        t.wf(),
        0 <= s < 8,
    ensures
        t.wheel@.len() == 384,
        forall|k: nat| k < 48 ==> #[trigger] walk(48 * s, k) == 48 * s + k,
        walk(48 * s, 48) == 48 * s,
{
    assert forall|k: nat| k < 48 implies #[trigger] walk(48 * s, k) == 48 * s + k by {
        lemma_walk_within_spoke(s, 0, k);
    }
    lemma_walk_within_spoke(s, 0, 48);
}

/// Walking `a` steps and then `b` steps is walking `a + b` steps.
proof fn lemma_walk_compose(i: int, a: nat, b: nat)
    ensures
        walk(walk(i, a), b) == walk(i, a + b),
    decreases a,
{
    if a > 0 {
        lemma_walk_compose((i + transition(i).next as int) % 384, (a - 1) as nat, b);
        assert((a + b - 1) as nat == (a - 1) as nat + b);
    }
}

/// From any state, the walk stays in that state's spoke, leaves the state
/// for the next 47 steps and is back after 48: each spoke is one cycle of
/// exactly 48 states.
pub proof fn lemma_state_cycle(i: int, k: nat)
    requires
        0 <= i < 384,
        0 < k < 48,
    ensures
        walk(i, k) / 48 == i / 48,
        0 <= walk(i, k) < 384,
        walk(i, k) != i,
        walk(i, 48) == i,
{
    let s = i / 48;
    let j = i % 48;
    vstd::arithmetic::div_mod::lemma_fundamental_div_mod(i, 48);
    if j + k <= 48 {
        lemma_walk_within_spoke(s, j, k);
    } else {
        lemma_walk_within_spoke(s, j, (48 - j) as nat);
        lemma_walk_within_spoke(s, 0, (j + k - 48) as nat);
        lemma_walk_compose(i, (48 - j) as nat, (j + k - 48) as nat);
    }
    lemma_walk_within_spoke(s, j, (48 - j) as nat);
    lemma_walk_within_spoke(s, 0, j as nat);
    lemma_walk_compose(i, (48 - j) as nat, j as nat);
    let w = walk(i, k);
    assert(w / 48 == s) by {
        vstd::arithmetic::div_mod::lemma_fundamental_div_mod_converse(w, 48, s, w - 48 * s);
    }
}

/// The tables of the wheel. Build them with `WheelTables::new` and share
/// them read-only.
pub struct WheelTables {
    /// Cursor initialisation entry of each residue modulo 210.
    pub init: Vec<WheelInit>,
    /// The representable residues modulo 210, ascending.
    pub true_at_bit: Vec<usize>,
    /// The transition states.
    pub wheel: Vec<WheelElem>,
}

impl WheelTables {
    /// Every entry is the one that its index calls for.
    pub open spec fn wf(&self) -> bool {
        &&& self.init@.len() == 210
        &&& forall|r: int| 0 <= r < 210 ==> #[trigger] self.init@[r] == init_entry(r)
        &&& self.true_at_bit@.len() == 48
        &&& forall|i: int|
            0 <= i < 48 ==> {
                &&& #[trigger] self.true_at_bit@[i] < 210
                &&& coprime210(self.true_at_bit@[i] as int)
                &&& rank(self.true_at_bit@[i] as nat) == i
            }
        &&& self.wheel@.len() == 384
        &&& forall|i: int| 0 <= i < 384 ==> #[trigger] self.wheel@[i] == transition(i)
    }

    /// Builds the tables.
    pub fn new() -> (t: WheelTables)
        ensures
            t.wf(),
    {
        let (init, true_at_bit) = build_init();
        let wheel = build_transitions(&true_at_bit);
        WheelTables { init, true_at_bit, wheel }
    }
}

/// Whether `n` is representable.
pub fn is_representable(n: usize) -> (b: bool)
    ensures
        b == coprime210(n as int),
{
    n % 2 != 0 && n % 3 != 0 && n % 5 != 0 && n % 7 != 0
}

/// The cursor initialisation table and the ascending representable residues.
#[verifier::spinoff_prover]
fn build_init() -> (res: (Vec<WheelInit>, Vec<usize>))
    ensures
        res.0@.len() == 210,
        forall|r: int| 0 <= r < 210 ==> #[trigger] res.0@[r] == init_entry(r),
        res.1@.len() == 48,
        forall|i: int|
            0 <= i < 48 ==> {
                &&& #[trigger] res.1@[i] < 210
                &&& coprime210(res.1@[i] as int)
                &&& rank(res.1@[i] as nat) == i
            },
{
    let mut init: Vec<WheelInit> = Vec::new();
    let mut at_bit: Vec<usize> = Vec::new();
    let mut r: usize = 0;
    proof {
        lemma_rank_period_base();
    }
    while r < MODULO
        invariant
            r <= 210,
            rank(210) == 48,
            init@.len() == r,
            forall|x: int| 0 <= x < r ==> #[trigger] init@[x] == init_entry(x),
            at_bit@.len() == rank(r as nat),
            forall|i: int|
                0 <= i < at_bit@.len() ==> {
                    &&& #[trigger] at_bit@[i] < r
                    &&& coprime210(at_bit@[i] as int)
                    &&& rank(at_bit@[i] as nat) == i
                },
        decreases 210 - r,
    {
        let mut k: usize = 0;
        while !is_representable(r + k)
            invariant
                r < 210,
                r + k < 210,
                steps_to_coprime(r as int) == k + steps_to_coprime((r + k) as int),
            decreases 210 - (r + k),
        {
            k = k + 1;
        }
        proof {
            lemma_rank_monotone(r as nat, 210);
        }
        let count = at_bit.len();
        init.push(WheelInit { next_mult_factor: k as u8, wheel_index: count as u8 });
        if is_representable(r) {
            at_bit.push(r);
        }
        r = r + 1;
    }
    (init, at_bit)
}

/// The residue modulo 30 that bit `k` of a sieve byte stands for.
fn byte_residue_of(k: usize) -> (r: usize)
    requires
        k < 8,
    ensures
        r == byte_residue(k as int),
{
    if k == 0 {
        1
    } else if k == 1 {
        7
    } else if k == 2 {
        11
    } else if k == 3 {
        13
    } else if k == 4 {
        17
    } else if k == 5 {
        19
    } else if k == 6 {
        23
    } else {
        29
    }
}

/// The bit of a sieve byte that stands for residue `x` modulo 30.
pub fn bit_of_residue(x: usize) -> (b: usize)
    ensures
        b == residue_bit(x as int),
        b < 8,
{
    if x == 1 {
        0
    } else if x == 7 {
        1
    } else if x == 11 {
        2
    } else if x == 13 {
        3
    } else if x == 17 {
        4
    } else if x == 19 {
        5
    } else if x == 23 {
        6
    } else {
        7
    }
}

/// The transition table, spoke after spoke, from the ascending
/// representable residues.
#[verifier::spinoff_prover]
fn build_transitions(at_bit: &Vec<usize>) -> (w: Vec<WheelElem>)
    requires
        at_bit@.len() == 48,
        forall|i: int|
            0 <= i < 48 ==> {
                &&& #[trigger] at_bit@[i] < 210
                &&& coprime210(at_bit@[i] as int)
                &&& rank(at_bit@[i] as nat) == i
            },
    ensures
        w@.len() == 384,
        forall|i: int| 0 <= i < 384 ==> #[trigger] w@[i] == transition(i),
{
    assert forall|i: int| 0 <= i < 48 implies #[trigger] at_bit@[i] == residue210(i) by {
        lemma_residue210_unique(at_bit@[i] as int, i);
    }
    let mut w: Vec<WheelElem> = Vec::new();
    let mut s: usize = 0;
    while s < BYTE_SIZE
        invariant
            s <= 8,
            at_bit@.len() == 48,
            forall|i: int| 0 <= i < 48 ==> #[trigger] at_bit@[i] == residue210(i),
            w@.len() == 48 * s,
            forall|i: int| 0 <= i < w@.len() ==> #[trigger] w@[i] == transition(i),
        decreases 8 - s,
    {
        let r = byte_residue_of(s);
        let mut j: usize = 0;
        while j < SIZE
            invariant
                s < 8,
                j <= 48,
                r == byte_residue(s as int),
                at_bit@.len() == 48,
                forall|i: int| 0 <= i < 48 ==> #[trigger] at_bit@[i] == residue210(i),
                w@.len() == 48 * s + j,
                forall|i: int| 0 <= i < w@.len() ==> #[trigger] w@[i] == transition(i),
            decreases 48 - j,
        {
            let c = at_bit[j];
            proof {
                lemma_residue210(j as int);
                lemma_next_coprime210(c as int, j as int);
                lemma_residue210(0);
                lemma_residue210(47);
                if j < 47 {
                    lemma_residue210(j as int + 1);
                }
            }
            let next_c = if j == 47 {
                MODULO + at_bit[0]
            } else {
                at_bit[j + 1]
            };
            let d = next_c - c;
            assert(r * next_c <= 29 * 211 && r * c <= r * next_c) by (nonlinear_arith)
                requires
                    r <= 29,
                    next_c <= 211,
                    c < next_c,
            ;
            let bit = bit_of_residue((r * c) % BYTE_MODULO);
            let lo = (r * c) / BYTE_MODULO;
            let hi = (r * next_c) / BYTE_MODULO;
            assert(lo <= hi && hi <= 203) by {
                vstd::arithmetic::div_mod::lemma_div_is_ordered(
                    (r * c) as int,
                    (r * next_c) as int,
                    30,
                );
                vstd::arithmetic::div_mod::lemma_div_is_ordered((r * next_c) as int, 6119, 30);
            }
            let next: i8 = if j == 47 {
                -47
            } else {
                1
            };
            let e = WheelElem {
                unset_bit: 1u8 << (bit as u8),
                next_mult_factor: d as u8,
                correction: (hi - lo) as u8,
                next,
            };
            proof {
                let i = 48 * s + j;
                vstd::arithmetic::div_mod::lemma_fundamental_div_mod_converse(
                    i as int,
                    48,
                    s as int,
                    j as int,
                );
                assert(e == transition(i as int));
            }
            w.push(e);
            j = j + 1;
        }
        s = s + 1;
    }
    w
}

} // verus!
