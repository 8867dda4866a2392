//! The wheel of modulus 210: bit positions of the representable integers,
//! and the sieving cursors that walk the multiples of a prime.
use vstd::prelude::*;

use crate::residues::{
    byte_residue, coprime210, coprime30, lemma_coprime_periodic,
    lemma_nth_representable, lemma_rank_monotone, lemma_rank_periods, lemma_residue_bit,
    lemma_next_coprime210, lemma_residue210, lemma_residue210_unique, lemma_steps_keep_rank,
    nth_representable, rank, residue210, residue_bit, steps_to_coprime,
};
use crate::tables::{
    bit_of_residue, cofactor_residue, correction, mark_residue, next_delta,
    spoke_residue, stride, transition, walk, WheelTables, MODULO, SIZE, WHEEL_LEN,
};
use crate::wheel::{WheelInfo, BYTE_MODULO, BYTE_SIZE};

verus! {

/// Bit position of `n` among the representable integers, with whether `n`
/// is representable itself. A representable `n` has the bit position that
/// `from_bit_index` maps back to `n`; any other `n` shares the position of
/// the next representable integer above it.
#[verifier::spinoff_prover]
pub fn bit_index(t: &WheelTables, n: usize) -> (r: (bool, usize))
    requires
        t.wf(),
    ensures
        r.0 == coprime210(n as int),
        r.1 == rank(n as nat),
{
    let q = n / MODULO;
    let x = n % MODULO;
    let init = t.init[x];
    proof {
        lemma_steps_keep_rank(x as int);
        lemma_coprime_periodic(q as int, x as int);
        lemma_rank_periods(q as nat, x as nat);
        lemma_rank_monotone(x as nat, 210);
        crate::residues::lemma_rank_period_base();
        assert(q * 48 + 48 <= usize::MAX) by (nonlinear_arith)
            requires
                q == n / 210,
                n <= usize::MAX,
        ;
    }
    (init.next_mult_factor == 0, q * SIZE + init.wheel_index as usize)
}

/// The representable integer at bit position `bit`: the inverse of
/// `bit_index`. The integer must fit in `usize`, that is `bit` must be below
/// the number of representable integers up to `usize::MAX`.
#[verifier::spinoff_prover]
pub fn from_bit_index(t: &WheelTables, bit: usize) -> (r: usize)
    requires
        t.wf(),
        bit < rank(usize::MAX as nat + 1),
    ensures
        r == nth_representable(bit as nat),
        coprime210(r as int),
        rank(r as nat) == bit,
{
    let q = bit / SIZE;
    let i = bit % SIZE;
    let x = t.true_at_bit[i];
    proof {
        let v: nat = (q * 210 + x) as nat;
        lemma_rank_periods(q as nat, x as nat);
        lemma_coprime_periodic(q as int, x as int);
        if v > usize::MAX {
            lemma_rank_monotone(usize::MAX as nat + 1, v);
        }
        lemma_nth_representable(bit as nat);
    }
    q * MODULO + x
}

/// The cursor `(si, wi)` of prime `p`, in a segment that starts at `low`,
/// stands for the multiple `p * c`: that multiple lies in byte `si` of the
/// segment, and state `wi` belongs to the spoke of `p` and to the class of
/// `c` modulo 210.
pub open spec fn cursor_at(p: int, low: int, si: int, wi: int, c: int) -> bool {
    &&& 0 <= wi < 384
    &&& p > 0
    &&& c > 0
    &&& p % 30 == spoke_residue(wi)
    &&& c % 210 == cofactor_residue(wi)
    &&& low % 30 == 0
    &&& low <= p * c
    &&& si == (p * c - low) / 30
}

/// One step of a cursor whose prime spans `prime` whole bytes: the state
/// moves on within its spoke, and the position it stands for,
/// `30 * si + mark_residue(wi)`, moves on by the prime times the stride.
pub open spec fn advances(si: int, wi: int, prime: int, si2: int, wi2: int) -> bool {
    &&& wi2 / 48 == wi / 48
    &&& wi2 % 48 == (wi % 48 + 1) % 48
    &&& 0 <= wi2 < 384
    &&& 30 * si2 + mark_residue(wi2) == 30 * si + mark_residue(wi) + (30 * prime + spoke_residue(
        wi,
    )) * stride(wi)
}

/// The bit of its byte that state `wi` clears.
pub open spec fn mark_bit(wi: int) -> int {
    residue_bit(mark_residue(wi))
}

/// Clears the bit of the cursor's multiple in `x` and moves the cursor
/// `(si, wi)` on to the next multiple of the prime. `prime` is the prime
/// divided by 30, as in `WheelInfo::prime`.
#[verifier::spinoff_prover]
pub fn set_bit(t: &WheelTables, x: &mut [u8], si: &mut usize, wi: &mut usize, prime: usize)
    requires
        t.wf(),
        *old(wi) < 384,
        *old(si) < old(x)@.len(),
        *old(si) + prime * stride(*old(wi) as int) + correction(*old(wi) as int) <= usize::MAX,
    ensures
        final(x)@ == old(x)@.update(
            *old(si) as int,
            old(x)@[*old(si) as int] & !(1u8 << (mark_bit(*old(wi) as int) as u8)),
        ),
        advances(*old(si) as int, *old(wi) as int, prime as int, *final(si) as int, *final(wi) as int),
        *final(wi) as int == walk(*old(wi) as int, 1),
{
    let e = t.wheel[*wi];
    let ghost w0 = *wi as int;
    let ghost s0 = *si as int;
    assert(e == transition(w0));
    proof {
        crate::tables::lemma_transition_fields(w0);
    }
    x[*si] = x[*si] & !e.unset_bit;
    *si = *si + prime * e.next_mult_factor as usize + e.correction as usize;
    if e.next >= 0 {
        *wi = (*wi + e.next as usize) % WHEEL_LEN;
    } else {
        *wi = (*wi + WHEEL_LEN - (-e.next) as usize) % WHEEL_LEN;
    }
    proof {
        lemma_step_position(w0, *wi as int, s0, *si as int, prime as int);
        assert(walk(w0, 1) == walk((w0 + transition(w0).next as int) % 384, 0));
    }
}

/// The arithmetic of one step of a cursor.
#[verifier::spinoff_prover]
proof fn lemma_step_position(w0: int, w1: int, s0: int, s1: int, prime: int)
    requires
        0 <= w0 < 384,
        w1 == (w0 + next_delta(w0)) % 384,
        s1 == s0 + prime * stride(w0) + correction(w0),
    ensures
        advances(s0, w0, prime, s1, w1),
{
    lemma_step_state(w0, w1);
    lemma_residue210(w0 % 48);
    lemma_next_coprime210(cofactor_residue(w0), w0 % 48);
    assert(cofactor_residue(w1) == (cofactor_residue(w0) + stride(w0)) % 210);
    lemma_step_bytes(
        spoke_residue(w0),
        cofactor_residue(w0),
        stride(w0),
        cofactor_residue(w1),
        s0,
        s1,
        prime,
    );
}

/// One step keeps the spoke and moves on to the next cofactor class.
#[verifier::spinoff_prover]
proof fn lemma_step_state(w0: int, w1: int)
    requires
        0 <= w0 < 384,
        w1 == (w0 + next_delta(w0)) % 384,
    ensures
        w1 / 48 == w0 / 48,
        w1 % 48 == (w0 % 48 + 1) % 48,
        0 <= w1 < 384,
        spoke_residue(w1) == spoke_residue(w0),
{
    let s = w0 / 48;
    let j = w0 % 48;
    let j1 = (j + 1) % 48;
    vstd::arithmetic::div_mod::lemma_fundamental_div_mod(w0, 48);
    vstd::arithmetic::div_mod::lemma_fundamental_div_mod_converse(w1, 48, s, j1);
}

/// Moving the cofactor of a multiple of `30 * prime + r` by `d` moves its
/// byte by `prime * d` plus the carry of the residue part.
#[verifier::spinoff_prover]
proof fn lemma_step_bytes(r: int, cr: int, d: int, cr1: int, s0: int, s1: int, prime: int)
    requires
        cr + d >= 0,
        cr1 == (cr + d) % 210,
        s1 == s0 + prime * d + ((r * (cr + d)) / 30 - (r * cr) / 30),
    ensures
        30 * s1 + (r * cr1) % 30 == 30 * s0 + (r * cr) % 30 + (30 * prime + r) * d,
{
    vstd::arithmetic::div_mod::lemma_mul_mod_noop_right(r, cr + d, 30);
    vstd::arithmetic::div_mod::lemma_mul_mod_noop_right(r, cr1, 30);
    vstd::arithmetic::div_mod::lemma_mod_mod(cr + d, 30, 7);
    let a = r * cr;
    let b = r * (cr + d);
    assert(b == a + r * d) by (nonlinear_arith)
        requires
            a == r * cr,
            b == r * (cr + d),
    ;
    vstd::arithmetic::div_mod::lemma_fundamental_div_mod(a, 30);
    vstd::arithmetic::div_mod::lemma_fundamental_div_mod(b, 30);
    assert(30 * (prime * d) + r * d == (30 * prime + r) * d) by (nonlinear_arith);
}

/// The cursor of prime `p` for the segment that starts at `low`: it stands
/// for `p * c`, where `c` is the least representable integer at or above
/// `p`. `p` is a prime of at least 7 (or any integer of at least 7 coprime to
/// 30), `low` a multiple of 30 no larger than `p * p`.
#[verifier::spinoff_prover]
pub fn compute_wheel_elem(t: &WheelTables, p: usize, low: usize) -> (r: WheelInfo)
    requires
        t.wf(),
        p >= 7,
        coprime30(p as int),
        low % 30 == 0,
        low <= p * p,
        p * first_cofactor(p as int) <= usize::MAX,
    ensures
        r.true_prime == p,
        r.prime == p / 30,
        cursor_at(p as int, low as int, r.sieve_index as int, r.wheel_index as int, first_cofactor(p as int)),
{
    let init = t.init[p % MODULO];
    proof {
        lemma_steps_keep_rank((p % 210) as int);
        lemma_rank_monotone((p % 210) as nat, 210);
        crate::residues::lemma_rank_period_base();
        assert(init.wheel_index as int == rank((p % 210) as nat));
        lemma_first_cofactor(p as int);
        let c = first_cofactor(p as int);
        assert(c <= p * c && p * p <= p * c) by (nonlinear_arith)
            requires
                7 <= p <= c,
        ;
    }
    let c = p + init.next_mult_factor as usize;
    let mult = p * c;
    let spoke = bit_of_residue(p % BYTE_MODULO);
    let wheel_index = spoke * SIZE + init.wheel_index as usize;
    let sieve_index = (mult - low) / BYTE_MODULO;
    proof {
        lemma_start_cursor(p as int, low as int, c as int, wheel_index as int, sieve_index as int);
    }
    WheelInfo { true_prime: p, prime: p / BYTE_MODULO, sieve_index, wheel_index }
}

/// The state that a cursor of `p` starts in, at the multiple `p * c`, is the
/// one of the spoke of `p` and of the class of `c`.
#[verifier::spinoff_prover]
proof fn lemma_start_cursor(p: int, low: int, c: int, wi: int, si: int)
    requires
        p >= 7,
        coprime30(p),
        c == first_cofactor(p),
        low % 30 == 0,
        low <= p * c,
        wi == residue_bit(p % 30) * 48 + rank((p % 210) as nat),
        si == (p * c - low) / 30,
    ensures
        cursor_at(p, low, si, wi, c),
{
    lemma_residue_bit(p);
    let x = p % 210;
    let x1 = x + steps_to_coprime(x);
    lemma_steps_keep_rank(x);
    lemma_rank_monotone(x1 as nat, 210);
    crate::residues::lemma_rank_period_base();
    let j = rank(x as nat) as int;
    lemma_residue210_unique(x1, j);
    vstd::arithmetic::div_mod::lemma_fundamental_div_mod(p, 210);
    vstd::arithmetic::div_mod::lemma_fundamental_div_mod_converse(c, 210, p / 210, x1);
    vstd::arithmetic::div_mod::lemma_fundamental_div_mod_converse(
        wi,
        48,
        residue_bit(p % 30),
        j,
    );
}

/// The least representable integer at or above `p`: the cofactor of the
/// first multiple of `p` that a cursor stands for.
pub open spec fn first_cofactor(p: int) -> int {
    p + steps_to_coprime(p % 210)
}

/// `first_cofactor(p)` is representable, and no integer from `p` up to it
/// is.
#[verifier::spinoff_prover]
pub proof fn lemma_first_cofactor(p: int)
    requires
        p >= 0,
    ensures
        p <= first_cofactor(p),
        coprime210(first_cofactor(p)),
        forall|y: int| p <= y < first_cofactor(p) ==> !coprime210(y),
{
    let q = p / 210;
    let x = p % 210;
    lemma_steps_keep_rank(x);
    lemma_coprime_periodic(q, x + steps_to_coprime(x) as int);
    assert forall|y: int| p <= y < first_cofactor(p) implies !coprime210(y) by {
        lemma_coprime_periodic(q, y - q * 210);
    }
}

/// Round trip: the bit position of a representable integer leads back to
/// that integer.
pub proof fn lemma_round_trip(n: nat)
    requires
        coprime210(n as int),
    ensures
        nth_representable(rank(n)) == n,
{
    lemma_nth_representable(rank(n));
}

/// Bit positions map to strictly increasing integers.
pub proof fn lemma_from_bit_index_increasing(a: nat, b: nat)
    requires
        a < b,
    ensures
        nth_representable(a) < nth_representable(b),
{
    lemma_nth_representable(a);
    lemma_nth_representable(b);
    let x = nth_representable(a);
    let y = nth_representable(b);
    if y <= x {
        lemma_rank_monotone(y, x);
    }
}

/// A cursor clears the bit of the multiple it stands for.
pub proof fn lemma_cursor_mark(p: int, low: int, si: int, wi: int, c: int)
    requires
        cursor_at(p, low, si, wi, c),
    ensures
        0 <= mark_bit(wi) < 8,
        low + 30 * si + byte_residue(mark_bit(wi)) == p * c,
{
    lemma_cursor_position(p, low, si, wi, c);
    lemma_residue_bit(p * c);
}

/// Where a cursor stands, in bytes and residue.
#[verifier::spinoff_prover]
proof fn lemma_cursor_position(p: int, low: int, si: int, wi: int, c: int)
    requires
        cursor_at(p, low, si, wi, c),
    ensures
        low + 30 * si + mark_residue(wi) == p * c,
        mark_residue(wi) == (p * c) % 30,
        coprime30(p * c),
{
    lemma_residue210(wi % 48);
    vstd::arithmetic::div_mod::lemma_mul_mod_noop_general(p, c, 30);
    vstd::arithmetic::div_mod::lemma_mul_mod_noop_right(p % 30, c % 210, 30);
    vstd::arithmetic::div_mod::lemma_mod_mod(c, 30, 7);
    vstd::arithmetic::div_mod::lemma_fundamental_div_mod(c, 210);
    lemma_coprime_periodic(c / 210, c % 210);
    vstd::arithmetic::div_mod::lemma_fundamental_div_mod(p * c - low, 30);
    vstd::arithmetic::div_mod::lemma_fundamental_div_mod(p * c, 30);
    vstd::arithmetic::div_mod::lemma_fundamental_div_mod(low, 30);
    lemma_coprime_periodic(p / 30, p % 30);
    lemma_coprime_periodic(c / 30, c % 30);
    crate::residues::lemma_coprime30_mul(p, c);
    let m = p * c;
    assert((m - low) % 30 == m % 30) by {
        vstd::arithmetic::div_mod::lemma_mod_sub_multiples_vanish(m, 30);
        assert(low == (low / 30) * 30);
        vstd::arithmetic::div_mod::lemma_mod_multiples_vanish(-(low / 30), m, 30);
    }
}

/// Advancing a cursor moves it from `p * c` to `p * c'`, where `c'` is the
/// next representable integer above `c`: the multiples of `p` with a
/// representable cofactor are visited in ascending order, none skipped and
/// none twice.
#[verifier::spinoff_prover]
pub proof fn lemma_advance_cursor(p: int, low: int, si: int, wi: int, c: int, si2: int, wi2: int)
    requires
        cursor_at(p, low, si, wi, c),
        advances(si, wi, p / 30, si2, wi2),
    ensures
        c < c + stride(wi),
        coprime210(c + stride(wi)),
        forall|y: int| c < y < c + stride(wi) ==> !coprime210(y),
        cursor_at(p, low, si2, wi2, c + stride(wi)),
{
    lemma_cursor_position(p, low, si, wi, c);
    lemma_next_coprime210(c, wi % 48);
    lemma_successor_state(wi, wi2);
    lemma_next_byte(p, c, stride(wi), low, si, si2, mark_residue(wi), mark_residue(wi2), spoke_residue(wi));
}

/// The state after `wi` in its spoke keeps the spoke and takes the next
/// cofactor class.
#[verifier::spinoff_prover]
proof fn lemma_successor_state(wi: int, wi2: int)
    requires
        0 <= wi < 384,
        wi2 / 48 == wi / 48,
        wi2 % 48 == (wi % 48 + 1) % 48,
    ensures
        spoke_residue(wi2) == spoke_residue(wi),
        0 <= mark_residue(wi2) < 30,
{
    vstd::arithmetic::div_mod::lemma_fundamental_div_mod(wi, 48);
    vstd::arithmetic::div_mod::lemma_fundamental_div_mod(wi2, 48);
}

/// The byte of the next multiple, from the step of the position.
#[verifier::spinoff_prover]
proof fn lemma_next_byte(
    p: int,
    c: int,
    d: int,
    low: int,
    si: int,
    si2: int,
    mm: int,
    mm2: int,
    r: int,
)
    requires
        p > 0,
        d > 0,
        p % 30 == r,
        0 <= mm2 < 30,
        low + 30 * si + mm == p * c,
        30 * si2 + mm2 == 30 * si + mm + (30 * (p / 30) + r) * d,
    ensures
        p * c < p * (c + d),
        si2 == (p * (c + d) - low) / 30,
{
    vstd::arithmetic::div_mod::lemma_fundamental_div_mod(p, 30);
    assert(p * (c + d) == p * c + p * d) by (nonlinear_arith);
    assert((30 * (p / 30) + r) * d == p * d) by (nonlinear_arith)
        requires
            p == 30 * (p / 30) + r,
    ;
    assert(p * d > 0) by (nonlinear_arith)
        requires
            p > 0,
            d > 0,
    ;
    vstd::arithmetic::div_mod::lemma_fundamental_div_mod_converse(p * (c + d) - low, 30, si2, mm2);
}

} // verus!
