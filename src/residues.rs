//! Arithmetic on residues: which integers the wheels keep, and how they are
//! counted.
use vstd::prelude::*;

verus! {

/// `n` has no factor 2, 3 or 5: it has a bit in the byte-packed sieve.
pub open spec fn coprime30(n: int) -> bool {
    n % 2 != 0 && n % 3 != 0 && n % 5 != 0
}

/// `n` has no factor 2, 3, 5 or 7: it is a representable integer.
pub open spec fn coprime210(n: int) -> bool {
    coprime30(n) && n % 7 != 0
}

/// The number of representable integers in `[0, n)`.
pub open spec fn rank(n: nat) -> nat
    decreases n,
{
    if n == 0 {
        0
    } else {
        rank((n - 1) as nat) + if coprime210(n - 1) {
            1nat
        } else {
            0nat
        }
    }
}

/// How far `r` (a residue below 210) is from the nearest representable
/// integer at or above it.
pub open spec fn steps_to_coprime(r: int) -> nat
    decreases 210 - r,
{
    if 0 <= r < 209 && !coprime210(r) {
        1 + steps_to_coprime(r + 1)
    } else {
        0
    }
}

/// There are 48 representable integers in one period.
#[verifier::rlimit(40)]
pub proof fn lemma_rank_period_base()
    ensures
        rank(210) == 48,
{
    assert(rank(10) == 1) by {
        reveal_with_fuel(rank, 11);
    }
    assert(rank(20) == 5) by {
        reveal_with_fuel(rank, 11);
    }
    assert(rank(30) == 7) by {
        reveal_with_fuel(rank, 11);
    }
    assert(rank(40) == 9) by {
        reveal_with_fuel(rank, 11);
    }
    assert(rank(50) == 12) by {
        reveal_with_fuel(rank, 11);
    }
    assert(rank(60) == 14) by {
        reveal_with_fuel(rank, 11);
    }
    assert(rank(70) == 16) by {
        reveal_with_fuel(rank, 11);
    }
    assert(rank(80) == 19) by {
        reveal_with_fuel(rank, 11);
    }
    assert(rank(90) == 21) by {
        reveal_with_fuel(rank, 11);
    }
    assert(rank(100) == 22) by {
        reveal_with_fuel(rank, 11);
    }
    assert(rank(110) == 26) by {
        reveal_with_fuel(rank, 11);
    }
    assert(rank(120) == 27) by {
        reveal_with_fuel(rank, 11);
    }
    assert(rank(130) == 29) by {
        reveal_with_fuel(rank, 11);
    }
    assert(rank(140) == 32) by {
        reveal_with_fuel(rank, 11);
    }
    assert(rank(150) == 34) by {
        reveal_with_fuel(rank, 11);
    }
    assert(rank(160) == 36) by {
        reveal_with_fuel(rank, 11);
    }
    assert(rank(170) == 39) by {
        reveal_with_fuel(rank, 11);
    }
    assert(rank(180) == 41) by {
        reveal_with_fuel(rank, 11);
    }
    assert(rank(190) == 43) by {
        reveal_with_fuel(rank, 11);
    }
    assert(rank(200) == 47) by {
        reveal_with_fuel(rank, 11);
    }
    assert(rank(210) == 48) by {
        reveal_with_fuel(rank, 11);
    }
}

/// Representability repeats with period 210.
pub proof fn lemma_coprime_periodic(q: int, x: int)
    ensures
        coprime210(q * 210 + x) == coprime210(x),
        coprime30(q * 30 + x) == coprime30(x),
{
    assert((q * 210 + x) % 2 == x % 2 && (q * 210 + x) % 3 == x % 3 && (q * 210 + x) % 5 == x % 5
        && (q * 210 + x) % 7 == x % 7) by (nonlinear_arith);
    assert((q * 30 + x) % 2 == x % 2 && (q * 30 + x) % 3 == x % 3 && (q * 30 + x) % 5 == x % 5)
        by (nonlinear_arith);
}

/// Any 210 consecutive integers hold exactly 48 representable ones.
pub proof fn lemma_rank_period(n: nat)
    ensures
        rank(n + 210) == rank(n) + 48,
    decreases n,
{
    if n == 0 {
        lemma_rank_period_base();
    } else {
        let m = (n - 1) as nat;
        lemma_rank_period(m);
        lemma_coprime_periodic(1, m as int);
        assert(rank(m + 211) == rank(m + 210) + if coprime210(m + 210int) { 1nat } else { 0nat });
    }
}

/// The rank of `q * 210 + x` counts 48 for each whole period.
pub proof fn lemma_rank_periods(q: nat, x: nat)
    ensures
        rank(q * 210 + x) == q * 48 + rank(x),
    decreases q,
{
    if q > 0 {
        let q1 = (q - 1) as nat;
        lemma_rank_periods(q1, x);
        lemma_rank_period(q1 * 210 + x);
        assert(q * 210 + x == q1 * 210 + x + 210) by (nonlinear_arith)
            requires q1 == q - 1;
        assert(q * 48 == q1 * 48 + 48) by (nonlinear_arith)
            requires q1 == q - 1;
    }
}

/// Rank never decreases, and it grows past every representable integer.
pub proof fn lemma_rank_monotone(a: nat, b: nat)
    requires
        a <= b,
    ensures
        rank(a) <= rank(b),
        a < b && coprime210(a as int) ==> rank(a) + 1 <= rank(b),
    decreases b - a,
{
    if a < b {
        lemma_rank_monotone(a, (b - 1) as nat);
    }
}

/// Two representable integers of equal rank are equal.
pub proof fn lemma_rank_injective(a: nat, b: nat)
    requires
        coprime210(a as int),
        coprime210(b as int),
        rank(a) == rank(b),
    ensures
        a == b,
{
    if a < b {
        lemma_rank_monotone(a, b);
    } else if b < a {
        lemma_rank_monotone(b, a);
    }
}

/// Skipping to the nearest representable integer does not change the rank.
pub proof fn lemma_steps_keep_rank(r: int)
    requires
        0 <= r < 210,
    ensures
        r + steps_to_coprime(r) < 210,
        coprime210(r + steps_to_coprime(r)),
        rank((r + steps_to_coprime(r)) as nat) == rank(r as nat),
        steps_to_coprime(r) == 0 <==> coprime210(r),
        forall|y: int| r <= y < r + steps_to_coprime(r) ==> !coprime210(y),
    decreases 210 - r,
{
    if r < 209 && !coprime210(r) {
        lemma_steps_keep_rank(r + 1);
    }
}

/// The residue modulo 30 that bit `k` of a sieve byte stands for.
pub open spec fn byte_residue(k: int) -> int {
    if k == 0 {
        1
    } else if k == 1 {
        7
    } else if k == 2 {
        11
    } else if k == 3 {
        13
    } else if k == 4 {
        17
    } else if k == 5 {
        19
    } else if k == 6 {
        23
    } else {
        29
    }
}

/// The bit of a sieve byte that stands for residue `x` modulo 30.
pub open spec fn residue_bit(x: int) -> int {
    if x == 1 {
        0
    } else if x == 7 {
        1
    } else if x == 11 {
        2
    } else if x == 13 {
        3
    } else if x == 17 {
        4
    } else if x == 19 {
        5
    } else if x == 23 {
        6
    } else {
        7
    }
}

/// Every integer coprime to 30 has a bit in its byte.
#[verifier::spinoff_prover]
pub proof fn lemma_residue_bit(x: int)
    requires
        coprime30(x),
    ensures
        0 <= residue_bit(x % 30) < 8,
        byte_residue(residue_bit(x % 30)) == x % 30,
{
    lemma_coprime_periodic(x / 30, x % 30);
    let y = x % 30;
    assert(0 <= y < 30 && coprime30(y));
    assert(0 <= residue_bit(y) < 8 && byte_residue(residue_bit(y)) == y);
}

/// Multiplying integers coprime to 30 keeps them coprime to 30.
pub proof fn lemma_coprime30_mul(a: int, b: int)
    requires
        coprime30(a),
        coprime30(b),
    ensures
        coprime30(a * b),
{
    lemma_residue_product(a, b, 2);
    lemma_residue_product(a, b, 3);
    lemma_residue_product(a, b, 5);
}

/// A product of two integers that are not multiples of a prime `d` below 7
/// is not one either.
proof fn lemma_residue_product(a: int, b: int, d: int)
    requires
        d == 2 || d == 3 || d == 5,
        a % d != 0,
        b % d != 0,
    ensures
        (a * b) % d != 0,
{
    vstd::arithmetic::div_mod::lemma_mul_mod_noop_general(a, b, d);
    lemma_small_product(a % d, b % d, d);
}

/// The same for the residues themselves.
proof fn lemma_small_product(x: int, y: int, d: int)
    requires
        d == 2 || d == 3 || d == 5,
        0 < x < d,
        0 < y < d,
    ensures
        (x * y) % d != 0,
{
    if x == 1 {
        assert(x * y == y);
    } else if x == 2 {
        assert(x * y == 2 * y);
    } else if x == 3 {
        assert(x * y == 3 * y);
    } else {
        assert(x * y == 4 * y);
    }
}

/// Every bit position belongs to some representable integer below `n` once
/// `n` has more representable integers below it.
proof fn lemma_rank_reached(b: nat, n: nat)
    requires
        b < rank(n),
    ensures
        exists|m: nat| m < n && coprime210(m as int) && rank(m) == b,
    decreases n,
{
    let n1 = (n - 1) as nat;
    if b < rank(n1) {
        lemma_rank_reached(b, n1);
        let m = choose|m: nat| m < n1 && coprime210(m as int) && rank(m) == b;
        assert(m < n && coprime210(m as int) && rank(m) == b);
    } else {
        assert(n1 < n && coprime210(n1 as int) && rank(n1) == b);
    }
}

/// The representable integer at bit position `b`.
pub open spec fn nth_representable(b: nat) -> nat {
    choose|m: nat| coprime210(m as int) && rank(m) == b
}

/// Every bit position has its integer, and no other integer has that
/// position.
#[verifier::spinoff_prover]
pub proof fn lemma_nth_representable(b: nat)
    ensures
        coprime210(nth_representable(b) as int),
        rank(nth_representable(b)) == b,
        forall|m: nat| coprime210(m as int) && rank(m) == b ==> m == nth_representable(b),
{
    lemma_rank_periods(b + 1, 0);
    assert(rank(0) == 0);
    assert(b < (b + 1) * 48) by (nonlinear_arith);
    lemma_rank_reached(b, (b + 1) * 210);
    assert forall|m: nat| coprime210(m as int) && rank(m) == b implies m == nth_representable(b) by {
        lemma_rank_injective(m, nth_representable(b));
    }
}

/// The `j`-th representable residue modulo 210, counting from zero.
pub open spec fn residue210(j: int) -> int {
    nth_representable(j as nat) as int
}

/// Distance from `residue210(j)` to the next representable integer.
pub open spec fn gap210(j: int) -> int {
    if j == 47 {
        210 + residue210(0) - residue210(47)
    } else {
        residue210(j + 1) - residue210(j)
    }
}

/// The representable residues lie in one period, in ascending order.
pub proof fn lemma_residue210(j: int)
    requires
        0 <= j < 48,
    ensures
        0 < residue210(j) < 210,
        coprime210(residue210(j)),
        coprime30(residue210(j)),
        rank(residue210(j) as nat) == j,
        residue210(0) == 1,
{
    assert(rank(1) == 0) by {
        reveal_with_fuel(rank, 2);
    }
    lemma_residue210_unique(1, 0);
    lemma_nth_representable(j as nat);
    lemma_rank_period_base();
    let x = residue210(j);
    if x >= 210 {
        lemma_rank_monotone(210, x as nat);
    }
    assert(x != 0);
}

/// A residue below 210 that is representable and has rank `j` is
/// `residue210(j)`.
pub proof fn lemma_residue210_unique(x: int, j: int)
    requires
        0 <= x,
        coprime210(x),
        rank(x as nat) == j,
        0 <= j,
    ensures
        residue210(j) == x,
{
    lemma_nth_representable(j as nat);
}

/// From a representable integer in the class of `residue210(j)`, the gap of
/// that class leads to the next representable integer, skipping none.
#[verifier::spinoff_prover]
pub proof fn lemma_next_coprime210(c: int, j: int)
    requires
        c > 0,
        0 <= j < 48,
        c % 210 == residue210(j),
    ensures
        gap210(j) > 0,
        coprime210(c + gap210(j)),
        (c + gap210(j)) % 210 == residue210((j + 1) % 48),
        forall|y: int| c < y < c + gap210(j) ==> !coprime210(y),
{
    lemma_residue210(j);
    lemma_residue210(0);
    lemma_residue210(47);
    lemma_rank_period_base();
    let q = c / 210;
    let a = residue210(j);
    let g = gap210(j);
    assert(c == q * 210 + a);
    if j < 47 {
        lemma_residue210(j + 1);
        let b = residue210(j + 1);
        if b <= a {
            lemma_rank_monotone(b as nat, a as nat);
        }
        lemma_coprime_periodic(q, b);
        assert((q * 210 + b) % 210 == b) by (nonlinear_arith)
            requires
                0 <= b < 210,
        ;
        assert forall|y: int| c < y < c + g implies !coprime210(y) by {
            lemma_coprime_periodic(q, y - q * 210);
            let z = y - q * 210;
            if coprime210(z) {
                lemma_rank_monotone(a as nat, z as nat);
                lemma_rank_monotone(z as nat, b as nat);
            }
        }
    } else {
        let b = residue210(0);
        lemma_coprime_periodic(q + 1, b);
        assert(c + g == (q + 1) * 210 + b) by (nonlinear_arith)
            requires
                c == q * 210 + a,
                g == 210 + b - a,
        ;
        assert(((q + 1) * 210 + b) % 210 == b) by (nonlinear_arith)
            requires
                0 <= b < 210,
        ;
        assert forall|y: int| c < y < c + g implies !coprime210(y) by {
            if y < (q + 1) * 210 {
                lemma_coprime_periodic(q, y - q * 210);
                let z = y - q * 210;
                if coprime210(z) {
                    lemma_rank_monotone(a as nat, z as nat);
                    lemma_rank_monotone(z as nat, 210);
                }
            } else {
                lemma_coprime_periodic(q + 1, y - (q + 1) * 210);
                let z = y - (q + 1) * 210;
                if coprime210(z) && z > 0 {
                    lemma_rank_monotone(z as nat, b as nat);
                }
            }
        }
    }
}

} // verus!
