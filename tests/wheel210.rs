use primal_sieve::tables::{is_representable, WheelTables, MODULO, SIZE, WHEEL_LEN};
use primal_sieve::wheel::{WheelElem, WheelInit, BYTE_MODULO, BYTE_SIZE};
use primal_sieve::wheel210::{bit_index, compute_wheel_elem, from_bit_index, set_bit};

const RESIDUES: [usize; 8] = [1, 7, 11, 13, 17, 19, 23, 29];

fn coprime(n: usize) -> bool {
    n % 2 != 0 && n % 3 != 0 && n % 5 != 0 && n % 7 != 0
}

fn bit_of(residue: usize) -> usize {
    RESIDUES.iter().position(|&r| r == residue).unwrap()
}

#[test]
fn constants() {
    assert_eq!(SIZE, 48);
    assert_eq!(MODULO, 210);
    assert_eq!(WHEEL_LEN, 384);
    assert_eq!(BYTE_SIZE, 8);
    assert_eq!(BYTE_MODULO, 30);
}

#[test]
fn bit_index_examples() {
    let t = WheelTables::new();
    assert_eq!(bit_index(&t, 0), (false, 0));
    assert_eq!(bit_index(&t, 1), (true, 0));
    assert_eq!(bit_index(&t, 2), (false, 1));
    assert_eq!(bit_index(&t, 11), (true, 1));
    assert_eq!(bit_index(&t, 12), (false, 2));
    assert_eq!(bit_index(&t, 209), (true, 47));
    assert_eq!(bit_index(&t, 210), (false, 48));
    assert_eq!(bit_index(&t, 211), (true, 48));
    assert_eq!(bit_index(&t, 420 + 121), (true, 96 + 27));
}

#[test]
fn bit_index_counts_representable_below() {
    let t = WheelTables::new();
    let mut below = 0usize;
    for n in 0..3000usize {
        assert_eq!(bit_index(&t, n), (coprime(n), below));
        if coprime(n) {
            below += 1;
        }
    }
}

#[test]
fn bit_index_largest_input() {
    let t = WheelTables::new();
    let n = usize::MAX;
    let (rep, bit) = bit_index(&t, n);
    assert_eq!(rep, coprime(n));
    assert_eq!(bit / 48, n / 210);
}

#[test]
fn from_bit_index_examples() {
    let t = WheelTables::new();
    assert_eq!(from_bit_index(&t, 0), 1);
    assert_eq!(from_bit_index(&t, 1), 11);
    assert_eq!(from_bit_index(&t, 2), 13);
    assert_eq!(from_bit_index(&t, 47), 209);
    assert_eq!(from_bit_index(&t, 48), 211);
    assert_eq!(from_bit_index(&t, 49), 221);
    assert_eq!(from_bit_index(&t, 96 + 27), 420 + 121);
}

#[test]
fn round_trip() {
    let t = WheelTables::new();
    for n in 1..20000usize {
        if coprime(n) {
            let (rep, bit) = bit_index(&t, n);
            assert!(rep);
            assert_eq!(from_bit_index(&t, bit), n);
        }
    }
}

#[test]
fn density_over_any_window() {
    let t = WheelTables::new();
    for start in 0..1000usize {
        let count = (start..start + 210).filter(|&n| coprime(n)).count();
        assert_eq!(count, 48);
        assert_eq!(bit_index(&t, start + 210).1 - bit_index(&t, start).1, 48);
    }
}

#[test]
fn from_bit_index_strictly_increasing() {
    let t = WheelTables::new();
    let mut last = from_bit_index(&t, 0);
    for b in 1..5000usize {
        let n = from_bit_index(&t, b);
        assert!(n > last);
        last = n;
    }
}

#[test]
fn init_table_matches_brute_force() {
    let t = WheelTables::new();
    assert_eq!(t.init.len(), 210);
    for r in 0..210usize {
        let mut k = 0usize;
        while !coprime(r + k) {
            k += 1;
        }
        let below = (0..r).filter(|&x| coprime(x)).count();
        assert_eq!(t.init[r], WheelInit { next_mult_factor: k as u8, wheel_index: below as u8 });
    }
    assert_eq!(t.init[0], WheelInit { next_mult_factor: 1, wheel_index: 0 });
    assert_eq!(t.init[2], WheelInit { next_mult_factor: 9, wheel_index: 1 });
    assert_eq!(t.init[200], WheelInit { next_mult_factor: 9, wheel_index: 47 });
    assert_eq!(t.init[209], WheelInit { next_mult_factor: 0, wheel_index: 47 });
}

#[test]
fn true_at_bit_lists_residues() {
    let t = WheelTables::new();
    let expected: Vec<usize> = (0..210usize).filter(|&x| coprime(x)).collect();
    assert_eq!(t.true_at_bit, expected);
    assert_eq!(t.true_at_bit.len(), 48);
    assert_eq!(t.true_at_bit[0], 1);
    assert_eq!(t.true_at_bit[47], 209);
}

#[test]
fn transition_table_entries() {
    let t = WheelTables::new();
    assert_eq!(t.wheel[0], WheelElem { unset_bit: 1, next_mult_factor: 10, correction: 0, next: 1 });
    assert_eq!(t.wheel[47], WheelElem { unset_bit: 1 << 7, next_mult_factor: 2, correction: 1, next: -47 });
    assert_eq!(t.wheel[96], WheelElem { unset_bit: 1 << 2, next_mult_factor: 10, correction: 4, next: 1 });
    assert_eq!(t.wheel[97], WheelElem { unset_bit: 1, next_mult_factor: 2, correction: 0, next: 1 });
    assert_eq!(t.wheel[98], WheelElem { unset_bit: 1 << 6, next_mult_factor: 4, correction: 2, next: 1 });
    assert_eq!(t.wheel[383], WheelElem { unset_bit: 1, next_mult_factor: 2, correction: 1, next: -47 });
}

#[test]
fn transition_table_matches_brute_force() {
    let t = WheelTables::new();
    let residues: Vec<usize> = (0..210usize).filter(|&x| coprime(x)).collect();
    assert_eq!(t.wheel.len(), 384);
    for i in 0..384usize {
        let (s, j) = (i / 48, i % 48);
        let r = RESIDUES[s];
        let c = residues[j];
        let next_c = (c + 1..).find(|&y| coprime(y)).unwrap();
        let expected = WheelElem {
            unset_bit: 1 << bit_of((r * c) % 30),
            next_mult_factor: (next_c - c) as u8,
            correction: ((r * next_c) / 30 - (r * c) / 30) as u8,
            next: if j == 47 { -47 } else { 1 },
        };
        assert_eq!(t.wheel[i], expected, "state {}", i);
    }
}

#[test]
fn spoke_cycle_spans_seven_prime_bytes() {
    let t = WheelTables::new();
    for s in 0..8usize {
        let total: usize = (0..48).map(|j| t.wheel[48 * s + j].next_mult_factor as usize).sum();
        assert_eq!(total, 210);
    }
    for &p in &[31usize, 37, 41, 59] {
        let info = compute_wheel_elem(&t, p, 0);
        let mut x = vec![0xffu8; 2000];
        let (mut si, mut wi) = (info.sieve_index, info.wheel_index);
        for _ in 0..48 {
            set_bit(&t, &mut x, &mut si, &mut wi, info.prime);
        }
        assert_eq!(wi, info.wheel_index);
        assert_eq!(si, info.sieve_index + 7 * p);
    }
}

#[test]
fn spoke_cycles_close() {
    let t = WheelTables::new();
    assert_eq!(t.wheel.len(), 8 * 48);
    for s in 0..8usize {
        let first = 48 * s;
        let mut i = first;
        let mut sum: i64 = 0;
        for step in 0..48usize {
            assert_eq!(i, first + step);
            sum += t.wheel[i].next as i64;
            i = ((i as i64 + t.wheel[i].next as i64).rem_euclid(384)) as usize;
        }
        assert_eq!(i, first);
        assert_eq!(sum, 0);
    }
}

/// Runs a cursor of `p` from segment start 0 for `steps` advances over a
/// fully set sieve, checking each position, and returns the sieve.
fn run_cursor(p: usize, steps: usize, bytes: usize) -> (Vec<u8>, Vec<usize>) {
    let t = WheelTables::new();
    let info = compute_wheel_elem(&t, p, 0);
    let mut x = vec![0xffu8; bytes];
    let mut si = info.sieve_index;
    let mut wi = info.wheel_index;
    let mut visited = Vec::new();
    for _ in 0..steps {
        let bit = t.wheel[wi].unset_bit.trailing_zeros() as usize;
        visited.push(30 * si + RESIDUES[bit]);
        set_bit(&t, &mut x, &mut si, &mut wi, info.prime);
    }
    (x, visited)
}

#[test]
fn advance_visits_multiples_of_eleven() {
    let steps = 3 * 48;
    let (x, visited) = run_cursor(11, steps, 400);
    let expected: Vec<usize> = (11..).filter(|&c| coprime(c)).take(steps).map(|c| 11 * c).collect();
    assert_eq!(visited, expected);
    assert_eq!(&visited[..12], &[121, 143, 187, 209, 253, 319, 341, 407, 451, 473, 517, 583]);
    assert!(!visited.contains(&539));
    for byte in 0..x.len() {
        for bit in 0..8 {
            let n = 30 * byte + RESIDUES[bit];
            let cleared = x[byte] & (1 << bit) == 0;
            assert_eq!(cleared, expected.contains(&n), "integer {}", n);
        }
    }
}

#[test]
fn advance_visits_multiples_of_larger_primes() {
    for &p in &[31usize, 37, 97, 211, 229] {
        let steps = 100;
        let (_, visited) = run_cursor(p, steps, 30000);
        let expected: Vec<usize> = (p..).filter(|&c| coprime(c)).take(steps).map(|c| p * c).collect();
        assert_eq!(visited, expected);
    }
}

#[test]
fn advance_moves_cursor() {
    let t = WheelTables::new();
    let mut x = vec![0xffu8; 10];
    let mut si = 4usize;
    let mut wi = 97usize;
    set_bit(&t, &mut x, &mut si, &mut wi, 0);
    assert_eq!(x[4], 0xfe);
    assert_eq!((si, wi), (4, 98));
    set_bit(&t, &mut x, &mut si, &mut wi, 0);
    assert_eq!(x[4], 0xfe & !(1 << 6));
    assert_eq!((si, wi), (6, 99));
    let mut si = 0usize;
    let mut wi = 143usize;
    set_bit(&t, &mut x, &mut si, &mut wi, 0);
    assert_eq!(wi, 96);
}

#[test]
fn advance_skips_multiples_of_seven() {
    let t = WheelTables::new();
    let mut x = vec![0xffu8; 64];
    // 517 = 11 * 47 lies in byte 17; the next multiple to clear is 583 = 11 * 53.
    let mut si = 17usize;
    let mut wi = 96 + 11;
    assert_eq!(t.wheel[wi].unset_bit, 1 << bit_of(517 % 30));
    set_bit(&t, &mut x, &mut si, &mut wi, 0);
    assert_eq!(x[17], !(1u8 << bit_of(517 % 30)));
    assert_eq!(si, 583 / 30);
    assert_eq!(t.wheel[wi].unset_bit, 1 << bit_of(583 % 30));
}

#[test]
fn initial_cursor_matches_brute_force() {
    let t = WheelTables::new();
    for &p in &[11usize, 13, 17, 19, 23, 29, 31, 37, 41, 101, 209, 211] {
        let info = compute_wheel_elem(&t, p, 0);
        let mut m = p * p;
        while !coprime(m) {
            m += 1;
        }
        assert_eq!(info.true_prime, p);
        assert_eq!(info.prime, p / 30);
        assert_eq!(info.sieve_index, m / 30);
        let within = (0..p % 210).filter(|&x| coprime(x)).count();
        assert_eq!(info.wheel_index, 48 * bit_of(p % 30) + within);
        assert_eq!(t.wheel[info.wheel_index].unset_bit, 1 << bit_of(m % 30));
    }
}

#[test]
fn initial_cursor_with_segment_start() {
    let t = WheelTables::new();
    let info = compute_wheel_elem(&t, 101, 210 * 40);
    assert_eq!(info.sieve_index, (101 * 101 - 210 * 40) / 30);
    assert_eq!(info.wheel_index, 48 * bit_of(101 % 30) + 22);
}

#[test]
fn initial_cursor_for_seven() {
    let t = WheelTables::new();
    let info = compute_wheel_elem(&t, 7, 0);
    assert_eq!(info.sieve_index, 77 / 30);
    assert_eq!(t.wheel[info.wheel_index].unset_bit, 1 << bit_of(77 % 30));
    let (_, visited) = run_cursor(7, 5, 100);
    assert_eq!(visited, vec![77, 91, 119, 133, 161]);
}

#[test]
fn is_representable_examples() {
    assert!(is_representable(1));
    assert!(is_representable(121));
    assert!(!is_representable(49));
    assert!(!is_representable(0));
}
