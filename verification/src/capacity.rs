//! The capacity of a grown GPU buffer. The size asked for is scaled by a
//! margin of one quarter in single precision, then rounded up to a whole
//! byte: this module states that computation in integers, with the rounding
//! of single-precision numbers (24 significant bits, ties to even).

use vstd::prelude::*;

verus! {

/// `2` to the power `k`.
pub open spec fn two_pow(k: nat) -> nat
    decreases k,
{
    if k == 0 { 1 } else { 2 * two_pow((k - 1) as nat) }
}

/// The number of binary digits of `n` (none for 0).
pub open spec fn bit_len(n: nat) -> nat
    decreases n,
{
    if n == 0 { 0 } else { 1 + bit_len(n / 2) }
}

/// `a` rounded to the nearest multiple of `q`, a tie going to the even multiple.
pub open spec fn round_half_even(a: nat, q: nat) -> nat
    recommends
        q > 0,
{
    let k = a / q;
    let r = a % q;
    if 2 * r < q {
        k * q
    } else if 2 * r > q {
        (k + 1) * q
    } else if k % 2 == 0 {
        k * q
    } else {
        (k + 1) * q
    }
}

/// The single-precision number nearest to `n`: `n` rounded to 24
/// significant bits, ties to even.
pub open spec fn to_single(n: nat) -> nat {
    if bit_len(n) <= 24 {
        n
    } else {
        round_half_even(n, two_pow((bit_len(n) - 24) as nat))
    }
}

/// The capacity of a buffer made for `needed` bytes: `needed` in single
/// precision times 1.25, rounded to single precision (scaling by four is
/// exact, so the product is rounded as `5 * f` and read in quarters), then
/// rounded up to a whole byte, kept within `u32` and at least 4096.
pub open spec fn single_grown_capacity(needed: nat) -> int {
    let c = (to_single(5 * to_single(needed)) + 3) / 4;
    if c > u32::MAX {
        u32::MAX as int
    } else if c < 4096 {
        4096
    } else {
        c as int
    }
}

proof fn lemma_two_pow_pos(k: nat)
    ensures
        two_pow(k) >= 1,
    decreases k,
{
    if k > 0 {
        lemma_two_pow_pos((k - 1) as nat);
    }
}

proof fn lemma_two_pow_add(a: nat, b: nat)
    ensures
        two_pow(a + b) == two_pow(a) * two_pow(b),
    decreases a,
{
    if a == 0 {
        assert(two_pow(0) == 1);
        assert(a + b == b);
    } else {
        let a1 = (a - 1) as nat;
        lemma_two_pow_add(a1, b);
        let x = two_pow(a1);
        let y = two_pow(b);
        assert(two_pow(a) == 2 * x);
        assert(a1 + b + 1 == a + b);
        assert(two_pow(a + b) == 2 * two_pow(a1 + b));
        assert(two_pow(a1 + b) == x * y);
        assert(2 * (x * y) == (2 * x) * y) by (nonlinear_arith);
    }
}

proof fn lemma_two_pow_le(i: nat, j: nat)
    requires
        i <= j,
    ensures
        two_pow(i) <= two_pow(j),
{
    lemma_two_pow_add(i, (j - i) as nat);
    lemma_two_pow_pos((j - i) as nat);
    lemma_two_pow_pos(i);
    assert(two_pow(i) * two_pow((j - i) as nat) >= two_pow(i)) by (nonlinear_arith)
        requires
            two_pow((j - i) as nat) >= 1,
            two_pow(i) >= 1,
    ;
    assert(i + ((j - i) as nat) == j);
}

/// A number below `2^k` has at most `k` digits.
proof fn lemma_bit_len_upper(n: nat, k: nat)
    requires
        n < two_pow(k),
    ensures
        bit_len(n) <= k,
    decreases k,
{
    if n > 0 {
        if k == 0 {
            assert(two_pow(0) == 1);
        } else {
            assert(two_pow(k) == 2 * two_pow((k - 1) as nat));
            lemma_bit_len_upper(n / 2, (k - 1) as nat);
        }
    }
}

/// A number of `bit_len(n)` digits lies between the powers of two around it.
proof fn lemma_bit_len_bounds(n: nat)
    requires
        n > 0,
    ensures
        two_pow((bit_len(n) - 1) as nat) <= n < two_pow(bit_len(n)),
    decreases n,
{
    if n / 2 > 0 {
        lemma_bit_len_bounds(n / 2);
        assert(bit_len(n) == 1 + bit_len(n / 2));
        assert(bit_len(n / 2) >= 1);
        assert(two_pow(bit_len(n)) == 2 * two_pow(bit_len(n / 2)));
        assert(two_pow((bit_len(n) - 1) as nat) == two_pow(bit_len(n / 2)));
        assert(two_pow((bit_len(n / 2) - 1) as nat) * 2 == two_pow(bit_len(n / 2))) by {
            assert(two_pow(bit_len(n / 2)) == 2 * two_pow((bit_len(n / 2) - 1) as nat));
        }
    } else {
        assert(bit_len(n / 2) == 0);
        assert(bit_len(n) == 1);
        assert(two_pow(1) == 2 * two_pow(0));
    }
}

/// Rounding to single precision loses less than one part in 2^23.
proof fn lemma_to_single_lower(x: nat)
    ensures
        8388608 * to_single(x) >= 8388607 * x,
        to_single(x) <= 2 * x,
{
    if bit_len(x) > 24 {
        let b = bit_len(x);
        let q = two_pow((b - 24) as nat);
        lemma_bit_len_bounds(x);
        lemma_two_pow_add((b - 24) as nat, 23);
        assert(((b - 24) as nat) + 23 == (b - 1) as nat);
        lemma_two_pow_pos((b - 24) as nat);
        assert(two_pow(23) == 8388608) by {
            reveal_with_fuel(two_pow, 24);
        }
        let k = x / q;
        let r = x % q;
        assert(x == k * q + r && 0 <= r < q) by (nonlinear_arith)
            requires
                q >= 1,
                k == x / q,
                r == x % q,
        ;
        assert(q * 8388608 <= x);
        let t = to_single(x);
        assert(t == round_half_even(x, q));
        assert(k * q <= (k + 1) * q) by (nonlinear_arith)
            requires
                q >= 1,
        ;
        assert(t >= k * q && t <= (k + 1) * q);
        assert(8388608 * t >= 8388607 * x) by (nonlinear_arith)
            requires
                t >= k * q,
                x == k * q + r,
                r < q,
                q * 8388608 <= x,
        ;
        assert(t <= 2 * x) by (nonlinear_arith)
            requires
                t <= (k + 1) * q,
                x == k * q + r,
                r >= 0,
                q * 8388608 <= x,
                q >= 1,
        ;
    }
}

/// The capacity of a buffer made for `needed` bytes holds them, stays
/// within `u32` and is at least 4096 bytes.
pub proof fn lemma_single_grown_capacity_bounds(needed: nat)
    requires
        needed <= u32::MAX,
    ensures
        needed <= single_grown_capacity(needed) <= u32::MAX,
        4096 <= single_grown_capacity(needed),
{
    let f = to_single(needed);
    lemma_to_single_lower(needed);
    lemma_to_single_lower(5 * f);
    let t = to_single(5 * f);
    assert(t + 3 >= 4 * needed) by (nonlinear_arith)
        requires
            8388608 * f >= 8388607 * needed,
            8388608 * t >= 8388607 * (5 * f),
            needed <= u32::MAX,
    ;
}

/// The number of binary digits of `n`.
fn bit_len_exec(n: u64) -> (r: u32)
    ensures
        r == bit_len(n as nat),
        r <= 64,
{
    proof {
        assert(two_pow(64) == 0x1_0000_0000_0000_0000) by {
            reveal_with_fuel(two_pow, 65);
        }
        lemma_bit_len_upper(n as nat, 64);
    }
    let mut v: u64 = n;
    let mut len: u32 = 0;
    while v > 0
        invariant
            bit_len(n as nat) == len + bit_len(v as nat),
            bit_len(n as nat) <= 64,
        decreases v,
    {
        v = v / 2;
        len = len + 1;
    }
    len
}

/// `2` to the power `k`.
fn two_pow_exec(k: u32) -> (r: u64)
    requires
        k <= 40,
    ensures
        r == two_pow(k as nat),
{
    proof {
        assert(two_pow(40) == 0x100_0000_0000) by {
            reveal_with_fuel(two_pow, 41);
        }
    }
    let mut r: u64 = 1;
    let mut i: u32 = 0;
    while i < k
        invariant
            i <= k <= 40,
            r == two_pow(i as nat),
            two_pow(40) == 0x100_0000_0000,
        decreases k - i,
    {
        proof {
            lemma_two_pow_le((i + 1) as nat, 40);
            assert(two_pow((i + 1) as nat) == 2 * two_pow(i as nat));
        }
        r = r * 2;
        i = i + 1;
    }
    r
}

/// The digits of a number up to `2^36` that needs rounding: between 25 and 37.
proof fn lemma_rounding_digits(n: nat)
    requires
        n <= 0x10_0000_0000,
        bit_len(n) > 24,
    ensures
        bit_len(n) <= 37,
        two_pow((bit_len(n) - 24) as nat) >= 1,
        two_pow((bit_len(n) - 24) as nat) <= n,
{
    assert(two_pow(37) == 0x20_0000_0000) by {
        reveal_with_fuel(two_pow, 38);
    }
    lemma_bit_len_upper(n, 37);
    lemma_bit_len_bounds(n);
    lemma_two_pow_pos((bit_len(n) - 24) as nat);
    lemma_two_pow_le((bit_len(n) - 24) as nat, (bit_len(n) - 1) as nat);
}

/// The rounding of `n` to a multiple of `q`, ties to even, from its quotient and remainder.
proof fn lemma_round_parts(n: nat, q: nat)
    requires
        q >= 1,
        q <= n,
    ensures
        (n / q) * q <= n,
        ((n / q) + 1) * q == (n / q) * q + q,
        ((n / q) + 1) * q <= 2 * n,
{
    let k = n / q;
    assert(k * q <= n && ((k + 1) * q == k * q + q)) by (nonlinear_arith)
        requires
            q >= 1,
            k == n / q,
    ;
}

/// `n` rounded to single precision.
fn to_single_exec(n: u64) -> (r: u64)
    requires
        n <= 0x10_0000_0000,
    ensures
        r == to_single(n as nat),
{
    let b = bit_len_exec(n);
    if b <= 24 {
        return n;
    }
    proof {
        lemma_rounding_digits(n as nat);
    }
    let q = two_pow_exec(b - 24);
    proof {
        lemma_round_parts(n as nat, q as nat);
        assert(to_single(n as nat) == round_half_even(n as nat, q as nat));
    }
    let k = n / q;
    let r = n % q;
    if 2 * r < q {
        k * q
    } else if 2 * r > q {
        (k + 1) * q
    } else if k % 2 == 0 {
        k * q
    } else {
        (k + 1) * q
    }
}

/// The capacity of a buffer made for `needed` bytes.
pub fn single_grown_capacity_exec(needed: u32) -> (r: u32)
    ensures
        r == single_grown_capacity(needed as nat),
{
    let f = to_single_exec(needed as u64);
    proof {
        lemma_to_single_lower(needed as nat);
    }
    let t = to_single_exec(5 * f);
    proof {
        lemma_to_single_lower((5 * f) as nat);
    }
    let c = (t + 3) / 4;
    if c > u32::MAX as u64 {
        u32::MAX
    } else if c < 4096 {
        4096
    } else {
        c as u32
    }
}

} // verus!
