//! Arithmetic in the field of 256 elements, with the reduction polynomial
//! `x^8 + x^4 + x^3 + x^2 + 1`.
//!
//! Addition is exclusive or, so every element is its own additive inverse.
use vstd::prelude::*;

verus! {

/// Multiplication by the polynomial `x`, reduced.
pub open spec fn xtime(a: u8) -> u8 {
    if a & 0x80 == 0x80 {
        (a << 1) ^ 0x1D
    } else {
        a << 1
    }
}

/// The sum of those of eight terms whose bit is set in `b`.
pub open spec fn select_sum(
    x0: u8,
    x1: u8,
    x2: u8,
    x3: u8,
    x4: u8,
    x5: u8,
    x6: u8,
    x7: u8,
    b: u8,
) -> u8 {
    (if b & 1 == 1 { x0 } else { 0 }) ^ (if b & 2 == 2 { x1 } else { 0 }) ^ (if b & 4 == 4 {
        x2
    } else {
        0
    }) ^ (if b & 8 == 8 { x3 } else { 0 }) ^ (if b & 16 == 16 { x4 } else { 0 }) ^ (if b & 32 == 32 {
        x5
    } else {
        0
    }) ^ (if b & 64 == 64 { x6 } else { 0 }) ^ (if b & 128 == 128 { x7 } else { 0 })
}

/// `a` multiplied by `x^i`.
pub open spec fn shifted(a: u8, i: nat) -> u8
    decreases i,
{
    if i == 0 {
        a
    } else {
        xtime(shifted(a, (i - 1) as nat))
    }
}

/// The product of `a` and `b`: the sum of `a * x^i` over the bits `i` of `b`.
pub open spec fn times(a: u8, b: u8) -> u8 {
    select_sum(
        shifted(a, 0),
        shifted(a, 1),
        shifted(a, 2),
        shifted(a, 3),
        shifted(a, 4),
        shifted(a, 5),
        shifted(a, 6),
        shifted(a, 7),
        b,
    )
}

proof fn lemma_xtime_linear(a: u8, b: u8)
    by (bit_vector)
    ensures
        xtime(a ^ b) == xtime(a) ^ xtime(b),
        xtime(0) == 0,
{
}

proof fn lemma_select_sum_linear(
    x0: u8, x1: u8, x2: u8, x3: u8, x4: u8, x5: u8, x6: u8, x7: u8,
    y0: u8, y1: u8, y2: u8, y3: u8, y4: u8, y5: u8, y6: u8, y7: u8,
    b: u8, c: u8,
)
    by (bit_vector)
    ensures
        select_sum(x0, x1, x2, x3, x4, x5, x6, x7, b ^ c) == select_sum(x0, x1, x2, x3, x4, x5, x6, x7, b)
            ^ select_sum(x0, x1, x2, x3, x4, x5, x6, x7, c),
        select_sum(x0 ^ y0, x1 ^ y1, x2 ^ y2, x3 ^ y3, x4 ^ y4, x5 ^ y5, x6 ^ y6, x7 ^ y7, b)
            == select_sum(x0, x1, x2, x3, x4, x5, x6, x7, b) ^ select_sum(y0, y1, y2, y3, y4, y5, y6, y7, b),
{
}

proof fn lemma_select_sum_xtime(x0: u8, x1: u8, x2: u8, x3: u8, x4: u8, x5: u8, x6: u8, x7: u8, b: u8)
    by (bit_vector)
    ensures
        select_sum(xtime(x0), xtime(x1), xtime(x2), xtime(x3), xtime(x4), xtime(x5), xtime(x6), xtime(x7), b)
            == xtime(select_sum(x0, x1, x2, x3, x4, x5, x6, x7, b)),
        select_sum(x0, x1, x2, x3, x4, x5, x6, x7, xtime(b))
            == select_sum(x1, x2, x3, x4, x5, x6, x7, x0 ^ x2 ^ x3 ^ x4, b),
{
}

proof fn lemma_reduce(a: u8)
    by (bit_vector)
    ensures
        xtime(xtime(xtime(xtime(xtime(xtime(xtime(xtime(a)))))))) == a ^ xtime(xtime(a)) ^ xtime(
            xtime(xtime(a)),
        ) ^ xtime(xtime(xtime(xtime(a)))),
{
}

proof fn lemma_shifted_linear(a: u8, b: u8, i: nat)
    ensures
        shifted(a ^ b, i) == shifted(a, i) ^ shifted(b, i),
    decreases i,
{
    if i > 0 {
        lemma_shifted_linear(a, b, (i - 1) as nat);
        lemma_xtime_linear(shifted(a, (i - 1) as nat), shifted(b, (i - 1) as nat));
    }
}

proof fn lemma_shifted_eight(a: u8)
    ensures
        shifted(a, 8) == shifted(a, 0) ^ shifted(a, 2) ^ shifted(a, 3) ^ shifted(a, 4),
{
    reveal_with_fuel(shifted, 9);
    lemma_reduce(a);
}

/// Multiplication distributes over addition on the right.
pub proof fn lemma_times_xor_right(a: u8, b: u8, c: u8)
    ensures
        times(a, b ^ c) == times(a, b) ^ times(a, c),
{
    lemma_select_sum_linear(
        shifted(a, 0), shifted(a, 1), shifted(a, 2), shifted(a, 3),
        shifted(a, 4), shifted(a, 5), shifted(a, 6), shifted(a, 7),
        0, 0, 0, 0, 0, 0, 0, 0, b, c,
    );
}

/// Multiplication distributes over addition on the left.
pub proof fn lemma_times_xor_left(a: u8, b: u8, c: u8)
    ensures
        times(a ^ b, c) == times(a, c) ^ times(b, c),
{
    lemma_shifted_linear(a, b, 0);
    lemma_shifted_linear(a, b, 1);
    lemma_shifted_linear(a, b, 2);
    lemma_shifted_linear(a, b, 3);
    lemma_shifted_linear(a, b, 4);
    lemma_shifted_linear(a, b, 5);
    lemma_shifted_linear(a, b, 6);
    lemma_shifted_linear(a, b, 7);
    lemma_select_sum_linear(
        shifted(a, 0), shifted(a, 1), shifted(a, 2), shifted(a, 3),
        shifted(a, 4), shifted(a, 5), shifted(a, 6), shifted(a, 7),
        shifted(b, 0), shifted(b, 1), shifted(b, 2), shifted(b, 3),
        shifted(b, 4), shifted(b, 5), shifted(b, 6), shifted(b, 7),
        c, 0,
    );
}

proof fn lemma_times_xtime(a: u8, b: u8)
    ensures
        times(xtime(a), b) == xtime(times(a, b)),
        times(a, xtime(b)) == xtime(times(a, b)),
{
    reveal_with_fuel(shifted, 9);
    lemma_select_sum_xtime(
        shifted(a, 0), shifted(a, 1), shifted(a, 2), shifted(a, 3),
        shifted(a, 4), shifted(a, 5), shifted(a, 6), shifted(a, 7), b,
    );
    lemma_shifted_eight(a);
}

proof fn lemma_times_shifted(a: u8, b: u8, i: nat)
    ensures
        times(a, shifted(b, i)) == shifted(times(a, b), i),
        times(shifted(a, i), b) == shifted(times(a, b), i),
    decreases i,
{
    if i > 0 {
        lemma_times_shifted(a, b, (i - 1) as nat);
        lemma_times_xtime(a, shifted(b, (i - 1) as nat));
        lemma_times_xtime(shifted(a, (i - 1) as nat), b);
    }
}

proof fn lemma_select_sum_unit(a: u8, x1: u8, x2: u8, x3: u8, x4: u8, x5: u8, x6: u8, x7: u8)
    by (bit_vector)
    ensures
        select_sum(a, x1, x2, x3, x4, x5, x6, x7, 0) == 0,
        select_sum(a, x1, x2, x3, x4, x5, x6, x7, 1) == a,
        select_sum(0, 0, 0, 0, 0, 0, 0, 0, a) == 0,
        xtime(1) == 2,
        xtime(2) == 4,
        xtime(4) == 8,
        xtime(8) == 16,
        xtime(16) == 32,
        xtime(32) == 64,
        xtime(64) == 128,
        select_sum(1, 2, 4, 8, 16, 32, 64, 128, a) == a,
{
}

/// Zero and one under multiplication.
pub proof fn lemma_times_unit(a: u8)
    ensures
        times(a, 0) == 0,
        times(0, a) == 0,
        times(a, 1) == a,
        times(1, a) == a,
{
    reveal_with_fuel(shifted, 9);
    lemma_select_sum_unit(
        a, shifted(a, 1), shifted(a, 2), shifted(a, 3), shifted(a, 4), shifted(a, 5), shifted(a, 6), shifted(a, 7),
    );
    lemma_xtime_linear(0, 0);
}

/// `times(a, select_sum(..))` is the sum of the products.
proof fn lemma_times_select_sum(
    a: u8, x0: u8, x1: u8, x2: u8, x3: u8, x4: u8, x5: u8, x6: u8, x7: u8, c: u8,
)
    ensures
        times(a, select_sum(x0, x1, x2, x3, x4, x5, x6, x7, c)) == select_sum(
            times(a, x0), times(a, x1), times(a, x2), times(a, x3),
            times(a, x4), times(a, x5), times(a, x6), times(a, x7), c,
        ),
        times(select_sum(x0, x1, x2, x3, x4, x5, x6, x7, c), a) == select_sum(
            times(x0, a), times(x1, a), times(x2, a), times(x3, a),
            times(x4, a), times(x5, a), times(x6, a), times(x7, a), c,
        ),
{
    lemma_times_unit(a);
    let t0 = if c & 1 == 1 { x0 } else { 0 };
    let t1 = if c & 2 == 2 { x1 } else { 0 };
    let t2 = if c & 4 == 4 { x2 } else { 0 };
    let t3 = if c & 8 == 8 { x3 } else { 0 };
    let t4 = if c & 16 == 16 { x4 } else { 0 };
    let t5 = if c & 32 == 32 { x5 } else { 0 };
    let t6 = if c & 64 == 64 { x6 } else { 0 };
    let t7 = if c & 128 == 128 { x7 } else { 0 };
    lemma_times_xor_right(a, t0, t1);
    lemma_times_xor_right(a, t0 ^ t1, t2);
    lemma_times_xor_right(a, t0 ^ t1 ^ t2, t3);
    lemma_times_xor_right(a, t0 ^ t1 ^ t2 ^ t3, t4);
    lemma_times_xor_right(a, t0 ^ t1 ^ t2 ^ t3 ^ t4, t5);
    lemma_times_xor_right(a, t0 ^ t1 ^ t2 ^ t3 ^ t4 ^ t5, t6);
    lemma_times_xor_right(a, t0 ^ t1 ^ t2 ^ t3 ^ t4 ^ t5 ^ t6, t7);
    lemma_times_xor_left(t0, t1, a);
    lemma_times_xor_left(t0 ^ t1, t2, a);
    lemma_times_xor_left(t0 ^ t1 ^ t2, t3, a);
    lemma_times_xor_left(t0 ^ t1 ^ t2 ^ t3, t4, a);
    lemma_times_xor_left(t0 ^ t1 ^ t2 ^ t3 ^ t4, t5, a);
    lemma_times_xor_left(t0 ^ t1 ^ t2 ^ t3 ^ t4 ^ t5, t6, a);
    lemma_times_xor_left(t0 ^ t1 ^ t2 ^ t3 ^ t4 ^ t5 ^ t6, t7, a);
}

/// Multiplication is associative.
pub proof fn lemma_times_assoc(a: u8, b: u8, c: u8)
    ensures
        times(times(a, b), c) == times(a, times(b, c)),
{
    lemma_times_shifted(a, b, 0);
    lemma_times_shifted(a, b, 1);
    lemma_times_shifted(a, b, 2);
    lemma_times_shifted(a, b, 3);
    lemma_times_shifted(a, b, 4);
    lemma_times_shifted(a, b, 5);
    lemma_times_shifted(a, b, 6);
    lemma_times_shifted(a, b, 7);
    lemma_times_select_sum(
        a,
        shifted(b, 0), shifted(b, 1), shifted(b, 2), shifted(b, 3),
        shifted(b, 4), shifted(b, 5), shifted(b, 6), shifted(b, 7),
        c,
    );
}

/// Multiplication is commutative.
pub proof fn lemma_times_commutes(a: u8, b: u8)
    ensures
        times(a, b) == times(b, a),
{
    lemma_times_shifted(1, b, 0);
    lemma_times_shifted(1, b, 1);
    lemma_times_shifted(1, b, 2);
    lemma_times_shifted(1, b, 3);
    lemma_times_shifted(1, b, 4);
    lemma_times_shifted(1, b, 5);
    lemma_times_shifted(1, b, 6);
    lemma_times_shifted(1, b, 7);
    lemma_times_unit(b);
    lemma_times_unit(a);
    lemma_times_select_sum(
        b,
        shifted(1, 0), shifted(1, 1), shifted(1, 2), shifted(1, 3),
        shifted(1, 4), shifted(1, 5), shifted(1, 6), shifted(1, 7),
        a,
    );
}

/// `a` is squared seven times and the results multiplied: `a` to the power 254.
pub open spec fn power_254(a: u8) -> u8 {
    let a2 = times(a, a);
    let a3 = times(a2, a);
    let a6 = times(a3, a3);
    let a12 = times(a6, a6);
    let a15 = times(a12, a3);
    let a30 = times(a15, a15);
    let a60 = times(a30, a30);
    let a120 = times(a60, a60);
    let a240 = times(a120, a120);
    times(times(a240, a12), a2)
}

/// `times` written without recursion.
spec fn times_flat(a: u8, b: u8) -> u8 {
    select_sum(
        a,
        xtime(a),
        xtime(xtime(a)),
        xtime(xtime(xtime(a))),
        xtime(xtime(xtime(xtime(a)))),
        xtime(xtime(xtime(xtime(xtime(a))))),
        xtime(xtime(xtime(xtime(xtime(xtime(a)))))),
        xtime(xtime(xtime(xtime(xtime(xtime(xtime(a))))))),
        b,
    )
}

proof fn lemma_times_flat(a: u8, b: u8)
    ensures
        times(a, b) == times_flat(a, b),
{
    reveal_with_fuel(shifted, 9);
}

proof fn lemma_power_254(a: u8)
    requires
        a != 0,
    ensures
        times(a, power_254(a)) == 1,
{
    let a2 = times(a, a);
    let a3 = times(a2, a);
    let a6 = times(a3, a3);
    let a12 = times(a6, a6);
    let a15 = times(a12, a3);
    let a30 = times(a15, a15);
    let a60 = times(a30, a30);
    let a120 = times(a60, a60);
    let a240 = times(a120, a120);
    let a252 = times(a240, a12);
    let a254 = times(a252, a2);
    let one = times(a, a254);
    lemma_times_flat(a, a);
    lemma_times_flat(a2, a);
    lemma_times_flat(a3, a3);
    lemma_times_flat(a6, a6);
    lemma_times_flat(a12, a3);
    lemma_times_flat(a15, a15);
    lemma_times_flat(a30, a30);
    lemma_times_flat(a60, a60);
    lemma_times_flat(a120, a120);
    lemma_times_flat(a240, a12);
    lemma_times_flat(a252, a2);
    lemma_times_flat(a, a254);
    assert(one == 1) by (bit_vector)
        requires
            a != 0,
            a2 == times_flat(a, a),
            a3 == times_flat(a2, a),
            a6 == times_flat(a3, a3),
            a12 == times_flat(a6, a6),
            a15 == times_flat(a12, a3),
            a30 == times_flat(a15, a15),
            a60 == times_flat(a30, a30),
            a120 == times_flat(a60, a60),
            a240 == times_flat(a120, a120),
            a252 == times_flat(a240, a12),
            a254 == times_flat(a252, a2),
            one == times_flat(a, a254),
    ;
}

/// The multiplicative inverse of `a`; meaningful for `a != 0`.
pub open spec fn inverse(a: u8) -> u8 {
    choose|r: u8| times(a, r) == 1
}

/// Every nonzero element has an inverse, and only one.
pub proof fn lemma_inverse(a: u8)
    requires
        a != 0,
    ensures
        times(a, inverse(a)) == 1,
        times(inverse(a), a) == 1,
        inverse(a) != 0,
        forall|r: u8| #[trigger] times(a, r) == 1 ==> r == inverse(a),
{
    lemma_power_254(a);
    assert(times(a, power_254(a)) == 1);
    let i = inverse(a);
    lemma_times_commutes(a, i);
    lemma_times_unit(a);
    assert forall|r: u8| #[trigger] times(a, r) == 1 implies r == i by {
        lemma_times_assoc(i, a, r);
        lemma_times_unit(r);
        lemma_times_unit(i);
    }
}

/// A product is zero only where a factor is.
pub proof fn lemma_no_zero_divisors(a: u8, b: u8)
    requires
        times(a, b) == 0,
    ensures
        a == 0 || b == 0,
{
    if a != 0 {
        lemma_inverse(a);
        lemma_times_assoc(inverse(a), a, b);
        lemma_times_unit(b);
        lemma_times_unit(inverse(a));
    }
}

fn double(a: u8) -> (r: u8)
    ensures
        r == xtime(a),
{
    if a & 0x80 == 0x80 {
        (a << 1) ^ 0x1D
    } else {
        a << 1
    }
}

/// The product of `a` and `b`.
pub fn gf_mul(a: u8, b: u8) -> (r: u8)
    ensures
        r == times(a, b),
{
    proof {
        reveal_with_fuel(shifted, 8);
    }
    let x1: u8 = double(a);
    let x2: u8 = double(x1);
    let x3: u8 = double(x2);
    let x4: u8 = double(x3);
    let x5: u8 = double(x4);
    let x6: u8 = double(x5);
    let x7: u8 = double(x6);
    (if b & 1 == 1 { a } else { 0 }) ^ (if b & 2 == 2 { x1 } else { 0 }) ^ (if b & 4 == 4 {
        x2
    } else {
        0
    }) ^ (if b & 8 == 8 { x3 } else { 0 }) ^ (if b & 16 == 16 { x4 } else { 0 }) ^ (if b & 32 == 32 {
        x5
    } else {
        0
    }) ^ (if b & 64 == 64 { x6 } else { 0 }) ^ (if b & 128 == 128 { x7 } else { 0 })
}

/// The inverse of `a`: the element that `a` multiplies to one.
pub fn gf_inv(a: u8) -> (r: u8)
    requires
        a != 0,
    ensures
        r == inverse(a),
        times(a, r) == 1,
{
    let a2: u8 = gf_mul(a, a);
    let a3: u8 = gf_mul(a2, a);
    let a6: u8 = gf_mul(a3, a3);
    let a12: u8 = gf_mul(a6, a6);
    let a15: u8 = gf_mul(a12, a3);
    let a30: u8 = gf_mul(a15, a15);
    let a60: u8 = gf_mul(a30, a30);
    let a120: u8 = gf_mul(a60, a60);
    let a240: u8 = gf_mul(a120, a120);
    let r: u8 = gf_mul(gf_mul(a240, a12), a2);
    proof {
        lemma_power_254(a);
        lemma_inverse(a);
        assert(times(a, r) == 1);
    }
    r
}

/// The laws of exclusive or.
pub proof fn lemma_xor(a: u8, b: u8, c: u8)
    by (bit_vector)
    ensures
        a ^ b == b ^ a,
        (a ^ b) ^ c == a ^ (b ^ c),
        a ^ a == 0,
        a ^ 0 == a,
        0 ^ a == a,
        a ^ b == 0 ==> a == b,
        (a ^ c) ^ (c ^ b) == a ^ b,
        (a ^ c) ^ (b ^ c) == a ^ b,
{
}

proof fn lemma_xor_interchange(a: u8, b: u8, c: u8, d: u8)
    by (bit_vector)
    ensures
        (a ^ b) ^ (c ^ d) == (a ^ c) ^ (b ^ d),
{
}

/// The sum of `f(0)`, ..., `f(n - 1)`.
pub open spec fn sum(n: nat, f: spec_fn(int) -> u8) -> u8
    decreases n,
{
    if n == 0 {
        0
    } else {
        sum((n - 1) as nat, f) ^ f(n - 1)
    }
}

/// Sums of equal terms are equal.
pub proof fn lemma_sum_same(n: nat, f: spec_fn(int) -> u8, g: spec_fn(int) -> u8)
    requires
        forall|i: int| 0 <= i < n ==> #[trigger] f(i) == g(i),
    ensures
        sum(n, f) == sum(n, g),
    decreases n,
{
    if n > 0 {
        lemma_sum_same((n - 1) as nat, f, g);
        assert(f(n - 1) == g(n - 1));
    }
}

/// The sum of termwise sums.
pub proof fn lemma_sum_xor(n: nat, f: spec_fn(int) -> u8, g: spec_fn(int) -> u8)
    ensures
        sum(n, |i: int| f(i) ^ g(i)) == sum(n, f) ^ sum(n, g),
    decreases n,
{
    if n > 0 {
        lemma_sum_xor((n - 1) as nat, f, g);
        lemma_xor_interchange(sum((n - 1) as nat, f), sum((n - 1) as nat, g), f(n - 1), g(n - 1));
    } else {
        lemma_xor(0, 0, 0);
    }
}

/// A constant factor moves out of a sum.
pub proof fn lemma_sum_scale(n: nat, c: u8, f: spec_fn(int) -> u8)
    ensures
        sum(n, |i: int| times(c, f(i))) == times(c, sum(n, f)),
    decreases n,
{
    lemma_times_unit(c);
    if n > 0 {
        lemma_sum_scale((n - 1) as nat, c, f);
        lemma_times_xor_right(c, sum((n - 1) as nat, f), f(n - 1));
    }
}

/// A sum with at most one nonzero term.
pub proof fn lemma_sum_single(n: nat, p: int, f: spec_fn(int) -> u8)
    requires
        forall|i: int| 0 <= i < n && i != p ==> #[trigger] f(i) == 0,
    ensures
        0 <= p < n ==> sum(n, f) == f(p),
        !(0 <= p < n) ==> sum(n, f) == 0,
    decreases n,
{
    if n > 0 {
        lemma_sum_single((n - 1) as nat, p, f);
        lemma_xor(f(n - 1), 0, 0);
        if n - 1 != p {
            assert(f(n - 1) == 0);
            lemma_xor(sum((n - 1) as nat, f), 0, 0);
        }
    }
}

/// Dropping a zero term leaves the sum.
pub proof fn lemma_sum_skip(n: nat, p: int, f: spec_fn(int) -> u8)
    requires
        0 <= p < n,
        f(p) == 0,
    ensures
        sum(n, f) == sum((n - 1) as nat, |i: int| if i < p { f(i) } else { f(i + 1) }),
    decreases n,
{
    let g = |i: int| if i < p { f(i) } else { f(i + 1) };
    if p == n - 1 {
        lemma_sum_same((n - 1) as nat, f, g);
        lemma_xor(sum((n - 1) as nat, f), 0, 0);
    } else {
        lemma_sum_skip((n - 1) as nat, p, f);
    }
}

/// The order of two summations does not matter.
pub proof fn lemma_sum_swap(n: nat, m: nat, f: spec_fn(int, int) -> u8)
    ensures
        sum(n, |i: int| sum(m, |j: int| f(i, j))) == sum(m, |j: int| sum(n, |i: int| f(i, j))),
    decreases n,
{
    let inner = |i: int| sum(m, |j: int| f(i, j));
    if n == 0 {
        lemma_sum_single(m, -1, |j: int| sum(n, |i: int| f(i, j)));
    } else {
        let k = (n - 1) as nat;
        lemma_sum_swap(k, m, f);
        let left = |j: int| sum(k, |i: int| f(i, j));
        let last = |j: int| f(n - 1, j);
        lemma_sum_xor(m, left, last);
        lemma_sum_same(m, |j: int| left(j) ^ last(j), |j: int| sum(n, |i: int| f(i, j)));
    }
}

} // verus!
