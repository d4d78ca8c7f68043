//! Serial-number arithmetic on wrapping 32-bit sequence numbers.
use vstd::prelude::*;

verus! {

/// Distance from `a` forward to `b` on the 32-bit circle, in `[0, 2^32)`.
pub open spec fn seq_dist(a: u32, b: u32) -> int {
    (b as int - a as int) % 0x1_0000_0000
}

/// `a` comes strictly before `b`: the forward distance lies in `(0, 2^31)`.
pub open spec fn seq_lt(a: u32, b: u32) -> bool {
    0 < seq_dist(a, b) < 0x8000_0000
}

/// `a` comes before `b` or equals it.
pub open spec fn seq_le(a: u32, b: u32) -> bool {
    seq_dist(a, b) < 0x8000_0000
}

/// The sequence number `n` steps after `s`.
pub open spec fn seq_add(s: u32, n: int) -> u32 {
    ((s as int + n) % 0x1_0000_0000) as u32
}

/// Stepping `n` forward from `a` lands at distance `n` from it.
pub proof fn lemma_dist_add(a: u32, n: int)
    requires
        0 <= n < 0x1_0000_0000,
    ensures
        seq_dist(a, seq_add(a, n)) == n,
{
    if a as int + n >= 0x1_0000_0000 {
        assert(seq_add(a, n) as int == a as int + n - 0x1_0000_0000);
    } else {
        assert(seq_add(a, n) as int == a as int + n);
    }
}

/// One step after `seq_add(a, n)` is `seq_add(a, n + 1)`.
pub proof fn lemma_add_step(a: u32, n: int)
    requires
        0 <= n < 0x1_0000_0000,
    ensures
        seq_add(seq_add(a, n), 1) == seq_add(a, n + 1),
{
}

/// Stepping from `a` by the distance to `b` lands on `b`.
pub proof fn lemma_add_dist(a: u32, b: u32)
    ensures
        seq_add(a, seq_dist(a, b)) == b,
{
    if b >= a {
        assert(seq_dist(a, b) == b - a);
    } else {
        assert(seq_dist(a, b) == b as int - a as int + 0x1_0000_0000);
    }
}

/// Two forward steps add up.
pub proof fn lemma_add_add(a: u32, n: int, m: int)
    requires
        0 <= n,
        0 <= m,
    ensures
        seq_add(seq_add(a, n), m) == seq_add(a, n + m),
{
    let x = a as int + n;
    assert(seq_add(a, n) as int == x % 0x1_0000_0000);
    vstd::arithmetic::div_mod::lemma_add_mod_noop(x, m, 0x1_0000_0000);
    vstd::arithmetic::div_mod::lemma_mod_twice(m, 0x1_0000_0000);
    vstd::arithmetic::div_mod::lemma_add_mod_noop(x % 0x1_0000_0000, m, 0x1_0000_0000);
    vstd::arithmetic::div_mod::lemma_mod_twice(x, 0x1_0000_0000);
}

/// Moving `n` one step on moves every seq behind it one step further back.
pub proof fn lemma_dist_next(a: u32, n: u32)
    requires
        seq_dist(a, n) < 0xffff_ffff,
    ensures
        seq_dist(a, seq_add(n, 1)) == seq_dist(a, n) + 1,
{
    if n == 0xffff_ffff {
        assert(seq_add(n, 1) == 0);
    } else {
        assert(seq_add(n, 1) as int == n + 1);
    }
}

/// Two seqs behind `n`, the older one (`x`) first: seen from a `c` shortly
/// before `x`, `y` lies further on by the gap between them.
pub proof fn lemma_dist_through(c: u32, x: u32, y: u32, n: u32)
    requires
        0 < seq_dist(y, n) < seq_dist(x, n) < 0x8000_0000,
        seq_dist(c, x) <= 64,
    ensures
        seq_dist(c, y) == seq_dist(c, x) + seq_dist(x, n) - seq_dist(y, n),
{
    let m: int = 0x1_0000_0000;
    let a = seq_dist(c, x);
    let d1 = seq_dist(x, n);
    let d2 = seq_dist(y, n);
    assert((x as int - c as int) == a || (x as int - c as int) == a - m);
    assert((n as int - x as int) == d1 || (n as int - x as int) == d1 - m);
    assert((n as int - y as int) == d2 || (n as int - y as int) == d2 - m);
}

/// Forward distance from `a` to `b`.
pub fn distance(a: u32, b: u32) -> (r: u32)
    ensures
        r as int == seq_dist(a, b),
{
    b.wrapping_sub(a)
}

/// Whether `a` comes strictly before `b` in serial-number order.
pub fn seq_before(a: u32, b: u32) -> (r: bool)
    ensures
        r == seq_lt(a, b),
{
    let d = distance(a, b);
    0 < d && d < 0x8000_0000
}

/// Whether `a` comes before `b` or equals it in serial-number order.
pub fn seq_not_after(a: u32, b: u32) -> (r: bool)
    ensures
        r == seq_le(a, b),
{
    distance(a, b) < 0x8000_0000
}

/// The sequence number that follows `s`.
pub fn seq_next(s: u32) -> (r: u32)
    ensures
        r == seq_add(s, 1),
{
    s.wrapping_add(1)
}

} // verus!
