//! Wrap arithmetic shared by the rings: positions in a circular byte buffer,
//! the distance of a position from a window start, and the two byte-copy
//! loops (into and out of the buffer) that the rings build on.

use vstd::prelude::*;
use vstd::arithmetic::div_mod::{
    lemma_add_mod_noop_right, lemma_fundamental_div_mod, lemma_mod_add_multiples_vanish,
    lemma_mod_division_less_than_divisor, lemma_mod_mod, lemma_mod_self_0, lemma_small_mod,
    lemma_sub_mod_noop,
};
use vstd::arithmetic::mul::lemma_mul_inequality;
use vstd::arithmetic::power::{lemma_pow_increases, pow};
use vstd::arithmetic::power2::{
    is_pow2, is_pow2_equiv, lemma2_to64, lemma2_to64_rest, lemma_pow2_adds, lemma_pow2_pos, pow2,
};

verus! {

/// How far position `p` lies past position `s`, walking forward around a
/// ring of `cap` bytes.
pub open spec fn wdist(p: int, s: int, cap: int) -> int {
    (p - s) % cap
}

/// A remainder just below the divisor: for `-m < z < 0`, `z % m == z + m`.
pub proof fn lemma_neg_mod(z: int, m: int)
    requires
        0 < m,
        -m < z < 0,
    ensures
        z % m == z + m,
{
    lemma_mod_add_multiples_vanish(z, m);
    lemma_small_mod((z + m) as nat, m as nat);
}

/// Walking `a` then measuring from a start that itself walked `b` leaves a
/// distance of `(a - b) % cap`.
pub proof fn lemma_wdist_between(s: int, a: int, b: int, cap: int)
    requires
        0 < cap,
        0 <= s < cap,
    ensures
        wdist((s + a) % cap, (s + b) % cap, cap) == (a - b) % cap,
{
    lemma_sub_mod_noop(s + a, s + b, cap);
}

/// The position `j` steps past `s` lies at distance `j` from `s`.
pub proof fn lemma_wdist_of_advance(s: int, j: int, cap: int)
    requires
        0 < cap,
        0 <= s < cap,
        0 <= j < cap,
    ensures
        wdist((s + j) % cap, s, cap) == j,
{
    lemma_small_mod(s as nat, cap as nat);
    lemma_sub_mod_noop(s + j, s, cap);
    lemma_small_mod(j as nat, cap as nat);
}

/// A position in the ring at distance `j` from `s` is exactly the position
/// `j` steps past `s`: distances identify positions.
pub proof fn lemma_wdist_inverse(p: int, s: int, j: int, cap: int)
    requires
        0 < cap,
        0 <= p < cap,
        0 <= s < cap,
        0 <= j < cap,
        wdist(p, s, cap) == j,
    ensures
        p == (s + j) % cap,
{
    lemma_fundamental_div_mod(p - s, cap);
    let q = (p - s) / cap;
    assert(p - s == cap * q + j);
    if q >= 1 {
        lemma_mul_inequality(1, q, cap);
    }
    if q <= -2 {
        lemma_mul_inequality(q, -2, cap);
    }
    if q == 0 {
        assert(cap * q == 0) by (nonlinear_arith)
            requires
                q == 0,
        ;
        lemma_small_mod((s + j) as nat, cap as nat);
    } else {
        assert(q == -1);
        assert(cap * q == -cap) by (nonlinear_arith)
            requires
                q == -1,
        ;
        assert(s + j == p + cap);
        lemma_mod_add_multiples_vanish(p, cap);
        lemma_small_mod(p as nat, cap as nat);
    }
}

/// Counters that wrap at 2^64 index a power-of-two ring consistently:
/// reducing modulo 2^64 first does not change the position.
pub proof fn lemma_mod_wrap64(x: int, c: int)
    requires
        is_pow2(c),
        c < 0x10000000000000000,
    ensures
        (x % 0x10000000000000000) % c == x % c,
{
    is_pow2_equiv(c);
    let i = choose|i: nat| pow(2, i) == c;
    lemma2_to64();
    lemma2_to64_rest();
    if i >= 64 {
        lemma_pow_increases(2, 64, i);
        vstd::arithmetic::power::lemma_pow_positive(2, 64);
        assert(pow2(64) == pow(2, 64));
        assert(false);
    }
    lemma_pow2_adds(i, (64 - i) as nat);
    lemma_pow2_pos((64 - i) as nat);
    vstd::arithmetic::power::lemma_pow_positive(2, i);
    assert(c * pow2((64 - i) as nat) == pow2(64));
    lemma_mod_mod(x, c, pow2((64 - i) as nat) as int);
}

/// Decides whether `c` is a power of two, by repeated halving.
pub fn check_pow2(c: usize) -> (b: bool)
    ensures
        b == is_pow2(c as int),
{
    proof {
        reveal(is_pow2);
    }
    if c == 0 {
        return false;
    }
    let mut v: usize = c;
    while v > 1
        invariant
            v >= 1,
            is_pow2(c as int) == is_pow2(v as int),
        decreases v,
    {
        if v % 2 == 1 {
            proof {
                reveal(is_pow2);
            }
            return false;
        }
        proof {
            reveal(is_pow2);
        }
        v = v / 2;
    }
    proof {
        reveal(is_pow2);
    }
    true
}

/// A zero-filled byte vector of the given length.
pub fn zero_bytes(n: usize) -> (v: Vec<u8>)
    ensures
        v@ == Seq::new(n as nat, |i: int| 0u8),
{
    let mut v: Vec<u8> = Vec::new();
    let mut i: usize = 0;
    while i < n
        invariant
            i <= n,
            v@ == Seq::new(i as nat, |j: int| 0u8),
        decreases n - i,
    {
        v.push(0);
        i = i + 1;
        proof {
            assert(v@ =~= Seq::new(i as nat, |j: int| 0u8));
        }
    }
    v
}

/// Copies `src` into the ring buffer starting at position `start`, wrapping
/// past the end of the buffer. Positions at distance `src.len()` or more
/// from `start` keep their bytes.
pub fn copy_wrapped(buf: &mut Vec<u8>, start: usize, src: &[u8])
    requires
        start < old(buf)@.len(),
        src@.len() <= old(buf)@.len(),
    ensures
        final(buf)@.len() == old(buf)@.len(),
        forall|p: int|
            0 <= p < old(buf)@.len() && wdist(p, start as int, old(buf)@.len() as int)
                < src@.len() ==> #[trigger] final(buf)@[p] == src@[wdist(
                p,
                start as int,
                old(buf)@.len() as int,
            )],
        forall|p: int|
            0 <= p < old(buf)@.len() && wdist(p, start as int, old(buf)@.len() as int)
                >= src@.len() ==> #[trigger] final(buf)@[p] == old(buf)@[p],
{
    let n = buf.len();
    let m = src.len();
    let ghost cap = n as int;
    proof {
        lemma_small_mod(start as nat, cap as nat);
    }
    let mut j: usize = 0;
    let mut pos: usize = start;
    while j < m
        invariant
            buf@.len() == n,
            old(buf)@.len() == n,
            src@.len() == m,
            m <= n,
            start < n,
            j <= m,
            cap == n as int,
            pos < n,
            pos as int == (start + j) % cap,
            forall|p: int|
                0 <= p < cap && wdist(p, start as int, cap) < j ==> #[trigger] buf@[p] == src@[
                    wdist(p, start as int, cap)
                ],
            forall|p: int|
                0 <= p < cap && wdist(p, start as int, cap) >= j ==> #[trigger] buf@[p] == old(
                    buf,
                )@[p],
        decreases m - j,
    {
        proof {
            lemma_wdist_of_advance(start as int, j as int, cap);
            assert(wdist(pos as int, start as int, cap) == j);
            assert forall|p: int|
                0 <= p < cap && wdist(p, start as int, cap) == j implies p == pos as int by {
                lemma_wdist_inverse(p, start as int, j as int, cap);
            }
        }
        buf.set(pos, src[j]);
        j = j + 1;
        proof {
            lemma_add_mod_noop_right(1, start as int + j - 1, cap);
            if pos + 1 < n {
                lemma_small_mod((pos + 1) as nat, cap as nat);
            } else {
                lemma_mod_self_0(cap);
            }
        }
        pos = pos + 1;
        if pos == n {
            pos = 0;
        }
    }
}

/// Reads `len` bytes out of the ring buffer starting at position `start`,
/// wrapping past the end of the buffer.
pub fn read_wrapped(buf: &Vec<u8>, start: usize, len: usize) -> (out: Vec<u8>)
    requires
        start < buf@.len(),
        len <= buf@.len(),
    ensures
        out@.len() == len,
        forall|i: int|
            0 <= i < len ==> #[trigger] out@[i] == buf@[(start + i) % (buf@.len() as int)],
{
    let n = buf.len();
    let ghost cap = n as int;
    proof {
        lemma_small_mod(start as nat, cap as nat);
    }
    let mut out: Vec<u8> = Vec::new();
    let mut i: usize = 0;
    let mut pos: usize = start;
    while i < len
        invariant
            buf@.len() == n,
            len <= n,
            start < n,
            i <= len,
            cap == n as int,
            pos < n,
            pos as int == (start + i) % cap,
            out@.len() == i,
            forall|k: int|
                0 <= k < i ==> #[trigger] out@[k] == buf@[(start + k) % cap],
        decreases len - i,
    {
        out.push(buf[pos]);
        i = i + 1;
        proof {
            lemma_add_mod_noop_right(1, start as int + i - 1, cap);
            if pos + 1 < n {
                lemma_small_mod((pos + 1) as nat, cap as nat);
            } else {
                lemma_mod_self_0(cap);
            }
        }
        pos = pos + 1;
        if pos == n {
            pos = 0;
        }
    }
    out
}

/// Remainders lie in `[0, m)`; restated here so callers can name it.
pub proof fn lemma_mod_range(x: int, m: int)
    requires
        0 < m,
    ensures
        0 <= x % m < m,
{
    lemma_mod_division_less_than_divisor(x, m);
}

} // verus!
