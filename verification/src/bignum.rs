//! Exact arbitrary-precision unsigned arithmetic on base-2^64 limb
//! vectors, least significant limb first. Just enough is provided for
//! the payment solver and the compound-rate truncation: building a
//! power by repeated scalar multiplication, subtraction, comparison,
//! and division by repeated subtraction with round-to-nearest.

use vstd::prelude::*;
use vstd::arithmetic::power::pow;
use vstd::arithmetic::power::lemma_pow_positive;
use vstd::arithmetic::power::lemma_pow0;
use vstd::arithmetic::power::lemma_pow1;
use vstd::arithmetic::power::lemma_pow_adds;
use vstd::arithmetic::mul::lemma_mul_inequality;
use vstd::arithmetic::div_mod::lemma_fundamental_div_mod_converse;
use vstd::arithmetic::div_mod::lemma_fundamental_div_mod;

verus! {

/// The limb at position `i`, with zero beyond either end.
pub open spec fn limb(s: Seq<u64>, i: int) -> int {
    if 0 <= i < s.len() {
        s[i] as int
    } else {
        0
    }
}

/// `2^64` raised to `n`: the weight of limb position `n`.
pub open spec fn pow_b(n: nat) -> int {
    pow(0x1_0000_0000_0000_0000, n)
}

/// The number denoted by the limbs from position `i` up, scaled down to
/// position `i`.
pub open spec fn val_at(s: Seq<u64>, i: int) -> int
    decreases s.len() - i,
{
    if i < 0 || i >= s.len() {
        0
    } else {
        s[i] + 0x1_0000_0000_0000_0000 * val_at(s, i + 1)
    }
}

/// The number a limb vector denotes.
pub open spec fn val(s: Seq<u64>) -> int {
    val_at(s, 0)
}

/// Division rounded to the nearest integer, halves away from zero.
pub open spec fn rounded_div(n: int, d: int) -> int {
    if 2 * (n % d) >= d {
        n / d + 1
    } else {
        n / d
    }
}

proof fn lemma_pow_b_zero()
    ensures
        pow_b(0) == 1,
{
    lemma_pow0(0x1_0000_0000_0000_0000);
}

proof fn lemma_pow_b_succ(n: nat)
    ensures
        pow_b(n + 1) == 0x1_0000_0000_0000_0000 * pow_b(n),
{
    lemma_pow_adds(0x1_0000_0000_0000_0000, 1, n);
    lemma_pow1(0x1_0000_0000_0000_0000);
}

proof fn lemma_val_at_expand(s: Seq<u64>, i: int)
    requires
        0 <= i,
    ensures
        val_at(s, i) == limb(s, i) + 0x1_0000_0000_0000_0000 * val_at(s, i + 1),
{
}

proof fn lemma_val_at_nonneg(s: Seq<u64>, i: int)
    ensures
        val_at(s, i) >= 0,
    decreases s.len() - i,
{
    if 0 <= i && i < s.len() {
        lemma_val_at_nonneg(s, i + 1);
        assert(0x1_0000_0000_0000_0000 * val_at(s, i + 1) >= 0) by (nonlinear_arith)
            requires
                val_at(s, i + 1) >= 0,
        ;
    }
}

proof fn lemma_val_at_bound(s: Seq<u64>, i: int)
    requires
        0 <= i <= s.len(),
    ensures
        val_at(s, i) < pow_b((s.len() - i) as nat),
    decreases s.len() - i,
{
    if i == s.len() {
        lemma_pow_b_zero();
    } else {
        lemma_val_at_bound(s, i + 1);
        let v = val_at(s, i + 1);
        let p = pow_b((s.len() - i - 1) as nat);
        lemma_pow_positive(0x1_0000_0000_0000_0000, (s.len() - i - 1) as nat);
        lemma_mul_inequality(v, p - 1, 0x1_0000_0000_0000_0000);
        assert(v * 0x1_0000_0000_0000_0000 == 0x1_0000_0000_0000_0000 * v) by (nonlinear_arith);
        assert((p - 1) * 0x1_0000_0000_0000_0000 == 0x1_0000_0000_0000_0000 * p
            - 0x1_0000_0000_0000_0000) by (nonlinear_arith);
        lemma_pow_b_succ((s.len() - i - 1) as nat);
        assert(pow_b((s.len() - i) as nat) == 0x1_0000_0000_0000_0000 * p);
    }
}

proof fn lemma_val_at_push(s: Seq<u64>, x: u64, i: int)
    requires
        0 <= i <= s.len(),
    ensures
        val_at(s.push(x), i) == val_at(s, i) + x * pow_b((s.len() - i) as nat),
    decreases s.len() - i,
{
    let t = s.push(x);
    if i == s.len() {
        assert(val_at(t, i) == t[i] + 0x1_0000_0000_0000_0000 * val_at(t, i + 1));
        assert(val_at(t, i + 1) == 0);
        lemma_pow_b_zero();
    } else {
        lemma_val_at_push(s, x, i + 1);
        let p = pow_b((s.len() - i - 1) as nat);
        assert(val_at(t, i) == t[i] + 0x1_0000_0000_0000_0000 * val_at(t, i + 1));
        assert(val_at(s, i) == s[i] + 0x1_0000_0000_0000_0000 * val_at(s, i + 1));
        assert(t[i] == s[i]);
        assert(0x1_0000_0000_0000_0000 * (val_at(s, i + 1) + x * p) == 0x1_0000_0000_0000_0000
            * val_at(s, i + 1) + x * (0x1_0000_0000_0000_0000 * p)) by (nonlinear_arith);
        lemma_pow_b_succ((s.len() - i - 1) as nat);
        assert(pow_b((s.len() - i) as nat) == 0x1_0000_0000_0000_0000 * p);
    }
}

proof fn lemma_val_at_lt(a: Seq<u64>, b: Seq<u64>, i: int)
    requires
        0 <= i,
        val_at(a, i) < val_at(b, i),
    ensures
        val_at(a, 0) < val_at(b, 0),
    decreases i,
{
    if i > 0 {
        lemma_val_at_expand(a, i - 1);
        lemma_val_at_expand(b, i - 1);
        let va = val_at(a, i);
        let vb = val_at(b, i);
        lemma_mul_inequality(va + 1, vb, 0x1_0000_0000_0000_0000);
        assert((va + 1) * 0x1_0000_0000_0000_0000 == 0x1_0000_0000_0000_0000 * va
            + 0x1_0000_0000_0000_0000) by (nonlinear_arith);
        assert(vb * 0x1_0000_0000_0000_0000 == 0x1_0000_0000_0000_0000 * vb) by (nonlinear_arith);
        assert(limb(a, i - 1) < 0x1_0000_0000_0000_0000);
        assert(limb(b, i - 1) >= 0);
        lemma_val_at_lt(a, b, i - 1);
    }
}

/// A one-limb number.
pub fn big_from_u64(x: u64) -> (r: Vec<u64>)
    ensures
        val(r@) == x,
{
    let mut v: Vec<u64> = Vec::new();
    proof {
        lemma_val_at_push(Seq::<u64>::empty(), x, 0);
        lemma_pow_b_zero();
    }
    v.push(x);
    v
}

/// `a * s + c`, exactly.
pub fn big_mul_small_add(a: &Vec<u64>, s: u64, c: u64) -> (r: Vec<u64>)
    ensures
        val(r@) == val(a@) * s + c,
{
    let mut out: Vec<u64> = Vec::new();
    let mut carry: u64 = c;
    let mut i: usize = 0;
    proof {
        lemma_pow_b_zero();
        assert((val_at(a@, 0) - 1 * val_at(a@, 0)) * s == 0) by (nonlinear_arith);
    }
    while i < a.len()
        invariant
            i <= a.len(),
            out@.len() == i,
            val_at(out@, 0) + carry * pow_b(i as nat) == (val_at(a@, 0) - pow_b(i as nat) * val_at(
                a@,
                i as int,
            )) * s + c,
        decreases a.len() - i,
    {
        proof {
            assert((a[i as int] as u128) * (s as u128) <= 0xFFFF_FFFF_FFFF_FFFFu128
                * 0xFFFF_FFFF_FFFF_FFFFu128) by (nonlinear_arith)
                requires
                    a[i as int] <= 0xFFFF_FFFF_FFFF_FFFFu64,
                    s <= 0xFFFF_FFFF_FFFF_FFFFu64,
            ;
        }
        let wide: u128 = (a[i] as u128) * (s as u128) + (carry as u128);
        let lo: u64 = (wide % 0x1_0000_0000_0000_0000u128) as u64;
        let hi: u64 = (wide / 0x1_0000_0000_0000_0000u128) as u64;
        proof {
            lemma_fundamental_div_mod(wide as int, 0x1_0000_0000_0000_0000);
            assert(wide < 0x1_0000_0000_0000_0000u128 * 0x1_0000_0000_0000_0000u128)
                by (nonlinear_arith)
                requires
                    wide <= 0xFFFF_FFFF_FFFF_FFFFu128 * 0xFFFF_FFFF_FFFF_FFFFu128
                        + 0xFFFF_FFFF_FFFF_FFFFu128,
            ;
            assert(wide / 0x1_0000_0000_0000_0000u128 < 0x1_0000_0000_0000_0000u128);
            lemma_val_at_push(out@, lo, 0);
            lemma_val_at_expand(a@, i as int);
            // regroup: the new limb and carry absorb a[i] * s into the prefix
            let p = pow_b(i as nat);
            let vn = val_at(a@, i as int + 1);
            lemma_pow_b_succ(i as nat);
            assert(pow_b((i + 1) as nat) == 0x1_0000_0000_0000_0000 * p);
            assert((lo + 0x1_0000_0000_0000_0000 * hi) == a[i as int] * s + carry);
            assert(val_at(out@, 0) + lo * p + hi * (0x1_0000_0000_0000_0000 * p) == val_at(out@, 0)
                + carry * p + (a[i as int] * s) * p) by (nonlinear_arith)
                requires
                    lo + 0x1_0000_0000_0000_0000 * hi == a[i as int] * s + carry,
            ;
            assert((val_at(a@, 0) - p * (a[i as int] + 0x1_0000_0000_0000_0000 * vn)) * s + (
            a[i as int] * s) * p == (val_at(a@, 0) - (0x1_0000_0000_0000_0000 * p) * vn) * s)
                by (nonlinear_arith);
        }
        out.push(lo);
        carry = hi;
        i = i + 1;
    }
    if carry > 0 {
        proof {
            lemma_val_at_push(out@, carry, 0);
        }
        out.push(carry);
    }
    out
}

/// `a - b`, exactly; `b` must not exceed `a`.
pub fn big_sub(a: &Vec<u64>, b: &Vec<u64>) -> (r: Vec<u64>)
    requires
        val(b@) <= val(a@),
    ensures
        val(r@) == val(a@) - val(b@),
{
    let n: usize = if a.len() > b.len() {
        a.len()
    } else {
        b.len()
    };
    let mut out: Vec<u64> = Vec::new();
    let mut borrow: u64 = 0;
    let mut i: usize = 0;
    proof {
        lemma_pow_b_zero();
    }
    while i < n
        invariant
            i <= n,
            n == if a@.len() > b@.len() {
                a@.len()
            } else {
                b@.len()
            },
            borrow <= 1,
            out@.len() == i,
            val_at(out@, 0) - borrow * pow_b(i as nat) == (val_at(a@, 0) - pow_b(i as nat) * val_at(
                a@,
                i as int,
            )) - (val_at(b@, 0) - pow_b(i as nat) * val_at(b@, i as int)),
        decreases n - i,
    {
        let av: u64 = if i < a.len() {
            a[i]
        } else {
            0
        };
        let bv: u64 = if i < b.len() {
            b[i]
        } else {
            0
        };
        let need: u128 = (bv as u128) + (borrow as u128);
        let lo: u64;
        let nb: u64;
        if (av as u128) >= need {
            lo = ((av as u128) - need) as u64;
            nb = 0;
        } else {
            lo = ((av as u128) + 0x1_0000_0000_0000_0000u128 - need) as u64;
            nb = 1;
        }
        proof {
            assert(lo - nb * 0x1_0000_0000_0000_0000 == av - bv - borrow);
            lemma_val_at_push(out@, lo, 0);
            lemma_val_at_expand(a@, i as int);
            lemma_val_at_expand(b@, i as int);
            let p = pow_b(i as nat);
            let van = val_at(a@, i as int + 1);
            let vbn = val_at(b@, i as int + 1);
            lemma_pow_b_succ(i as nat);
            assert(pow_b((i + 1) as nat) == 0x1_0000_0000_0000_0000 * p);
            assert(av == limb(a@, i as int));
            assert(bv == limb(b@, i as int));
            assert(val_at(out@, 0) + lo * p - nb * (0x1_0000_0000_0000_0000 * p) == val_at(out@, 0)
                - borrow * p + (av - bv) * p) by (nonlinear_arith)
                requires
                    lo - nb * 0x1_0000_0000_0000_0000 == av - bv - borrow,
            ;
            assert((val_at(a@, 0) - p * (av + 0x1_0000_0000_0000_0000 * van)) - (val_at(b@, 0) - p
                * (bv + 0x1_0000_0000_0000_0000 * vbn)) + (av - bv) * p == (val_at(a@, 0) - (
            0x1_0000_0000_0000_0000 * p) * van) - (val_at(b@, 0) - (0x1_0000_0000_0000_0000 * p)
                * vbn)) by (nonlinear_arith);
        }
        out.push(lo);
        borrow = nb;
        i = i + 1;
    }
    proof {
        assert(val_at(a@, n as int) == 0);
        assert(val_at(b@, n as int) == 0);
        if borrow == 1 {
            lemma_val_at_bound(out@, 0);
            lemma_val_at_nonneg(out@, 0);
            assert(val_at(out@, 0) == val_at(a@, 0) - val_at(b@, 0) + pow_b(n as nat));
            assert(false);
        }
    }
    out
}

/// Whether `a <= b` as numbers.
pub fn big_le(a: &Vec<u64>, b: &Vec<u64>) -> (r: bool)
    ensures
        r == (val(a@) <= val(b@)),
{
    let n: usize = if a.len() > b.len() {
        a.len()
    } else {
        b.len()
    };
    let mut i: usize = n;
    while i > 0
        invariant
            i <= n,
            val_at(a@, i as int) == val_at(b@, i as int),
        decreases i,
    {
        let av: u64 = if i - 1 < a.len() {
            a[i - 1]
        } else {
            0
        };
        let bv: u64 = if i - 1 < b.len() {
            b[i - 1]
        } else {
            0
        };
        proof {
            lemma_val_at_expand(a@, i - 1);
            lemma_val_at_expand(b@, i - 1);
        }
        if av < bv {
            proof {
                lemma_val_at_lt(a@, b@, i - 1);
            }
            return true;
        }
        if av > bv {
            proof {
                lemma_val_at_lt(b@, a@, i - 1);
            }
            return false;
        }
        i = i - 1;
    }
    true
}

/// `round(n / d)` to the nearest integer, halves up, by repeated
/// subtraction; exact for every admissible input.
pub fn big_div_round(n: Vec<u64>, d: &Vec<u64>) -> (q: u64)
    requires
        1 <= val(d@),
        val(n@) < val(d@) * 0x8000_0000_0000_0000,
    ensures
        q == rounded_div(val(n@), val(d@)),
{
    let ghost nv = val(n@);
    let ghost dv = val(d@);
    let mut rem: Vec<u64> = n;
    let mut q: u64 = 0;
    proof {
        lemma_val_at_nonneg(rem@, 0);
    }
    while big_le(d, &rem)
        invariant
            1 <= dv,
            dv == val(d@),
            nv < dv * 0x8000_0000_0000_0000,
            val_at(rem@, 0) >= 0,
            nv == q * dv + val_at(rem@, 0),
        decreases val_at(rem@, 0),
    {
        proof {
            assert((q + 1) * dv == q * dv + dv) by (nonlinear_arith);
            assert(q + 1 < 0x8000_0000_0000_0000) by (nonlinear_arith)
                requires
                    (q + 1) * dv <= nv,
                    nv < dv * 0x8000_0000_0000_0000,
                    1 <= dv,
                    0 <= q,
            ;
        }
        rem = big_sub(&rem, d);
        q = q + 1;
        proof {
            lemma_val_at_nonneg(rem@, 0);
            assert(q * dv == (q - 1) * dv + dv) by (nonlinear_arith);
        }
    }
    proof {
        lemma_fundamental_div_mod_converse(nv, dv, q as int, val_at(rem@, 0));
        assert(q < 0x8000_0000_0000_0000) by (nonlinear_arith)
            requires
                q * dv + val_at(rem@, 0) == nv,
                val_at(rem@, 0) >= 0,
                nv < dv * 0x8000_0000_0000_0000,
                1 <= dv,
                0 <= q,
        ;
    }
    let two_rem: Vec<u64> = big_mul_small_add(&rem, 2, 0);
    if big_le(d, &two_rem) {
        q + 1
    } else {
        q
    }
}

} // verus!
