//! Revolving-loan amortization engine.
//!
//! All monetary quantities are exact integers in whole currency units.
//! An annual interest rate is given in hundredths of a percent
//! (`1800` means `18.00%`), so the monthly simple rate is the exact
//! rational `rate / 120_000` and per-period interest can be truncated
//! (floored) without any floating-point arithmetic.

use vstd::prelude::*;
use vstd::arithmetic::div_mod::{lemma_div_is_ordered, lemma_div_multiples_vanish};
use vstd::arithmetic::mul::{lemma_mul_inequality, lemma_mul_strict_inequality};
use vstd::arithmetic::power::{pow, lemma_pow0, lemma_pow1, lemma_pow_adds, lemma_pow_positive};
use crate::bignum::{big_from_u64, big_mul_small_add, big_sub, big_le, big_div_round, val,
    rounded_div};

verus! {

/// Interest accrued in one period on `balance` at annual rate `rate`
/// (hundredths of a percent): `floor(balance * rate / 12 / 100 / 100)`.
pub open spec fn interest_of(balance: int, rate: int) -> int {
    balance * rate / 120_000
}

/// The monthly simple rate in millionths: `floor(rate / 12 / 100 * 1_000_000)`
/// for an annual rate in hundredths of a percent (`1800` gives `15_000`,
/// that is 0.015).
pub open spec fn simple_ppm(rate: int) -> int {
    rate * 1_000_000 / 120_000
}

/// Whether `m` (in hundredths of a percent) does not exceed the exact
/// monthly compound rate for annual rate `rate`: the rate `m / 10_000`,
/// compounded twelve times, stays within the annual factor
/// `1 + rate / 10_000`.
pub open spec fn compound_le(rate: int, m: int) -> bool {
    pow(10_000 + m, 12) <= (10_000 + rate) * pow(10_000, 11)
}

/// The closed-form level payment that amortizes `total` over `count`
/// periods at monthly rate `rate / 120_000`, rounded to the nearest
/// unit: `round(total * r * (1+r)^count / ((1+r)^count - 1))` written
/// over the common denominator `120_000^count`.
pub open spec fn solved_payment(total: int, rate: int, count: nat) -> int {
    rounded_div(
        total * rate * pow(120_000 + rate, count),
        120_000 * (pow(120_000 + rate, count) - pow(120_000, count)),
    )
}

/// One line of a repayment schedule. `rest` is the balance before this
/// period's payment, `next_rest` the balance after it; `amount` is the
/// payment actually applied (0 for the initial line), `principal` the
/// part of it that retires debt, and `interest_amount` the interest
/// accrued this period. `next_interest_amount` caches the interest the
/// following period will accrue on `next_rest`.
#[derive(Debug)]
pub struct Row {
    pub turn: usize,
    pub rest: u64,
    pub next_rest: u64,
    pub amount: u64,
    pub principal: u64,
    pub interest_amount: u64,
    pub next_interest_amount: u64,
}

/// A complete repayment plan: the ordered schedule plus its aggregates.
/// `annual_interest` is in hundredths of a percent, `monthly_interest`
/// is the monthly simple rate in millionths (display only; the
/// simulation always applies the exact rational `annual_interest / 120_000`).
#[derive(Debug)]
pub struct LoanRevolver {
    pub total_amount: u64,
    pub total_interest_amount: u64,
    pub total_months: usize,
    pub annual_interest: u64,
    pub monthly_interest: u64,
    pub monthly_compound_interest: u64,
    pub rows: Vec<Row>,
}

/// Failure kinds of the engine, as a closed tagged variant so callers
/// can branch on the failure kind.
#[derive(Debug)]
pub enum LoanRevolverError {
    /// The proposed payment does not exceed first-period interest;
    /// the loan would never amortize.
    NotEnough,
    /// Malformed or out-of-domain numeric arguments.
    InvalidInput,
    /// A mode selector that does not match a known mode.
    UnsupportedMode,
    /// Any other failure, described in text.
    Other(String),
}

pub open spec fn sum_amount(rows: Seq<Row>) -> int
    decreases rows.len(),
{
    if rows.len() == 0 {
        0
    } else {
        sum_amount(rows.drop_last()) + rows.last().amount
    }
}

pub open spec fn sum_interest(rows: Seq<Row>) -> int
    decreases rows.len(),
{
    if rows.len() == 0 {
        0
    } else {
        sum_interest(rows.drop_last()) + rows.last().interest_amount
    }
}

pub open spec fn sum_principal(rows: Seq<Row>) -> int
    decreases rows.len(),
{
    if rows.len() == 0 {
        0
    } else {
        sum_principal(rows.drop_last()) + rows.last().principal
    }
}

/// The initial schedule line: the full debt outstanding, nothing paid,
/// and the first period's interest already cached.
pub open spec fn row_zero_ok(rows: Seq<Row>, total: int, rate: int) -> bool {
    &&& rows[0].turn == 0
    &&& rows[0].rest == total
    &&& rows[0].next_rest == total
    &&& rows[0].amount == 0
    &&& rows[0].principal == 0
    &&& rows[0].interest_amount == 0
    &&& rows[0].next_interest_amount == interest_of(total, rate)
}

/// How line `k` (for `k >= 1`) follows from line `k - 1`: the cached
/// interest is applied to the carried balance, the payment is
/// subtracted, and in the terminal period the payment is clamped to
/// exactly the accrued balance so the plan ends at zero.
pub open spec fn row_step_ok(rows: Seq<Row>, k: int, rate: int, amount: int) -> bool {
    let prev = rows[k - 1];
    let cur = rows[k];
    let i = interest_of(prev.next_rest as int, rate);
    &&& cur.turn == k
    &&& cur.rest == prev.next_rest
    &&& cur.interest_amount == i
    &&& cur.interest_amount == prev.next_interest_amount
    &&& (if prev.next_rest + i > amount {
            &&& cur.amount == amount
            &&& cur.next_rest == prev.next_rest + i - amount
        } else {
            &&& cur.amount == prev.next_rest + i
            &&& cur.next_rest == 0
        })
    &&& cur.principal == cur.amount - cur.interest_amount
    &&& cur.next_interest_amount == interest_of(cur.next_rest as int, rate)
}

/// What `by_per_month(total, rate, amount)` promises of a returned plan:
/// the inputs were admissible, the schedule starts at the full debt,
/// every line follows from its predecessor, only the final line reaches
/// a zero balance, and the aggregates are the exact column sums, with
/// the payments covering the debt plus all interest and the principal
/// column retiring the debt exactly.
pub open spec fn plan_ok(p: LoanRevolver, total: int, rate: int, amount: int) -> bool {
    &&& 0 <= total < 0x1_0000_0000
    &&& 0 <= rate <= 120_000
    &&& 0 <= amount
    &&& total == 0 || interest_of(total, rate) < amount
    &&& p.rows.len() >= 1
    &&& row_zero_ok(p.rows@, total, rate)
    &&& (forall|k: int| 1 <= k < p.rows@.len() ==> #[trigger] row_step_ok(p.rows@, k, rate, amount))
    &&& (forall|k: int| 1 <= k < p.rows@.len() - 1 ==> #[trigger] p.rows@[k].next_rest > 0)
    &&& p.rows@.last().next_rest == 0
    &&& p.total_months == p.rows@.len() - 1
    &&& p.total_amount == sum_amount(p.rows@)
    &&& p.total_interest_amount == sum_interest(p.rows@)
    &&& sum_principal(p.rows@) == total
    &&& p.total_amount == total + p.total_interest_amount
    &&& p.annual_interest == rate
    &&& p.monthly_interest == simple_ppm(rate)
    &&& compound_le(rate, p.monthly_compound_interest as int)
    &&& !compound_le(rate, p.monthly_compound_interest as int + 1)
}

proof fn lemma_interest_mono(b1: int, b2: int, rate: int)
    requires
        0 <= b1 <= b2,
        0 <= rate,
    ensures
        interest_of(b1, rate) <= interest_of(b2, rate),
{
    lemma_mul_inequality(b1, b2, rate);
    lemma_div_is_ordered(b1 * rate, b2 * rate, 120_000);
}

proof fn lemma_interest_le_balance(b: int, rate: int)
    requires
        0 <= b,
        0 <= rate <= 120_000,
    ensures
        0 <= interest_of(b, rate) <= b,
{
    lemma_mul_inequality(rate, 120_000, b);
    assert(rate * b == b * rate) by (nonlinear_arith);
    assert(120_000 * b == b * 120_000) by (nonlinear_arith);
    lemma_div_is_ordered(b * rate, b * 120_000, 120_000);
    lemma_div_multiples_vanish(b, 120_000);
    assert(b * rate >= 0) by (nonlinear_arith)
        requires
            0 <= b,
            0 <= rate,
    ;
    lemma_div_is_ordered(0, b * rate, 120_000);
}

proof fn lemma_sums_push(rows: Seq<Row>, r: Row)
    ensures
        sum_amount(rows.push(r)) == sum_amount(rows) + r.amount,
        sum_interest(rows.push(r)) == sum_interest(rows) + r.interest_amount,
        sum_principal(rows.push(r)) == sum_principal(rows) + r.principal,
{
    assert(rows.push(r).drop_last() =~= rows);
    assert(rows.push(r).last() == r);
}

proof fn lemma_pow_base_mono(b1: int, b2: int, e: nat)
    requires
        1 <= b1 <= b2,
    ensures
        pow(b1, e) <= pow(b2, e),
    decreases e,
{
    if e == 0 {
        lemma_pow0(b1);
        lemma_pow0(b2);
    } else {
        lemma_pow_base_mono(b1, b2, (e - 1) as nat);
        lemma_pow1(b1);
        lemma_pow1(b2);
        lemma_pow_adds(b1, (e - 1) as nat, 1);
        lemma_pow_adds(b2, (e - 1) as nat, 1);
        lemma_pow_positive(b1, (e - 1) as nat);
        lemma_pow_positive(b2, (e - 1) as nat);
        lemma_mul_inequality(pow(b1, (e - 1) as nat), pow(b2, (e - 1) as nat), b1);
        lemma_mul_inequality(b1, b2, pow(b2, (e - 1) as nat));
        assert(pow(b1, (e - 1) as nat) * b1 == b1 * pow(b1, (e - 1) as nat)) by (nonlinear_arith);
        assert(pow(b2, (e - 1) as nat) * b1 == b1 * pow(b2, (e - 1) as nat)) by (nonlinear_arith);
        assert(b2 * pow(b2, (e - 1) as nat) == pow(b2, (e - 1) as nat) * b2) by (nonlinear_arith);
    }
}

proof fn lemma_pow_diff_lower(a: int, b: int, e: nat)
    requires
        1 <= b < a,
        1 <= e,
    ensures
        pow(a, e) - pow(b, e) >= pow(a, (e - 1) as nat) * (a - b),
    decreases e,
{
    lemma_pow1(a);
    lemma_pow1(b);
    if e == 1 {
        lemma_pow0(a);
        lemma_pow0(b);
    } else {
        lemma_pow_diff_lower(a, b, (e - 1) as nat);
        lemma_pow_adds(a, (e - 2) as nat, 1);
        lemma_pow_adds(a, (e - 1) as nat, 1);
        lemma_pow_adds(b, (e - 1) as nat, 1);
        lemma_pow_positive(a, (e - 2) as nat);
        lemma_pow_positive(b, (e - 1) as nat);
        let pa1 = pow(a, (e - 1) as nat);
        let pa2 = pow(a, (e - 2) as nat);
        let pb1 = pow(b, (e - 1) as nat);
        // a^e - b^e == a * (a^(e-1) - b^(e-1)) + (a - b) * b^(e-1)
        assert(pa1 * a - pb1 * b == a * (pa1 - pb1) + (a - b) * pb1) by (nonlinear_arith);
        assert(a * (pa1 - pb1) >= a * (pa2 * (a - b))) by (nonlinear_arith)
            requires
                pa1 - pb1 >= pa2 * (a - b),
                a >= 1,
        ;
        assert(a * (pa2 * (a - b)) == (a * pa2) * (a - b)) by (nonlinear_arith);
        assert((a - b) * pb1 >= 0) by (nonlinear_arith)
            requires
                a - b >= 1,
                pb1 >= 1,
        ;
        assert(pa1 == pa2 * a);
        assert(a * pa2 == pa2 * a) by (nonlinear_arith);
        assert(pow(a, e) == pa1 * a);
        assert(pow(b, e) == pb1 * b);
    }
}

proof fn lemma_compound_le_bound(rate: int, m: int)
    requires
        0 <= rate,
        1 <= m,
        compound_le(rate, m),
    ensures
        m <= rate,
{
    lemma_pow_base_mono(10_000, 10_000 + m, 11);
    lemma_pow1(10_000 + m);
    lemma_pow_adds(10_000 + m, 11, 1);
    lemma_pow_positive(10_000, 11);
    let pm = pow(10_000 + m, 11);
    let pb = pow(10_000, 11);
    assert(pow(10_000 + m, 12) == pm * (10_000 + m));
    lemma_mul_inequality(pb, pm, 10_000 + m);
    assert((10_000 + m) * pb == pb * (10_000 + m)) by (nonlinear_arith);
    assert(m <= rate) by (nonlinear_arith)
        requires
            (10_000 + m) * pb <= (10_000 + rate) * pb,
            pb >= 1,
    ;
}

proof fn lemma_plan_rest_bounded(p: LoanRevolver, total: int, rate: int, amount: int, k: int)
    requires
        plan_ok(p, total, rate, amount),
        0 <= k < p.rows@.len(),
    ensures
        p.rows@[k].next_rest <= total,
        k >= 1 ==> p.rows@[k].next_rest <= p.rows@[k - 1].next_rest,
    decreases k,
{
    if k >= 1 {
        lemma_plan_rest_bounded(p, total, rate, amount, k - 1);
        assert(row_step_ok(p.rows@, k, rate, amount));
        let prev = p.rows@[k - 1];
        let i = interest_of(prev.next_rest as int, rate);
        lemma_interest_le_balance(prev.next_rest as int, rate);
        if prev.next_rest + i > amount {
            assert(total > 0);
            lemma_interest_mono(prev.next_rest as int, total, rate);
        }
    }
}

/// Law: in every plan the engine admits, the `next_rest` column never
/// increases from one line to the next, and its last entry is exactly
/// zero — the final clamped payment retires the debt with no overshoot.
pub proof fn lemma_balance_non_increasing(p: LoanRevolver, total: int, rate: int, amount: int)
    requires
        plan_ok(p, total, rate, amount),
    ensures
        forall|k: int|
            0 <= k < p.rows@.len() - 1 ==> #[trigger] p.rows@[k + 1].next_rest
                <= p.rows@[k].next_rest,
        p.rows@[p.rows@.len() - 1].next_rest == 0,
{
    assert forall|k: int|
        0 <= k < p.rows@.len() - 1 implies #[trigger] p.rows@[k + 1].next_rest
        <= p.rows@[k].next_rest by {
        lemma_plan_rest_bounded(p, total, rate, amount, k + 1);
    };
}

/// Per-period interest: `floor(balance * rate / 120_000)`, the one
/// truncation policy of the whole engine (fractional interest is
/// dropped, never rounded or carried).
pub fn compute_interest(balance: u64, rate: u64) -> (r: u64)
    requires
        balance * rate <= u64::MAX,
    ensures
        r == interest_of(balance as int, rate as int),
{
    (balance * rate) / 120_000
}

fn pow12_le(x: u64, target: &Vec<u64>) -> (r: bool)
    ensures
        r == (pow(x as int, 12) <= val(target@)),
{
    let mut p: Vec<u64> = big_from_u64(1);
    let mut j: u64 = 0;
    proof {
        lemma_pow0(x as int);
    }
    while j < 12
        invariant
            j <= 12,
            val(p@) == pow(x as int, j as nat),
        decreases 12 - j,
    {
        p = big_mul_small_add(&p, x, 0);
        proof {
            lemma_pow1(x as int);
            lemma_pow_adds(x as int, j as nat, 1);
        }
        j = j + 1;
    }
    big_le(&p, target)
}

impl LoanRevolver {
    /// The annual-to-monthly simple conversion `rate / 12 / 100`,
    /// reported in millionths and truncated there (`1800`, that is
    /// 18.00% a year, gives `15_000`, that is 0.015 a month).
    pub fn annual_to_monthly_simple_interest(rate: u64) -> (r: u64)
        requires
            rate <= 120_000,
        ensures
            r == simple_ppm(rate as int),
    {
        (rate * 1_000_000) / 120_000
    }

    /// The annual-to-monthly compound conversion: the largest rate `m`
    /// in hundredths of a percent whose twelvefold compounding stays
    /// within the annual factor — that is, the exact real rate
    /// `(1 + rate/10^4)^(1/12) - 1`, scaled by `10^4` and truncated
    /// (floored, never rounded). Display only; it never feeds the
    /// simulation.
    pub fn annual_to_monthly_compound_interest(rate: u64) -> (m: u64)
        requires
            rate <= 120_000,
        ensures
            compound_le(rate as int, m as int),
            !compound_le(rate as int, m as int + 1),
            m <= rate,
    {
        let mut target: Vec<u64> = big_from_u64(10_000 + rate);
        let mut j: u64 = 0;
        proof {
            lemma_pow0(10_000);
        }
        while j < 11
            invariant
                j <= 11,
                rate <= 120_000,
                val(target@) == (10_000 + rate) * pow(10_000, j as nat),
            decreases 11 - j,
        {
            target = big_mul_small_add(&target, 10_000, 0);
            proof {
                lemma_pow1(10_000);
                lemma_pow_adds(10_000, j as nat, 1);
                assert(((10_000 + rate) * pow(10_000, j as nat)) * 10_000 == (10_000 + rate) * (pow(
                    10_000,
                    j as nat,
                ) * 10_000)) by (nonlinear_arith);
            }
            j = j + 1;
        }
        let mut m: u64 = 0;
        proof {
            lemma_pow1(10_000);
            lemma_pow_adds(10_000, 11, 1);
            lemma_pow_positive(10_000, 11);
            lemma_mul_inequality(10_000, 10_000 + rate, pow(10_000, 11));
            assert(pow(10_000, 11) * 10_000 == 10_000 * pow(10_000, 11)) by (nonlinear_arith);
        }
        while pow12_le(10_000 + m + 1, &target)
            invariant
                rate <= 120_000,
                m <= rate,
                compound_le(rate as int, m as int),
                val(target@) == (10_000 + rate) * pow(10_000, 11),
            decreases rate - m,
        {
            proof {
                lemma_compound_le_bound(rate as int, m as int + 1);
            }
            m = m + 1;
        }
        m
    }

    /// The closed-form level payment for `raw_count` periods, computed
    /// exactly over integers and rounded to the nearest unit (a policy
    /// deliberately distinct from the floor used for interest accrual).
    pub fn compute_per_month(total_raw: u64, year_rate: u64, raw_count: u64) -> (r: u64)
        requires
            total_raw < 0x1_0000_0000,
            1 <= year_rate <= 120_000,
            1 <= raw_count,
        ensures
            r == solved_payment(total_raw as int, year_rate as int, raw_count as nat),
    {
        let a_base: u64 = 120_000 + year_rate;
        let mut apow: Vec<u64> = big_from_u64(1);
        let mut bpow: Vec<u64> = big_from_u64(1);
        let mut i: u64 = 0;
        proof {
            lemma_pow0(a_base as int);
            lemma_pow0(120_000);
        }
        while i < raw_count
            invariant
                i <= raw_count,
                a_base == 120_000 + year_rate,
                year_rate <= 120_000,
                val(apow@) == pow(a_base as int, i as nat),
                val(bpow@) == pow(120_000, i as nat),
            decreases raw_count - i,
        {
            apow = big_mul_small_add(&apow, a_base, 0);
            bpow = big_mul_small_add(&bpow, 120_000, 0);
            proof {
                lemma_pow1(a_base as int);
                lemma_pow_adds(a_base as int, i as nat, 1);
                lemma_pow1(120_000);
                lemma_pow_adds(120_000, i as nat, 1);
            }
            i = i + 1;
        }
        let n1: Vec<u64> = big_mul_small_add(&apow, total_raw, 0);
        let num: Vec<u64> = big_mul_small_add(&n1, year_rate, 0);
        proof {
            lemma_pow_base_mono(120_000, a_base as int, raw_count as nat);
        }
        let diff: Vec<u64> = big_sub(&apow, &bpow);
        let den: Vec<u64> = big_mul_small_add(&diff, 120_000, 0);
        proof {
            let c = raw_count as nat;
            let aa = a_base as int;
            let pa = pow(aa, c);
            let pb = pow(120_000, c);
            let pa1 = pow(aa, (c - 1) as nat);
            lemma_pow_diff_lower(aa, 120_000, c);
            lemma_pow_positive(aa, (c - 1) as nat);
            lemma_pow_positive(aa, c);
            lemma_pow1(aa);
            lemma_pow_adds(aa, (c - 1) as nat, 1);
            // the numerator equals total * rate * (1+r)-power
            assert((pa * total_raw) * year_rate == total_raw * year_rate * pa)
                by (nonlinear_arith);
            // the denominator equals 120_000 * (power difference)
            assert((pa - pb) * 120_000 == 120_000 * (pa - pb)) by (nonlinear_arith);
            // the denominator is at least one
            assert(pa1 * (aa - 120_000) >= 1) by (nonlinear_arith)
                requires
                    pa1 >= 1,
                    aa - 120_000 >= 1,
            ;
            // the quotient fits far below 2^63
            let x = year_rate * pa1;
            assert(year_rate * pa1 >= 1) by (nonlinear_arith)
                requires
                    year_rate >= 1,
                    pa1 >= 1,
            ;
            assert(pa1 * (aa - 120_000) == year_rate * pa1) by (nonlinear_arith)
                requires
                    aa - 120_000 == year_rate,
            ;
            assert(pa == pa1 * aa) by {
                assert(pow(aa, c) == pow(aa, (c - 1) as nat) * pow(aa, 1));
            };
            assert(total_raw * year_rate * (pa1 * aa) == (total_raw * aa) * (year_rate * pa1))
                by (nonlinear_arith);
            assert(total_raw * aa < 120_000 * 0x8000_0000_0000_0000int) by (nonlinear_arith)
                requires
                    total_raw < 0x1_0000_0000,
                    aa <= 240_000,
            ;
            lemma_mul_strict_inequality(total_raw * aa, 120_000 * 0x8000_0000_0000_0000int, x);
            assert((total_raw * aa) * x < (120_000 * 0x8000_0000_0000_0000int) * x);
            lemma_mul_inequality(x, pa - pb, 120_000 * 0x8000_0000_0000_0000int);
            assert((120_000 * 0x8000_0000_0000_0000int) * x == (x * 120_000)
                * 0x8000_0000_0000_0000) by (nonlinear_arith);
            assert((pa - pb) * (120_000 * 0x8000_0000_0000_0000int) == ((120_000 * (pa - pb))
                * 0x8000_0000_0000_0000)) by (nonlinear_arith);
            assert((x * 120_000) * 0x8000_0000_0000_0000 <= (120_000 * (pa - pb))
                * 0x8000_0000_0000_0000) by (nonlinear_arith)
                requires
                    x * 120_000 <= 120_000 * (pa - pb),
            ;
            assert(x * 120_000 == 120_000 * x) by (nonlinear_arith);
            assert(120_000 * x <= 120_000 * (pa - pb)) by (nonlinear_arith)
                requires
                    x <= pa - pb,
            ;
        }
        big_div_round(num, &den)
    }

    /// Builds the plan for `count` periods by solving for the level
    /// payment first; a zero period count or a zero rate has no
    /// closed-form payment and is rejected before any computation.
    pub fn by_times(total_raw: u64, year_rate: u64, count: u64) -> (r: Result<
        LoanRevolver,
        LoanRevolverError,
    >)
        requires
            total_raw < 0x1_0000_0000,
            year_rate <= 120_000,
        ensures
            ((count == 0 || year_rate == 0) <==> (r matches Err(e) && e is InvalidInput)),
            count >= 1 && year_rate >= 1 ==> (r is Ok <==> (total_raw == 0 || interest_of(
                total_raw as int,
                year_rate as int,
            ) < solved_payment(total_raw as int, year_rate as int, count as nat))),
            count >= 1 && year_rate >= 1 ==> (r matches Ok(p) ==> plan_ok(
                p,
                total_raw as int,
                year_rate as int,
                solved_payment(total_raw as int, year_rate as int, count as nat),
            )),
            count >= 1 && year_rate >= 1 ==> (r matches Err(e) ==> e is NotEnough),
    {
        if count == 0 || year_rate == 0 {
            return Err(LoanRevolverError::InvalidInput);
        }
        let amount: u64 = Self::compute_per_month(total_raw, year_rate, count);
        Self::by_per_month(total_raw, year_rate, amount)
    }

    /// Builds the period-by-period repayment plan for a debt of
    /// `total_raw` at annual rate `annual_interest` (hundredths of a
    /// percent) under a fixed payment of `amount_raw` per period.
    ///
    /// Fails with `NotEnough` exactly when the debt is positive and the
    /// first period's interest already swallows the whole payment; a
    /// zero debt always yields the one-line plan with zero aggregates.
    /// The bounds in `requires` are machine limits: they keep every
    /// intermediate product and every aggregate within `u64`.
    pub fn by_per_month(total_raw: u64, annual_interest: u64, amount_raw: u64) -> (r: Result<
        LoanRevolver,
        LoanRevolverError,
    >)
        requires
            total_raw < 0x1_0000_0000,
            annual_interest <= 120_000,
        ensures
            r is Ok <==> (total_raw == 0 || interest_of(
                total_raw as int,
                annual_interest as int,
            ) < amount_raw),
            r matches Err(e) ==> e is NotEnough,
            r matches Ok(p) ==> plan_ok(
                p,
                total_raw as int,
                annual_interest as int,
                amount_raw as int,
            ),
            r matches Ok(p) ==> sum_principal(p.rows@) == total_raw,
            r matches Ok(p) ==> p.total_amount == total_raw + p.total_interest_amount,
    {
        proof {
            lemma_interest_le_balance(total_raw as int, annual_interest as int);
            assert(total_raw * annual_interest <= 0x1_0000_0000 * 120_000int) by (nonlinear_arith)
                requires
                    total_raw < 0x1_0000_0000,
                    annual_interest <= 120_000,
            ;
        }
        let first_interest: u64 = compute_interest(total_raw, annual_interest);
        if total_raw > 0 && first_interest >= amount_raw {
            return Err(LoanRevolverError::NotEnough);
        }
        let mut rows: Vec<Row> = Vec::new();
        let row0 = Row {
            turn: 0,
            rest: total_raw,
            next_rest: total_raw,
            amount: 0,
            principal: 0,
            interest_amount: 0,
            next_interest_amount: first_interest,
        };
        proof {
            lemma_sums_push(Seq::<Row>::empty(), row0);
        }
        rows.push(row0);
        let mut rest: u64 = total_raw;
        let mut next_interest: u64 = first_interest;
        let mut turn: usize = 0;
        let mut acc_amount: u64 = 0;
        let mut acc_interest: u64 = 0;
        while rest > 0
            invariant
                total_raw < 0x1_0000_0000,
                annual_interest <= 120_000,
                rest <= total_raw,
                total_raw > 0 ==> interest_of(total_raw as int, annual_interest as int)
                    < amount_raw,
                rows@.len() == turn + 1,
                turn <= total_raw - rest,
                row_zero_ok(rows@, total_raw as int, annual_interest as int),
                forall|k: int|
                    1 <= k < rows@.len() ==> #[trigger] row_step_ok(
                        rows@,
                        k,
                        annual_interest as int,
                        amount_raw as int,
                    ),
                forall|k: int| 1 <= k < rows@.len() - 1 ==> #[trigger] rows@[k].next_rest > 0,
                rows@.last().next_rest == rest,
                rows@.last().next_interest_amount == next_interest,
                next_interest == interest_of(rest as int, annual_interest as int),
                acc_amount == sum_amount(rows@),
                acc_interest == sum_interest(rows@),
                sum_principal(rows@) == total_raw - rest,
                acc_amount == total_raw - rest + acc_interest,
                acc_interest <= (total_raw - rest) * total_raw,
            decreases rest,
        {
            proof {
                lemma_interest_le_balance(rest as int, annual_interest as int);
                lemma_interest_mono(rest as int, total_raw as int, annual_interest as int);
            }
            let interest: u64 = next_interest;
            let accrued: u64 = rest + interest;
            let pay: u64;
            let nxt: u64;
            if accrued > amount_raw {
                pay = amount_raw;
                nxt = accrued - amount_raw;
            } else {
                pay = accrued;
                nxt = 0;
            }
            let principal: u64 = pay - interest;
            turn = turn + 1;
            proof {
                lemma_interest_le_balance(nxt as int, annual_interest as int);
                assert(nxt * annual_interest <= 0x1_0000_0000 * 120_000int) by (nonlinear_arith)
                    requires
                        nxt < 0x1_0000_0000,
                        annual_interest <= 120_000,
                ;
            }
            next_interest = compute_interest(nxt, annual_interest);
            let row = Row {
                turn,
                rest,
                next_rest: nxt,
                amount: pay,
                principal,
                interest_amount: interest,
                next_interest_amount: next_interest,
            };
            let ghost prev_rows = rows@;
            rows.push(row);
            proof {
                lemma_sums_push(prev_rows, row);
                // the aggregate bound survives the step: the balance drops by
                // at least one while at most `total_raw` interest is added
                lemma_mul_inequality(
                    total_raw - rest + 1,
                    total_raw - nxt,
                    total_raw as int,
                );
                assert((total_raw - rest) * total_raw + total_raw == (total_raw - rest + 1)
                    * total_raw) by (nonlinear_arith);
                lemma_mul_inequality(total_raw - nxt, total_raw as int, total_raw as int);
                assert(total_raw + total_raw * total_raw <= 0xFFFF_FFFFu64 * 0x1_0000_0000int)
                    by (nonlinear_arith)
                    requires
                        total_raw < 0x1_0000_0000,
                ;
                assert(acc_interest + interest <= (total_raw - nxt) * total_raw);
                assert(acc_amount + pay == total_raw - nxt + (acc_interest + interest));
                assert(acc_amount + pay <= total_raw + total_raw * total_raw);
                assert forall|k: int|
                    1 <= k < rows@.len() implies #[trigger] row_step_ok(
                    rows@,
                    k,
                    annual_interest as int,
                    amount_raw as int,
                ) by {
                    if k < rows@.len() - 1 {
                        assert(row_step_ok(
                            prev_rows,
                            k,
                            annual_interest as int,
                            amount_raw as int,
                        ));
                        assert(rows@[k - 1] == prev_rows[k - 1]);
                        assert(rows@[k] == prev_rows[k]);
                    } else {
                        assert(rows@[k - 1] == prev_rows.last());
                        assert(rows@[k] == row);
                    }
                };
            }
            acc_amount = acc_amount + pay;
            acc_interest = acc_interest + interest;
            rest = nxt;
        }
        let months: usize = rows.len() - 1;
        let monthly: u64 = Self::annual_to_monthly_simple_interest(annual_interest);
        let compound: u64 = Self::annual_to_monthly_compound_interest(annual_interest);
        Ok(
            LoanRevolver {
                total_amount: acc_amount,
                total_interest_amount: acc_interest,
                total_months: months,
                annual_interest,
                monthly_interest: monthly,
                monthly_compound_interest: compound,
                rows,
            },
        )
    }
}

} // verus!
