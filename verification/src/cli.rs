//! The command surface of the engine: parsing plain-text arguments
//! into exact integer inputs, and rendering a finished plan as JSON.
//!
//! A rate argument such as `18.0` is read as a fixed-point number of
//! hundredths of a percent (`1800`); at most two fraction digits are
//! accepted, since the engine quantizes rates there. All output is
//! built character by character, so the whole pipeline from argument
//! text to JSON text is verified.

use vstd::prelude::*;
use vstd::arithmetic::div_mod::lemma_fundamental_div_mod;
use vstd::string::StrSliceExecFns;
use vstd::string::StringExecFns;
use crate::loan_revolver::{LoanRevolver, LoanRevolverError, Row, interest_of, plan_ok,
    solved_payment};

verus! {

/// The value of a decimal digit, with 10 marking a non-digit.
pub open spec fn digit_val(c: char) -> int {
    if c == '0' {
        0
    } else if c == '1' {
        1
    } else if c == '2' {
        2
    } else if c == '3' {
        3
    } else if c == '4' {
        4
    } else if c == '5' {
        5
    } else if c == '6' {
        6
    } else if c == '7' {
        7
    } else if c == '8' {
        8
    } else if c == '9' {
        9
    } else {
        10
    }
}

/// The character for a digit value; values outside 0..9 give '9'.
pub open spec fn digit_char(d: int) -> char {
    if d == 0 {
        '0'
    } else if d == 1 {
        '1'
    } else if d == 2 {
        '2'
    } else if d == 3 {
        '3'
    } else if d == 4 {
        '4'
    } else if d == 5 {
        '5'
    } else if d == 6 {
        '6'
    } else if d == 7 {
        '7'
    } else if d == 8 {
        '8'
    } else {
        '9'
    }
}

pub open spec fn all_digits(s: Seq<char>) -> bool {
    forall|j: int| 0 <= j < s.len() ==> digit_val(#[trigger] s[j]) < 10
}

/// The number denoted by a digit string, most significant first.
pub open spec fn dec_val(s: Seq<char>) -> int
    decreases s.len(),
{
    if s.len() == 0 {
        0
    } else {
        dec_val(s.drop_last()) * 10 + digit_val(s.last())
    }
}

/// The decimal rendering of a non-negative number.
pub open spec fn dec_str(n: int) -> Seq<char>
    decreases n,
{
    if n < 10 {
        seq![digit_char(n)]
    } else {
        dec_str(n / 10).push(digit_char(n % 10))
    }
}

/// A well-formed unsigned decimal argument whose value fits in `u64`.
pub open spec fn u64_ok(s: Seq<char>) -> bool {
    s.len() > 0 && all_digits(s) && dec_val(s) <= u64::MAX
}

/// The position of the first `.` in `s` at or after `i`, or `s.len()`.
pub open spec fn first_dot(s: Seq<char>, i: int) -> int
    decreases s.len() - i,
{
    if i < 0 || i >= s.len() {
        s.len() as int
    } else if s[i] == '.' {
        i
    } else {
        first_dot(s, i + 1)
    }
}

/// Reads a rate argument as hundredths of a percent: an integer part,
/// optionally followed by `.` and at most two fraction digits
/// (`18.25` gives `1825`; `18.2` gives `1820`; `18.` gives `1800`).
pub open spec fn rate_parse(s: Seq<char>) -> Option<int> {
    let k = first_dot(s, 0);
    if k == 0 {
        None
    } else if !all_digits(s.subrange(0, k)) {
        None
    } else if k == s.len() {
        Some(dec_val(s) * 100)
    } else if s.len() - k - 1 > 2 {
        None
    } else if !all_digits(s.subrange(k + 1, s.len() as int)) {
        None
    } else {
        Some(
            dec_val(s.subrange(0, k)) * 100 + dec_val(s.subrange(k + 1, s.len() as int)) * (
            if s.len() - k - 1 == 1 {
                10int
            } else {
                1int
            }),
        )
    }
}

proof fn lemma_dec_val_nonneg(s: Seq<char>)
    ensures
        all_digits(s) ==> dec_val(s) >= 0,
    decreases s.len(),
{
    if s.len() > 0 {
        lemma_dec_val_nonneg(s.drop_last());
        if all_digits(s) {
            assert(all_digits(s.drop_last()));
        }
    }
}

proof fn lemma_dec_val_mono(s: Seq<char>, i: int)
    requires
        all_digits(s),
        0 <= i <= s.len(),
    ensures
        dec_val(s) >= dec_val(s.subrange(0, i)),
    decreases s.len() - i,
{
    if i == s.len() {
        assert(s.subrange(0, i) =~= s);
    } else {
        lemma_dec_val_mono(s, i + 1);
        let t = s.subrange(0, i + 1);
        assert(t.drop_last() =~= s.subrange(0, i));
        lemma_dec_val_nonneg(t.drop_last());
        assert(all_digits(t.drop_last()));
        assert(dec_val(t) == dec_val(s.subrange(0, i)) * 10 + digit_val(s[i]));
        assert(dec_val(s.subrange(0, i)) * 10 >= dec_val(s.subrange(0, i))) by (nonlinear_arith)
            requires
                dec_val(s.subrange(0, i)) >= 0,
        ;
    }
}

/// The digit value of a character, or 10 where it is not a digit.
fn digit_of(c: char) -> (d: u64)
    ensures
        d == digit_val(c),
{
    match c {
        '0' => 0,
        '1' => 1,
        '2' => 2,
        '3' => 3,
        '4' => 4,
        '5' => 5,
        '6' => 6,
        '7' => 7,
        '8' => 8,
        '9' => 9,
        _ => 10,
    }
}

/// Reads an unsigned decimal number; `None` on an empty string, a
/// non-digit, or a value that does not fit in `u64`.
pub fn parse_u64(s: &str) -> (r: Option<u64>)
    ensures
        r is Some <==> u64_ok(s@),
        r matches Some(v) ==> v == dec_val(s@),
{
    let len: usize = s.unicode_len();
    if len == 0 {
        return None;
    }
    let mut i: usize = 0;
    let mut acc: u64 = 0;
    while i < len
        invariant
            i <= len,
            len == s@.len(),
            forall|j: int| 0 <= j < i ==> digit_val(#[trigger] s@[j]) < 10,
            acc == dec_val(s@.subrange(0, i as int)),
        decreases len - i,
    {
        let c: char = s.get_char(i);
        let d: u64 = digit_of(c);
        if d >= 10 {
            return None;
        }
        proof {
            assert(s@.subrange(0, i + 1).drop_last() =~= s@.subrange(0, i as int));
            lemma_dec_val_nonneg(s@.subrange(0, i as int));
        }
        proof {
            lemma_fundamental_div_mod((u64::MAX - d) as int, 10);
        }
        if acc > (u64::MAX - d) / 10 {
            proof {
                assert(acc * 10 + d > u64::MAX);
                if all_digits(s@) {
                    lemma_dec_val_mono(s@, i + 1);
                    assert(dec_val(s@.subrange(0, i + 1)) == acc * 10 + d);
                }
            }
            return None;
        }
        proof {
            assert(10 * ((u64::MAX - d) / 10) + (u64::MAX - d) % 10 == u64::MAX - d);
        }
        acc = acc * 10 + d;
        i = i + 1;
    }
    proof {
        assert(s@.subrange(0, len as int) =~= s@);
    }
    Some(acc)
}

/// Reads a rate argument into hundredths of a percent, as `rate_parse`
/// describes; `None` on malformed text or a value that does not fit.
pub fn parse_rate_centi(s: &str) -> (r: Option<u64>)
    ensures
        r is Some <==> (rate_parse(s@) matches Some(v) && v <= u64::MAX),
        r matches Some(c) ==> rate_parse(s@) == Some(c as int),
{
    let len: usize = s.unicode_len();
    let mut dot: usize = len;
    let mut i: usize = 0;
    while i < len
        invariant
            i <= len,
            dot <= len,
            len == s@.len(),
            dot == len ==> first_dot(s@, 0) == first_dot(s@, i as int),
            dot < len ==> first_dot(s@, 0) == dot,
        decreases len - i,
    {
        if dot == len {
            let c: char = s.get_char(i);
            if c == '.' {
                dot = i;
            }
        }
        i = i + 1;
    }
    proof {
        if dot == len {
            assert(first_dot(s@, len as int) == len);
        }
        assert(first_dot(s@, 0) == dot);
    }
    if dot == 0 {
        return None;
    }
    let ghost ip = s@.subrange(0, dot as int);
    let int_part: &str = s.substring_char(0, dot);
    let iv: u64 = match parse_u64(int_part) {
        Some(v) => v,
        None => {
            proof {
                if all_digits(ip) {
                    lemma_dec_val_nonneg(ip);
                    if dot == len {
                        assert(ip =~= s@);
                        assert(dec_val(s@) * 100 > u64::MAX) by (nonlinear_arith)
                            requires
                                dec_val(s@) > u64::MAX,
                        ;
                    } else {
                        let f = s@.subrange(dot + 1, len as int);
                        lemma_dec_val_nonneg(f);
                        match rate_parse(s@) {
                            Some(v) => {
                                assert(v > u64::MAX) by (nonlinear_arith)
                                    requires
                                        v == dec_val(ip) * 100 + dec_val(f) * (
                                        if s@.len() - dot - 1 == 1 {
                                            10int
                                        } else {
                                            1
                                        }),
                                        dec_val(ip) > u64::MAX,
                                        dec_val(f) >= 0,
                                ;
                            },
                            None => {},
                        }
                    }
                }
            }
            return None;
        },
    };
    let mut frac_scaled: u64 = 0;
    if dot < len {
        let fl: usize = len - dot - 1;
        if fl > 2 {
            return None;
        }
        if fl > 0 {
            let frac_part: &str = s.substring_char(dot + 1, len);
            let fv: u64 = match parse_u64(frac_part) {
                Some(v) => v,
                None => {
                    proof {
                        let f = s@.subrange(dot + 1, len as int);
                        if all_digits(f) {
                            if f.len() == 1 {
                                assert(f.drop_last() =~= Seq::<char>::empty());
                                assert(digit_val(f[0]) < 10);
                                assert(dec_val(f) == digit_val(f.last()));
                            } else {
                                assert(f.drop_last().drop_last() =~= Seq::<char>::empty());
                                assert(digit_val(f[0]) < 10);
                                assert(digit_val(f[1]) < 10);
                                assert(dec_val(Seq::<char>::empty()) == 0);
                                assert(dec_val(f.drop_last().drop_last()) == 0);
                                assert(dec_val(f.drop_last()) == digit_val(f.drop_last().last()));
                                assert(dec_val(f) == dec_val(f.drop_last()) * 10 + digit_val(
                                    f.last(),
                                ));
                            }
                            assert(u64_ok(f));
                            assert(false);
                        }
                    }
                    return None;
                },
            };
            proof {
                let f = s@.subrange(dot + 1, len as int);
                if f.len() == 1 {
                    assert(f.drop_last() =~= Seq::<char>::empty());
                    assert(dec_val(Seq::<char>::empty()) == 0);
                    assert(digit_val(f[0]) < 10);
                    assert(dec_val(f) == dec_val(f.drop_last()) * 10 + digit_val(f.last()));
                    assert(dec_val(f) == digit_val(f.last()));
                    assert(fv <= 9);
                }
            }
            if fl == 1 {
                frac_scaled = fv * 10;
            } else {
                frac_scaled = fv;
            }
            proof {
                let f = s@.subrange(dot + 1, len as int);
                lemma_dec_val_nonneg(f);
                assert(frac_scaled == dec_val(f) * (
                if s@.len() - dot - 1 == 1 {
                    10int
                } else {
                    1
                }));
            }
        } else {
            proof {
                let f = s@.subrange(dot + 1, len as int);
                assert(f =~= Seq::<char>::empty());
                assert(dec_val(f) == 0);
            }
        }
    } else {
        proof {
            assert(ip =~= s@);
        }
    }
    proof {
        lemma_dec_val_nonneg(ip);
        match rate_parse(s@) {
            Some(v) => {
                assert(v == iv * 100 + frac_scaled);
            },
            None => {
                assert(false);
            },
        }
        lemma_fundamental_div_mod((u64::MAX - frac_scaled) as int, 100);
    }
    if iv > (u64::MAX - frac_scaled) / 100 {
        proof {
            assert(iv * 100 + frac_scaled > u64::MAX);
        }
        return None;
    }
    proof {
        assert(iv * 100 + frac_scaled <= u64::MAX);
    }
    Some(iv * 100 + frac_scaled)
}

fn push_digit(out: &mut String, d: u64)
    requires
        d < 10,
    ensures
        final(out)@ == old(out)@ + seq![digit_char(d as int)],
{
    proof {
        reveal_strlit("0");
        reveal_strlit("1");
        reveal_strlit("2");
        reveal_strlit("3");
        reveal_strlit("4");
        reveal_strlit("5");
        reveal_strlit("6");
        reveal_strlit("7");
        reveal_strlit("8");
        reveal_strlit("9");
    }
    match d {
        0 => out.append("0"),
        1 => out.append("1"),
        2 => out.append("2"),
        3 => out.append("3"),
        4 => out.append("4"),
        5 => out.append("5"),
        6 => out.append("6"),
        7 => out.append("7"),
        8 => out.append("8"),
        _ => out.append("9"),
    }
    proof {
        assert(final(out)@ =~= old(out)@ + seq![digit_char(d as int)]);
    }
}

/// Renders a number in decimal, proved against `dec_str`.
pub fn u64_to_string(n: u64) -> (s: String)
    ensures
        s@ == dec_str(n as int),
    decreases n,
{
    let d: u64 = n % 10;
    let mut s: String;
    if n >= 10 {
        s = u64_to_string(n / 10);
    } else {
        s = String::new();
    }
    push_digit(&mut s, d);
    proof {
        if n < 10 {
            assert(Seq::<char>::empty() + seq![digit_char(n as int)] =~= seq![
                digit_char(n as int),
            ]);
            assert(s@ =~= dec_str(n as int));
        } else {
            assert(dec_str(n as int / 10) + seq![digit_char(n as int % 10)] =~= dec_str(
                n as int / 10,
            ).push(digit_char(n as int % 10)));
            assert(s@ =~= dec_str(n as int));
        }
    }
    s
}

/// One schedule line as a JSON object, integer-valued fields only.
pub open spec fn json_of_row(r: Row) -> Seq<char> {
    "{\"turn\":"@ + dec_str(r.turn as int) + ",\"rest\":"@ + dec_str(r.rest as int)
        + ",\"next_rest\":"@ + dec_str(r.next_rest as int) + ",\"amount\":"@ + dec_str(
        r.amount as int,
    ) + ",\"principal\":"@ + dec_str(r.principal as int) + ",\"interest_amount\":"@ + dec_str(
        r.interest_amount as int,
    ) + ",\"next_interest_amount\":"@ + dec_str(r.next_interest_amount as int) + "}"@
}

/// The schedule lines from `i` on, comma-separated.
pub open spec fn json_of_rows(rows: Seq<Row>, i: int) -> Seq<char>
    decreases rows.len() - i,
{
    if i < 0 || i >= rows.len() {
        Seq::empty()
    } else if i == rows.len() - 1 {
        json_of_row(rows[i])
    } else {
        json_of_row(rows[i]) + ","@ + json_of_rows(rows, i + 1)
    }
}

/// A whole plan as one JSON object with its `rows` array.
pub open spec fn json_of(p: LoanRevolver) -> Seq<char> {
    "{\"total_amount\":"@ + dec_str(p.total_amount as int) + ",\"total_interest_amount\":"@
        + dec_str(p.total_interest_amount as int) + ",\"total_months\":"@ + dec_str(
        p.total_months as int,
    ) + ",\"annual_interest\":"@ + dec_str(p.annual_interest as int) + ",\"monthly_interest\":"@
        + dec_str(p.monthly_interest as int) + ",\"monthly_compound_interest\":"@ + dec_str(
        p.monthly_compound_interest as int,
    ) + ",\"rows\":["@ + json_of_rows(p.rows@, 0) + "]}"@
}

fn row_to_json(r: &Row) -> (s: String)
    ensures
        s@ == json_of_row(*r),
{
    let mut s: String = String::new();
    s.append("{\"turn\":");
    let t0: String = u64_to_string(r.turn as u64);
    s.append(t0.as_str());
    s.append(",\"rest\":");
    let t1: String = u64_to_string(r.rest);
    s.append(t1.as_str());
    s.append(",\"next_rest\":");
    let t2: String = u64_to_string(r.next_rest);
    s.append(t2.as_str());
    s.append(",\"amount\":");
    let t3: String = u64_to_string(r.amount);
    s.append(t3.as_str());
    s.append(",\"principal\":");
    let t4: String = u64_to_string(r.principal);
    s.append(t4.as_str());
    s.append(",\"interest_amount\":");
    let t5: String = u64_to_string(r.interest_amount);
    s.append(t5.as_str());
    s.append(",\"next_interest_amount\":");
    let t6: String = u64_to_string(r.next_interest_amount);
    s.append(t6.as_str());
    s.append("}");
    proof {
        assert(s@ =~= json_of_row(*r));
    }
    s
}

fn rows_to_json(rows: &Vec<Row>, i: usize) -> (s: String)
    requires
        i <= rows@.len(),
    ensures
        s@ == json_of_rows(rows@, i as int),
    decreases rows@.len() - i,
{
    if i >= rows.len() {
        let s: String = String::new();
        proof {
            assert(s@ =~= json_of_rows(rows@, i as int));
        }
        s
    } else {
        let mut s: String = row_to_json(&rows[i]);
        if i + 1 < rows.len() {
            s.append(",");
            let rest: String = rows_to_json(rows, i + 1);
            s.append(rest.as_str());
        }
        proof {
            assert(s@ =~= json_of_rows(rows@, i as int));
        }
        s
    }
}

impl LoanRevolver {
    /// Renders the plan as JSON, field for field, proved to equal the
    /// specification-level rendering `json_of`.
    pub fn to_json(&self) -> (s: String)
        ensures
            s@ == json_of(*self),
    {
        let mut s: String = String::new();
        s.append("{\"total_amount\":");
        let t0: String = u64_to_string(self.total_amount);
        s.append(t0.as_str());
        s.append(",\"total_interest_amount\":");
        let t1: String = u64_to_string(self.total_interest_amount);
        s.append(t1.as_str());
        s.append(",\"total_months\":");
        let t2: String = u64_to_string(self.total_months as u64);
        s.append(t2.as_str());
        s.append(",\"annual_interest\":");
        let t3: String = u64_to_string(self.annual_interest);
        s.append(t3.as_str());
        s.append(",\"monthly_interest\":");
        let t4: String = u64_to_string(self.monthly_interest);
        s.append(t4.as_str());
        s.append(",\"monthly_compound_interest\":");
        let t5: String = u64_to_string(self.monthly_compound_interest);
        s.append(t5.as_str());
        s.append(",\"rows\":[");
        let t6: String = rows_to_json(&self.rows, 0);
        s.append(t6.as_str());
        s.append("]}");
        proof {
            assert(s@ =~= json_of(*self));
        }
        s
    }
}

fn msg(text: &str) -> (s: String)
    ensures
        s@ == text@,
{
    let mut s: String = String::new();
    s.append(text);
    proof {
        assert(s@ =~= text@);
    }
    s
}

/// Whether four textual arguments name a runnable computation: a mode
/// starting with `a` (fixed payment) or `t` (fixed period count), a
/// debt below 2^32, a rate of at most 1200% a year, and a payment or
/// count that fits in `u64`.
pub open spec fn cli_ok(args: Seq<String>) -> bool {
    &&& args.len() == 4
    &&& args[0]@.len() >= 1
    &&& (args[0]@[0] == 'a' || args[0]@[0] == 't')
    &&& u64_ok(args[1]@)
    &&& dec_val(args[1]@) < 0x1_0000_0000
    &&& (rate_parse(args[2]@) matches Some(v) && v <= 120_000)
    &&& u64_ok(args[3]@)
}

pub open spec fn cli_debt(args: Seq<String>) -> int {
    dec_val(args[1]@)
}

pub open spec fn cli_rate(args: Seq<String>) -> int {
    match rate_parse(args[2]@) {
        Some(v) => v,
        None => 0,
    }
}

pub open spec fn cli_amt(args: Seq<String>) -> int {
    dec_val(args[3]@)
}

/// The whole command surface: reads the mode, the debt, the annual
/// rate and the payment (mode `a`) or period count (mode `t`), runs
/// the engine, and renders the plan as JSON; every malformed or
/// out-of-range argument, and every engine failure, yields `Err` with
/// a description.
pub fn work(args: Vec<String>) -> (r: Result<String, String>)
    ensures
        !cli_ok(args@) ==> r is Err,
        cli_ok(args@) && args@[0]@[0] == 'a' ==> ((r is Ok) <==> (cli_debt(args@) == 0
            || interest_of(cli_debt(args@), cli_rate(args@)) < cli_amt(args@))),
        cli_ok(args@) && args@[0]@[0] == 'a' ==> (r matches Ok(s) ==> (exists|p: LoanRevolver|
            plan_ok(p, cli_debt(args@), cli_rate(args@), cli_amt(args@)) && s@ == json_of(p))),
        cli_ok(args@) && args@[0]@[0] == 'a' ==> (r matches Err(e) ==> e@ == "NotEnough"@),
        cli_ok(args@) && args@[0]@[0] == 't' && (cli_amt(args@) == 0 || cli_rate(args@) == 0)
            ==> (r matches Err(e) && e@ == "InvalidInput"@),
        cli_ok(args@) && args@[0]@[0] == 't' && cli_amt(args@) >= 1 && cli_rate(args@) >= 1 ==> ((
        r is Ok) <==> (cli_debt(args@) == 0 || interest_of(cli_debt(args@), cli_rate(args@))
            < solved_payment(cli_debt(args@), cli_rate(args@), cli_amt(args@) as nat))),
        cli_ok(args@) && args@[0]@[0] == 't' && cli_amt(args@) >= 1 && cli_rate(args@) >= 1 ==> (
        r matches Ok(s) ==> (exists|p: LoanRevolver|
            plan_ok(
                p,
                cli_debt(args@),
                cli_rate(args@),
                solved_payment(cli_debt(args@), cli_rate(args@), cli_amt(args@) as nat),
            ) && s@ == json_of(p))),
        cli_ok(args@) && args@[0]@[0] == 't' && cli_amt(args@) >= 1 && cli_rate(args@) >= 1 ==> (
        r matches Err(e) ==> e@ == "NotEnough"@),
{
    if args.len() != 4 {
        return Err(msg("usage: <a|t> TOTAL_DEBT ANNUAL_INTEREST_RATE AMOUNT_OR_COUNT"));
    }
    if args[0].as_str().unicode_len() == 0 {
        return Err(msg("invalid Mode"));
    }
    let mode: char = args[0].as_str().get_char(0);
    let debt: u64 = match parse_u64(args[1].as_str()) {
        Some(v) => v,
        None => {
            return Err(msg("invalid debt"));
        },
    };
    if debt >= 0x1_0000_0000 {
        return Err(msg("invalid debt: out of range"));
    }
    let rate: u64 = match parse_rate_centi(args[2].as_str()) {
        Some(v) => v,
        None => {
            return Err(msg("invalid interest"));
        },
    };
    if rate > 120_000 {
        return Err(msg("invalid interest: out of range"));
    }
    let third: u64 = match parse_u64(args[3].as_str()) {
        Some(v) => v,
        None => {
            return Err(msg("invalid repayment"));
        },
    };
    let outcome: Result<LoanRevolver, LoanRevolverError> = if mode == 'a' {
        LoanRevolver::by_per_month(debt, rate, third)
    } else if mode == 't' {
        LoanRevolver::by_times(debt, rate, third)
    } else {
        Err(LoanRevolverError::UnsupportedMode)
    };
    match outcome {
        Ok(p) => {
            let rendered: String = p.to_json();
            proof {
                if mode == 'a' {
                    assert(plan_ok(p, cli_debt(args@), cli_rate(args@), cli_amt(args@)));
                } else {
                    assert(plan_ok(
                        p,
                        cli_debt(args@),
                        cli_rate(args@),
                        solved_payment(cli_debt(args@), cli_rate(args@), cli_amt(args@) as nat),
                    ));
                }
            }
            Ok(rendered)
        },
        Err(e) => {
            match e {
                LoanRevolverError::NotEnough => Err(msg("NotEnough")),
                LoanRevolverError::InvalidInput => Err(msg("InvalidInput")),
                LoanRevolverError::UnsupportedMode => Err(msg("invalid Mode")),
                LoanRevolverError::Other(text) => Err(text),
            }
        },
    }
}

} // verus!
