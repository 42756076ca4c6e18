use loan_revolver::loan_revolver::{LoanRevolver, LoanRevolverError};

#[test]
fn test_year_to_month_rate_2() {
    // 24.00% a year compounds to 1.80% a month, floored at two decimals
    let c = LoanRevolver::annual_to_monthly_compound_interest(2400);
    assert_eq!(c, 180);
}

#[test]
fn test_year_to_month_rate() {
    // 18.00% a year is 0.015 a month: 15_000 millionths
    assert_eq!(LoanRevolver::annual_to_monthly_simple_interest(1800), 15000);
}

#[test]
fn test_revolver_count() {
    assert_eq!(LoanRevolver::compute_per_month(1000000, 1800, 60), 25393);
}

#[test]
fn test_by_count() {
    let result = LoanRevolver::by_times(1000000, 1800, 11).unwrap();
    assert_eq!(result.total_months, 11);
}

#[test]
fn test_revolver_amount() {
    let expected_amounts: Vec<u64> = vec![
        1000000, 915000, 828725, 741155, 652272, 562056, 470486, 377543, 283206, 187454, 90265, 0,
    ];
    let result = LoanRevolver::by_per_month(1000000, 1800, 100000).unwrap();
    let actual_amounts: Vec<u64> = result.rows.iter().map(|r| r.next_rest).collect();
    assert_eq!(result.total_amount, 1091618);
    assert_eq!(result.total_interest_amount, 91618);
    assert_eq!(result.total_months, 11);
    assert_eq!(expected_amounts[..], actual_amounts[..]);

    let expected_amounts: Vec<u64> = vec![
        1000000, 965000, 929475, 893417, 856818, 819670, 781965, 743694, 704849, 665421, 625402,
        584783, 543554, 501707, 459232, 416120, 372361, 327946, 282865, 237107, 190663, 143522,
        95674, 47109, 0,
    ];
    let result = LoanRevolver::by_per_month(1000000, 1800, 50000).unwrap();
    let actual_amounts: Vec<u64> = result.rows.iter().map(|r| r.next_rest).collect();
    assert_eq!(result.total_amount, 1197815);
    assert_eq!(result.total_interest_amount, 197815);
    assert_eq!(result.total_months, 24);
    assert_eq!(expected_amounts[..], actual_amounts[..]);
}

#[test]
fn test_insufficient_payment_fails() {
    // first-period interest on 1_000_000 at 18% is exactly 15_000:
    // a payment that does not exceed it can never amortize
    let result = LoanRevolver::by_per_month(1000000, 1800, 15000);
    assert!(matches!(result, Err(LoanRevolverError::NotEnough)));
    let result = LoanRevolver::by_per_month(1000000, 1800, 0);
    assert!(matches!(result, Err(LoanRevolverError::NotEnough)));
    // one unit above the first-period interest is enough
    assert!(LoanRevolver::by_per_month(1000000, 1800, 15001).is_ok());
}

#[test]
fn test_zero_debt_one_row_plan() {
    let plan = LoanRevolver::by_per_month(0, 1800, 0).unwrap();
    assert_eq!(plan.total_months, 0);
    assert_eq!(plan.total_amount, 0);
    assert_eq!(plan.total_interest_amount, 0);
    assert_eq!(plan.rows.len(), 1);
    assert_eq!(plan.rows[0].rest, 0);
    assert_eq!(plan.rows[0].next_rest, 0);
    assert_eq!(plan.rows[0].amount, 0);
}

#[test]
fn test_by_times_rejects_zero_count_or_rate() {
    assert!(matches!(
        LoanRevolver::by_times(1000000, 1800, 0),
        Err(LoanRevolverError::InvalidInput)
    ));
    assert!(matches!(
        LoanRevolver::by_times(1000000, 0, 12),
        Err(LoanRevolverError::InvalidInput)
    ));
}

#[test]
fn test_principal_retires_debt_exactly() {
    // the principal column sums to the debt, and the payments cover
    // the debt plus all interest, with no rounding leakage
    let plan = LoanRevolver::by_per_month(1000000, 1800, 100000).unwrap();
    let principal_sum: u64 = plan.rows.iter().map(|r| r.principal).sum();
    assert_eq!(principal_sum, 1000000);
    let payment_sum: u64 = plan.rows.iter().map(|r| r.amount).sum();
    let interest_sum: u64 = plan.rows.iter().map(|r| r.interest_amount).sum();
    assert_eq!(payment_sum, plan.total_amount);
    assert_eq!(interest_sum, plan.total_interest_amount);
    assert_eq!(plan.total_amount, 1000000 + plan.total_interest_amount);
}

#[test]
fn test_balances_non_increasing_and_linked() {
    let plan = LoanRevolver::by_per_month(1000000, 1800, 50000).unwrap();
    for k in 1..plan.rows.len() {
        assert!(plan.rows[k].next_rest <= plan.rows[k - 1].next_rest);
        assert_eq!(plan.rows[k].rest, plan.rows[k - 1].next_rest);
        assert_eq!(
            plan.rows[k].interest_amount,
            plan.rows[k - 1].next_interest_amount
        );
        assert_eq!(
            plan.rows[k].principal,
            plan.rows[k].amount - plan.rows[k].interest_amount
        );
    }
    assert_eq!(plan.rows[plan.rows.len() - 1].next_rest, 0);
    assert_eq!(plan.rows[0].rest, 1000000);
}

#[test]
fn test_compute_interest_truncates() {
    // 33_333 * 1800 / 120_000 = 499.995, floored to 499
    assert_eq!(loan_revolver::loan_revolver::compute_interest(33333, 1800), 499);
    assert_eq!(loan_revolver::loan_revolver::compute_interest(0, 1800), 0);
    assert_eq!(loan_revolver::loan_revolver::compute_interest(1000000, 1800), 15000);
}

#[test]
fn test_compound_rate_truncates_not_rounds() {
    // 18%: the exact monthly compound rate is 1.38881...%, shown as 1.38
    assert_eq!(LoanRevolver::annual_to_monthly_compound_interest(1800), 138);
    assert_eq!(LoanRevolver::annual_to_monthly_compound_interest(0), 0);
}
