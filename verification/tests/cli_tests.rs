use loan_revolver::cli::{parse_rate_centi, parse_u64, u64_to_string, work};

#[test]
fn test_parse_u64_values() {
    assert_eq!(parse_u64("0"), Some(0));
    assert_eq!(parse_u64("1000000"), Some(1000000));
    assert_eq!(parse_u64("18446744073709551615"), Some(u64::MAX));
    assert_eq!(parse_u64("18446744073709551616"), None);
    assert_eq!(parse_u64(""), None);
    assert_eq!(parse_u64("12a"), None);
    assert_eq!(parse_u64("-5"), None);
}

#[test]
fn test_parse_rate_fixed_point() {
    assert_eq!(parse_rate_centi("18"), Some(1800));
    assert_eq!(parse_rate_centi("18.0"), Some(1800));
    assert_eq!(parse_rate_centi("18."), Some(1800));
    assert_eq!(parse_rate_centi("18.25"), Some(1825));
    assert_eq!(parse_rate_centi("18.2"), Some(1820));
    assert_eq!(parse_rate_centi("0.5"), Some(50));
    assert_eq!(parse_rate_centi(".5"), None);
    assert_eq!(parse_rate_centi("18.123"), None);
    assert_eq!(parse_rate_centi("abc"), None);
    assert_eq!(parse_rate_centi("1.2.3"), None);
    assert_eq!(parse_rate_centi(""), None);
}

#[test]
fn test_u64_to_string_renders_decimal() {
    assert_eq!(u64_to_string(0).as_str(), "0");
    assert_eq!(u64_to_string(7).as_str(), "7");
    assert_eq!(u64_to_string(1091618).as_str(), "1091618");
    assert_eq!(u64_to_string(u64::MAX).as_str(), "18446744073709551615");
}

#[test]
fn test_work_small_plan_json() {
    let args = vec![
        "a".to_string(),
        "10".to_string(),
        "18.0".to_string(),
        "11".to_string(),
    ];
    let out = work(args).unwrap();
    let expected = "{\"total_amount\":10,\"total_interest_amount\":0,\"total_months\":1,\"annual_interest\":1800,\"monthly_interest\":15000,\"monthly_compound_interest\":138,\"rows\":[{\"turn\":0,\"rest\":10,\"next_rest\":10,\"amount\":0,\"principal\":0,\"interest_amount\":0,\"next_interest_amount\":0},{\"turn\":1,\"rest\":10,\"next_rest\":0,\"amount\":10,\"principal\":10,\"interest_amount\":0,\"next_interest_amount\":0}]}";
    assert_eq!(out.as_str(), expected);
}

#[test]
fn test_work_by_count_mode() {
    let args = vec![
        "t".to_string(),
        "1000000".to_string(),
        "18".to_string(),
        "60".to_string(),
    ];
    let out = work(args).unwrap();
    // the solved payment for 60 periods is 25_393
    assert!(out.contains("\"total_months\":60"));
}

#[test]
fn test_work_rejects_bad_arguments() {
    assert!(work(vec!["a".to_string()]).is_err());
    assert!(work(vec![
        "x".to_string(),
        "10".to_string(),
        "18".to_string(),
        "5".to_string(),
    ])
    .is_err());
    assert!(work(vec![
        "a".to_string(),
        "ten".to_string(),
        "18".to_string(),
        "5".to_string(),
    ])
    .is_err());
    assert!(work(vec![
        "a".to_string(),
        "10".to_string(),
        "18%".to_string(),
        "5".to_string(),
    ])
    .is_err());
    assert!(work(vec![
        "a".to_string(),
        "10".to_string(),
        "18".to_string(),
        "five".to_string(),
    ])
    .is_err());
    // insufficient payment surfaces the engine error
    let e = work(vec![
        "a".to_string(),
        "1000000".to_string(),
        "18".to_string(),
        "15000".to_string(),
    ])
    .unwrap_err();
    assert_eq!(e.as_str(), "NotEnough");
    // a zero period count is an input-validation error
    let e = work(vec![
        "t".to_string(),
        "1000000".to_string(),
        "18".to_string(),
        "0".to_string(),
    ])
    .unwrap_err();
    assert_eq!(e.as_str(), "InvalidInput");
}
