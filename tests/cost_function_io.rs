use tsalign::cost::U64Cost;
use tsalign::cost_function::{CostFunction, CostFunctionParseError};

#[test]
fn simple_example() {
    let input = "-inf -12345 -4 -1 0 1 +2 123456 inf\n   1      2  3  4 5 6  7      8   9";
    let expected_output =
        "-inf -12345 -4 -1 0 1 2 123456 inf\n   1      2  3  4 5 6 7      8   9";
    let expected_parsing_result = CostFunction::new(vec![
        (isize::MIN, 1.into()),
        (-12345, 2.into()),
        (-4, 3.into()),
        (-1, 4.into()),
        (0, 5.into()),
        (1, 6.into()),
        (2, 7.into()),
        (123456, 8.into()),
        (isize::MAX, 9.into()),
    ])
    .unwrap();

    let (remaining_input, actual_parsing_result) = CostFunction::parse_plain(input).unwrap();
    assert!(remaining_input.is_empty());

    let output = actual_parsing_result.write_plain();

    assert_eq!(expected_parsing_result, actual_parsing_result);
    assert_eq!(expected_output, output);
}

#[test]
fn round_trip_of_constructed_function() {
    let f = CostFunction::new(vec![
        (isize::MIN, U64Cost::from_u64(u64::MAX)),
        (-7, 12.into()),
        (0, 0.into()),
        (1_000_000, 3.into()),
    ])
    .unwrap();
    let text = f.write_plain();
    assert_eq!(text, "-inf -7 0 1000000\n inf 12 0       3");
    let (rest, g) = CostFunction::parse_plain(&text).unwrap();
    assert!(rest.is_empty());
    assert_eq!(f, g);
}

#[test]
fn parse_rejects_non_monotonic_indices() {
    assert_eq!(
        CostFunction::parse_plain("-inf 5 3\n1 2 3"),
        Err(CostFunctionParseError::IndicesNotIncreasing)
    );
    assert_eq!(
        CostFunction::parse_plain("-inf 5 5\n1 2 3"),
        Err(CostFunctionParseError::IndicesNotIncreasing)
    );
}

#[test]
fn parse_rejects_first_index_not_minimum() {
    assert_eq!(
        CostFunction::parse_plain("0 1\n1 2"),
        Err(CostFunctionParseError::FirstIndexNotMinimum)
    );
    assert_eq!(
        CostFunction::parse_plain("1 -inf\n1 2"),
        Err(CostFunctionParseError::FirstIndexNotMinimum)
    );
    assert_eq!(
        CostFunction::parse_plain("\n"),
        Err(CostFunctionParseError::MalformedRow { position: 1 })
    );
}

#[test]
fn parse_rejects_mismatched_rows() {
    assert_eq!(
        CostFunction::parse_plain("-inf 1\n1"),
        Err(CostFunctionParseError::LengthMismatch)
    );
}

#[test]
fn parse_rejects_overflowing_literals() {
    assert_eq!(
        CostFunction::parse_plain("-inf 99999999999999999999\n1 2"),
        Err(CostFunctionParseError::MalformedRow { position: 5 })
    );
    assert_eq!(
        CostFunction::parse_plain("-inf\n18446744073709551616"),
        Err(CostFunctionParseError::MalformedRow { position: 5 })
    );
}

#[test]
fn parse_rejects_malformed_rows() {
    assert_eq!(
        CostFunction::parse_plain("-inf\n-1"),
        Err(CostFunctionParseError::MalformedRow { position: 5 })
    );
    assert_eq!(
        CostFunction::parse_plain("-inf 1"),
        Err(CostFunctionParseError::MalformedRow { position: 6 })
    );
    assert_eq!(
        CostFunction::parse_plain("-inf x\n1 2"),
        Err(CostFunctionParseError::MalformedRow { position: 5 })
    );
}

#[test]
fn parse_accepts_separators_and_keeps_rest() {
    let (rest, f) =
        CostFunction::parse_plain("  -inf 1_000\t+2_000\n 4 18446744073709551615 6\nrest")
            .unwrap();
    assert_eq!(rest, "\nrest");
    assert_eq!(
        f.function(),
        &vec![
            (isize::MIN, 4.into()),
            (1000, U64Cost::from_u64(u64::MAX)),
            (2000, 6.into())
        ]
    );
    assert!(CostFunction::parse_plain("-inf 1_000\n4 20").is_ok());
}

#[test]
fn evaluate_is_a_step_function() {
    let (_, f) = CostFunction::parse_plain("-inf -3 0 10\n 9 7 5 1").unwrap();
    assert_eq!(f.evaluate(isize::MIN), 9.into());
    assert_eq!(f.evaluate(-4), 9.into());
    assert_eq!(f.evaluate(-3), 7.into());
    assert_eq!(f.evaluate(-1), 7.into());
    assert_eq!(f.evaluate(0), 5.into());
    assert_eq!(f.evaluate(9), 5.into());
    assert_eq!(f.evaluate(10), 1.into());
    assert_eq!(f.evaluate(isize::MAX), 1.into());
}

#[test]
fn new_rejects_bad_entries() {
    assert!(CostFunction::new(vec![]).is_none());
    assert!(CostFunction::new(vec![(0, 1.into())]).is_none());
    assert!(CostFunction::new(vec![(isize::MIN, 1.into()), (3, 1.into()), (3, 2.into())]).is_none());
}
