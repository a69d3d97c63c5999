use combat_log::{
    LogCell, LogError, is_valid_emote, is_valid_unwrapped, is_valid_wrapped, parse_array,
    parse_float, parse_integer, parse_log_cell, parse_multi_power, parse_number, parse_string,
};

fn cell(input: &str) -> (String, LogCell) {
    parse_log_cell(input).unwrap()
}

fn s(text: &str) -> LogCell {
    LogCell::Str(text.to_string())
}

#[test]
fn multi_power_takes_precedence() {
    assert_eq!(cell("5|3"), (String::new(), LogCell::MultiPowerCell(5, 3)));
}

#[test]
fn hex_literal_is_kept_as_written() {
    assert_eq!(cell("0xAB12"), (String::new(), s("0xAB12")));
    assert_eq!(cell("0x0,rest"), (",rest".to_string(), s("0x0")));
}

#[test]
fn quoted_string_keeps_its_comma() {
    assert_eq!(cell("\"a,b\""), (String::new(), s("a,b")));
}

#[test]
fn array_elements_decode_as_they_do_alone() {
    let parts = ["1", "x", "5|3", "-2.5", "\"q,r\"", "0x1F", "[]"];
    let literal = format!("[{}]", parts.join(","));
    let (rest, whole) = cell(&literal);
    assert_eq!(rest, "");
    let expected: Vec<LogCell> = parts.iter().map(|p| cell(p).1).collect();
    assert_eq!(whole, LogCell::Array(expected));
}

#[test]
fn three_element_array() {
    assert_eq!(
        cell("[a,2,3|4]"),
        (String::new(), LogCell::Array(vec![s("a"), LogCell::Integer(2), LogCell::MultiPowerCell(3, 4)]))
    );
}

#[test]
fn empty_and_nested_arrays() {
    assert_eq!(cell("[]"), (String::new(), LogCell::Array(vec![])));
    assert_eq!(cell("()"), (String::new(), LogCell::Array(vec![])));
    assert_eq!(
        cell("[(1,2),[x]],y"),
        (
            ",y".to_string(),
            LogCell::Array(vec![
                LogCell::Array(vec![LogCell::Integer(1), LogCell::Integer(2)]),
                LogCell::Array(vec![s("x")]),
            ])
        )
    );
}

#[test]
fn mismatched_or_open_arrays_fail() {
    assert_eq!(parse_log_cell("[1)"), Err(LogError::Grammar));
    assert_eq!(parse_log_cell("(1]"), Err(LogError::Grammar));
    assert_eq!(parse_log_cell("[1,]"), Err(LogError::Grammar));
    assert_eq!(parse_log_cell("["), Err(LogError::Grammar));
}

#[test]
fn empty_input_is_a_grammar_error() {
    assert_eq!(parse_log_cell(""), Err(LogError::Grammar));
    assert_eq!(parse_string(""), Err(LogError::Grammar));
}

#[test]
fn single_characters() {
    assert_eq!(cell("7"), (String::new(), LogCell::Integer(7)));
    assert_eq!(cell("0"), (String::new(), LogCell::Integer(0)));
    assert_eq!(cell("a"), (String::new(), s("a")));
    assert_eq!(parse_log_cell("-"), Err(LogError::Grammar));
    assert_eq!(parse_log_cell(","), Err(LogError::Grammar));
}

#[test]
fn nine_starts_a_string() {
    assert_eq!(cell("9"), (String::new(), s("9")));
    assert_eq!(cell("95,1"), (",1".to_string(), s("95")));
}

#[test]
fn integers() {
    assert_eq!(cell("-42,"), (",".to_string(), LogCell::Integer(-42)));
    assert_eq!(cell("0000000000000000"), (String::new(), LogCell::Integer(0)));
    assert_eq!(parse_integer("9223372036854775807"), Ok((String::new(), LogCell::Integer(i64::MAX))));
    assert_eq!(parse_integer("9223372036854775808"), Err(LogError::Grammar));
    assert_eq!(parse_log_cell("-9223372036854775809"), Err(LogError::Grammar));
    assert_eq!(cell("-9223372036854775808"), (String::new(), LogCell::Integer(i64::MIN)));
    assert_eq!(parse_log_cell("8223372036854775808"), Ok((String::new(), LogCell::Integer(8223372036854775808))));
    assert_eq!(parse_integer("12ab"), Ok(("ab".to_string(), LogCell::Integer(12))));
    assert_eq!(parse_integer("x"), Err(LogError::Grammar));
}

#[test]
fn numbers_fall_back_in_order() {
    assert_eq!(cell("-5|3"), ("|3".to_string(), LogCell::Integer(-5)));
    assert_eq!(cell("5|"), ("|".to_string(), LogCell::Integer(5)));
    assert_eq!(cell("5."), (".".to_string(), LogCell::Integer(5)));
    assert_eq!(parse_number("1.25x"), Ok(("x".to_string(), LogCell::Float("1.25".to_string()))));
    assert_eq!(parse_log_cell("88888888888888888888|3"), Err(LogError::Grammar));
}

#[test]
fn floats_are_kept_as_written() {
    assert_eq!(cell("-5095.52"), (String::new(), LogCell::Float("-5095.52".to_string())));
    assert_eq!(parse_float("6.1556,70"), Ok((",70".to_string(), LogCell::Float("6.1556".to_string()))));
    assert_eq!(parse_float("6"), Err(LogError::Grammar));
}

#[test]
fn multi_power_pairs() {
    assert_eq!(parse_multi_power("0|100"), Ok((String::new(), LogCell::MultiPowerCell(0, 100))));
    assert_eq!(parse_multi_power("-1|2"), Err(LogError::Grammar));
    assert_eq!(parse_multi_power("1|9223372036854775808"), Err(LogError::Grammar));
}

#[test]
fn strings() {
    assert_eq!(parse_string("|TInterface\\Icons\\x.blp:0!rest"), Ok(("rest".to_string(), s("Interface\\Icons\\x.blp:0"))));
    assert_eq!(parse_string("|x"), Ok((String::new(), s("|x"))));
    assert_eq!(parse_string("|"), Ok((String::new(), s("|"))));
    assert_eq!(parse_log_cell("|a,b"), Ok((",b".to_string(), s("|a"))));
    assert_eq!(parse_log_cell("|Tno-end"), Err(LogError::Grammar));
    assert_eq!(parse_string("\"\""), Err(LogError::Grammar));
    assert_eq!(parse_string("\"open"), Err(LogError::Grammar));
    assert_eq!(parse_string("nil)"), Ok((")".to_string(), s("nil"))));
    assert_eq!(parse_string("]"), Err(LogError::Grammar));
}

#[test]
fn parse_array_with_given_delimiters() {
    assert_eq!(parse_array("(1)", '(', ')'), Ok((String::new(), LogCell::Array(vec![LogCell::Integer(1)]))));
    assert_eq!(parse_array("[1]", '(', ')'), Err(LogError::Grammar));
}

#[test]
fn character_classes() {
    assert!(is_valid_emote('!'));
    assert!(!is_valid_emote('\t'));
    assert!(is_valid_wrapped(','));
    assert!(!is_valid_wrapped('"'));
    assert!(!is_valid_wrapped('\\'));
    assert!(is_valid_unwrapped('a'));
    for c in [',', ']', ')', '"', '\\', '\n'] {
        assert!(!is_valid_unwrapped(c));
    }
}

#[test]
fn flag_coercion() {
    assert!(!bool::from(LogCell::Integer(0)));
    assert!(bool::from(LogCell::Integer(-3)));
    assert!(!bool::from(LogCell::Float("-0.00".to_string())));
    assert!(bool::from(LogCell::Float("0.05".to_string())));
    assert!(!bool::from(LogCell::MultiPowerCell(0, 7)));
    assert!(bool::from(LogCell::MultiPowerCell(1, 0)));
    assert!(!bool::from(LogCell::Str(String::new())));
    assert!(bool::from(LogCell::Str("nil".to_string())));
    assert!(!bool::from(LogCell::Array(vec![])));
    assert!(bool::from(LogCell::Array(vec![LogCell::Integer(0)])));
    assert!(LogCell::Integer(1).is_truthy());
}
