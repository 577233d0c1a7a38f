use prefix_tree::env::{parse_number, EnvError, EnvVars};

fn found(value: &str) -> Result<String, EnvError> {
    Ok(value.to_string())
}

fn missing(key: &str) -> Result<String, EnvError> {
    Err(EnvError::NotFound(key.to_string()))
}

#[test]
fn decimal_digits_write_a_number() {
    assert_eq!(parse_number("0"), Some(0));
    assert_eq!(parse_number("10"), Some(10));
    assert_eq!(parse_number("007"), Some(7));
    assert_eq!(parse_number("+42"), Some(42));
    assert_eq!(parse_number("18446744073709551615"), "18446744073709551615".parse::<usize>().ok());
    assert_eq!(parse_number(&usize::MAX.to_string()), Some(usize::MAX));
}

#[test]
fn anything_else_writes_no_number() {
    assert_eq!(parse_number(""), None);
    assert_eq!(parse_number("+"), None);
    assert_eq!(parse_number("-1"), None);
    assert_eq!(parse_number("++1"), None);
    assert_eq!(parse_number("1+"), None);
    assert_eq!(parse_number(" 1"), None);
    assert_eq!(parse_number("1 "), None);
    assert_eq!(parse_number("12a"), None);
    assert_eq!(parse_number("1_000"), None);
    assert_eq!(parse_number("\u{663}"), None);
    assert_eq!(parse_number("18446744073709551616"), "18446744073709551616".parse::<usize>().ok());
    assert_eq!(parse_number("99999999999999999999999"), None);
}

#[test]
fn the_parser_agrees_with_the_standard_one() {
    for text in ["0", "5", "+5", "-5", "", "+", "0x10", "1e3", "00", "4294967296", "١"] {
        assert_eq!(parse_number(text), text.parse::<usize>().ok(), "on {text:?}");
    }
}

#[test]
fn three_values_give_the_configuration() {
    let vars = EnvVars::new(found("127.0.0.1"), found("3030"), found("10")).ok().expect("all is set");
    assert_eq!(vars.host, "127.0.0.1");
    assert_eq!(vars.port, "3030");
    assert_eq!(vars.suggestion_number, 10);
}

#[test]
fn a_missing_host_is_replaced() {
    let vars = EnvVars::new(missing("HOST"), found("3030"), found("10")).ok().expect("all is set");
    assert_eq!(vars.host, "0.0.0.0");
    let vars = EnvVars::new(
        Err(EnvError::InvalidValueUnicode("HOST".to_string())),
        found("80"),
        found("1"),
    )
    .ok()
    .expect("all is set");
    assert_eq!(vars.host, "0.0.0.0");
    assert_eq!(vars.port, "80");
    assert_eq!(vars.suggestion_number, 1);
}

#[test]
fn a_missing_port_or_number_is_an_error() {
    match EnvVars::new(found("h"), missing("PORT"), missing("SUGGESTION_NUMBER")) {
        Err(EnvError::NotFound(key)) => assert_eq!(key, "PORT"),
        _ => panic!("the port was missing"),
    }
    match EnvVars::new(found("h"), found("1"), missing("SUGGESTION_NUMBER")) {
        Err(EnvError::NotFound(key)) => assert_eq!(key, "SUGGESTION_NUMBER"),
        _ => panic!("the number was missing"),
    }
    match EnvVars::new(
        found("h"),
        found("1"),
        Err(EnvError::InvalidValueUnicode("SUGGESTION_NUMBER".to_string())),
    ) {
        Err(EnvError::InvalidValueUnicode(key)) => assert_eq!(key, "SUGGESTION_NUMBER"),
        _ => panic!("the number was not Unicode"),
    }
}

#[test]
fn a_number_that_is_none_is_an_error() {
    match EnvVars::new(found("h"), found("1"), found("ten")) {
        Err(EnvError::InvalidValueNumber(key)) => assert_eq!(key, "SUGGESTION_NUMBER"),
        _ => panic!("ten is no number"),
    }
    match EnvVars::new(found("h"), found("1"), found("0")) {
        Err(EnvError::InvalidValueNumber(key)) => assert_eq!(key, "SUGGESTION_NUMBER"),
        _ => panic!("a node caches at least one entry"),
    }
    match EnvVars::new(found("h"), found("1"), found("+00")) {
        Err(EnvError::InvalidValueNumber(key)) => assert_eq!(key, "SUGGESTION_NUMBER"),
        _ => panic!("a node caches at least one entry"),
    }
    match EnvVars::new(found("h"), found("1"), found("")) {
        Err(EnvError::InvalidValueNumber(key)) => assert_eq!(key, "SUGGESTION_NUMBER"),
        _ => panic!("the empty text is no number"),
    }
}
