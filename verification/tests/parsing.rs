use records::parser::{parse_record, ParseError};

#[test]
fn parses_id_and_name_without_email() {
    let rec = parse_record("1,Alice").unwrap();
    assert_eq!(rec.id, 1);
    assert_eq!(rec.name, "Alice");
    assert!(rec.email.is_none());
}

#[test]
fn parses_email_when_present_and_non_empty() {
    let rec = parse_record("2,Bob,bob@example.com").unwrap();
    assert_eq!(rec.id, 2);
    assert_eq!(rec.name, "Bob");
    assert_eq!(rec.email.as_deref(), Some("bob@example.com"));
}

#[test]
fn empty_email_field_means_no_email() {
    let rec = parse_record("2,Bob,").unwrap();
    assert_eq!(rec.id, 2);
    assert_eq!(rec.name, "Bob");
    assert!(rec.email.is_none());
}

#[test]
fn fields_past_the_email_are_ignored() {
    let rec = parse_record("3,Carol,c@example.com,extra").unwrap();
    assert_eq!(rec.id, 3);
    assert_eq!(rec.email.as_deref(), Some("c@example.com"));
}

#[test]
fn empty_line_is_an_empty_record_error() {
    assert!(matches!(parse_record(""), Err(ParseError::EmptyRecord)));
}

#[test]
fn missing_id_field_is_an_invalid_id_error() {
    assert!(matches!(parse_record(",NoId"), Err(ParseError::InvalidId)));
}

#[test]
fn non_numeric_id_is_an_invalid_id_error() {
    assert!(matches!(parse_record("abc,Bob"), Err(ParseError::InvalidId)));
}

#[test]
fn absent_name_field_is_a_missing_field_error() {
    match parse_record("5") {
        Err(ParseError::MissingField(name)) => assert_eq!(name, "name"),
        other => panic!("expected a missing field error, got {:?}", other.is_ok()),
    }
}

#[test]
fn empty_name_field_is_a_missing_field_error() {
    match parse_record("5,") {
        Err(ParseError::MissingField(name)) => assert_eq!(name, "name"),
        other => panic!("expected a missing field error, got {:?}", other.is_ok()),
    }
}

#[test]
fn signed_ids_parse() {
    assert_eq!(parse_record("+7,Plus").unwrap().id, 7);
    assert_eq!(parse_record("-4,Minus").unwrap().id, -4);
}

#[test]
fn extreme_ids_parse_and_overflow_is_rejected() {
    assert_eq!(parse_record("9223372036854775807,Max").unwrap().id, i64::MAX);
    assert_eq!(parse_record("-9223372036854775808,Min").unwrap().id, i64::MIN);
    assert!(matches!(
        parse_record("9223372036854775808,Over"),
        Err(ParseError::InvalidId)
    ));
    assert!(matches!(
        parse_record("-9223372036854775809,Under"),
        Err(ParseError::InvalidId)
    ));
}

#[test]
fn leading_zeros_are_accepted() {
    assert_eq!(parse_record("007,Bond").unwrap().id, 7);
}

#[test]
fn error_messages_render() {
    assert_eq!(ParseError::InvalidId.message(), "invalid id");
    assert_eq!(ParseError::EmptyRecord.message(), "empty record");
    assert_eq!(
        ParseError::MissingField("name".to_owned()).message(),
        "missing field: name"
    );
}
