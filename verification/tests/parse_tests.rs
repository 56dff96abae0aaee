use envro::parse;
use envro::EnvroError;

#[test]
fn should_handle_error_on_invalid_dotenv_line() {
    let r = parse("VAR value");
    let err = r.unwrap_err();

    assert_eq!(
        err.message(),
        String::from(r#"PARSE_ERROR line "VAR value" is not valid"#)
    );
}

#[test]
fn should_handle_error_on_invalid_dotenv_var() {
    let r = parse("=value");
    let err = r.unwrap_err();

    assert_eq!(
        err.message(),
        String::from(r#"PARSE_ERROR line "=value" is not valid"#)
    );
}

#[test]
fn should_handle_error_on_invalid_dotenv_value() {
    let r = parse("VAR=");
    let err = r.unwrap_err();

    assert_eq!(
        err.message(),
        String::from(r#"PARSE_ERROR line "VAR=" is not valid"#)
    );
}

#[test]
fn parses_a_single_declaration() {
    let vars = parse("VAR=value").unwrap();

    assert_eq!(vars.len(), 1);
    assert_eq!(vars.get("VAR"), Some(&"value".to_string()));
}

#[test]
fn should_handle_empty_lines() {
    let vars = parse("\nVAR=1\nVAR1=asd").unwrap();

    assert_eq!(vars.get("VAR"), Some(&"1".to_string()));
    assert_eq!(vars.get("VAR1"), Some(&"asd".to_string()));
}

#[test]
fn should_handle_comment_lines() {
    let vars = parse("\nVAR=1\n#VAR1=asd").unwrap();

    assert_eq!(vars.get("VAR"), Some(&"1".to_string()));
    assert_eq!(vars.get("VAR1"), None);
    assert!(!vars.contains_key("VAR1"));
}

#[test]
fn skips_whitespace_only_lines() {
    let vars = parse("   \t \nA=1").unwrap();

    assert_eq!(vars.len(), 1);
    assert_eq!(vars.get("A"), Some(&"1".to_string()));
}

#[test]
fn trims_surrounding_whitespace() {
    let vars = parse("  A=B  ").unwrap();

    assert_eq!(vars.get("A"), Some(&"B".to_string()));
}

#[test]
fn should_handle_quoted_values() {
    let vars = parse("\nVAR1=\"1\"\nVAR2=\"Lorem ipsum \"ciao!\" \"").unwrap();

    assert_eq!(vars.get("VAR1"), Some(&"1".to_string()));
    assert_eq!(vars.get("VAR2"), Some(&"Lorem ipsum \"ciao!\" ".to_string()));
}

#[test]
fn should_handle_quoted_values_containg_equals() {
    let vars = parse("\nVAR1=\"1\"\nVAR2=\"host=localhost user=admin password=secret dbname=mydb\"")
        .unwrap();

    assert_eq!(vars.get("VAR1"), Some(&"1".to_string()));
    assert_eq!(
        vars.get("VAR2"),
        Some(&"host=localhost user=admin password=secret dbname=mydb".to_string())
    );
}

#[test]
fn keeps_equals_after_the_first_unquoted() {
    let vars = parse("VAR=host=localhost;user=admin").unwrap();

    assert_eq!(vars.get("VAR"), Some(&"host=localhost;user=admin".to_string()));
}

#[test]
fn quoted_empty_value_yields_empty_string() {
    let vars = parse("VAR=\"\"").unwrap();

    assert_eq!(vars.len(), 1);
    assert_eq!(vars.get("VAR"), Some(&"".to_string()));
}

#[test]
fn escaped_quote_round_trips() {
    let vars = parse("VAR=\"a\\\"b\"").unwrap();

    assert_eq!(vars.get("VAR"), Some(&"a\"b".to_string()));
}

#[test]
fn other_backslash_sequences_stay_verbatim() {
    let vars = parse("VAR=\"a\\nb\"").unwrap();

    assert_eq!(vars.get("VAR"), Some(&"a\\nb".to_string()));
}

#[test]
fn later_duplicate_key_overrides_earlier() {
    let vars = parse("A=1\nA=2\nB=3").unwrap();

    assert_eq!(vars.len(), 2);
    assert_eq!(vars.get("A"), Some(&"2".to_string()));
    assert_eq!(vars.get("B"), Some(&"3".to_string()));
}

#[test]
fn hash_after_content_is_part_of_the_value() {
    let vars = parse("VAR=val#ue").unwrap();

    assert_eq!(vars.get("VAR"), Some(&"val#ue".to_string()));
}

#[test]
fn unterminated_quote_fails() {
    let err = parse("VAR=\"abc").unwrap_err();

    assert_eq!(
        err.message(),
        String::from(r#"PARSE_ERROR line "VAR="abc" is not valid"#)
    );
}

#[test]
fn lone_quote_value_fails() {
    let err = parse("VAR=\"").unwrap_err();

    assert!(matches!(err, EnvroError::Parse { .. }));
}

#[test]
fn stops_at_first_invalid_line() {
    let err = parse("A=1\nbad line\nB=2").unwrap_err();

    assert_eq!(
        err.message(),
        String::from(r#"PARSE_ERROR line "bad line" is not valid"#)
    );
}

#[test]
fn file_error_message_names_path_and_cause() {
    let err = EnvroError::File {
        file: "none".to_string(),
        cause: "Os { code: 2, kind: NotFound }".to_string(),
    };

    assert_eq!(
        err.message(),
        String::from(r#"FILE_ERROR unable to read env file "none": Os { code: 2, kind: NotFound }"#)
    );
}
