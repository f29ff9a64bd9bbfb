use minikv::database::Database;
use minikv::parser::{execute, execute_command, parse, Command, ParseError};
use minikv::types::TypedValue;

#[test]
fn simple_set_foo_bar() {
    assert_eq!(
        Ok(Command::SetCmd {
            key: String::from("foo"),
            value: TypedValue::Text(String::from("bar")),
        }),
        parse("SET foo bar")
    );
}

#[test]
fn simple_set_spam_eggs() {
    assert_eq!(
        Ok(Command::SetCmd {
            key: String::from("spam"),
            value: TypedValue::Text(String::from("eggs")),
        }),
        parse("SET spam eggs")
    );
}

#[test]
fn set_value_is_correctl_parsed_as_numeric() {
    assert_eq!(
        Ok(Command::SetCmd {
            key: String::from("foo"),
            value: TypedValue::Numeric(String::from("1.0")),
        }),
        parse("SET foo 1")
    );
}

#[test]
fn set_case_unsensitive() {
    assert_eq!(
        Ok(Command::SetCmd {
            key: String::from("foo"),
            value: TypedValue::Text(String::from("bar")),
        }),
        parse("Set foo bar")
    );
}

#[test]
fn set_starts_with_whitespace() {
    assert_eq!(
        Ok(Command::SetCmd {
            key: String::from("foo"),
            value: TypedValue::Text(String::from("bar")),
        }),
        parse(" set foo bar")
    );
}

#[test]
fn set_ends_with_whitespace() {
    assert_eq!(
        Ok(Command::SetCmd {
            key: String::from("foo"),
            value: TypedValue::Text(String::from("bar")),
        }),
        parse("set foo bar ")
    );
}

#[test]
fn set_no_args_returns_invalid_err() {
    parse("set").expect_err("Should error");
}

#[test]
fn set_only_one_arg_returns_invalid_err() {
    parse("set foo").expect_err("Should error");
}

#[test]
fn set_more_than_2_args_returns_invalid_err() {
    parse("set foo").expect_err("Should error");
}

#[test]
fn simple_get_foo_bar() {
    assert_eq!(
        Ok(Command::GetCmd {
            key: String::from("foo")
        }),
        parse("GET foo")
    );
}

#[test]
fn simple_get_spam() {
    assert_eq!(
        Ok(Command::GetCmd {
            key: String::from("spam")
        }),
        parse("GET spam")
    );
}

#[test]
fn empty_string_returns_empty_statement() {
    assert_eq!(Err(ParseError::EmptyStatement), parse(""));
    assert_eq!(
        String::from("Empty expression"),
        ParseError::EmptyStatement.message()
    );
}

#[test]
fn parser_insert_and_delete() {
    let mut db = Database::new();
    execute_command(
        &mut db,
        Command::SetCmd {
            key: String::from("foo"),
            value: TypedValue::Text(String::from("bar")),
        },
    );
    assert_eq!(
        execute_command(
            &mut db,
            Command::GetCmd {
                key: String::from("foo")
            }
        ),
        Some(TypedValue::Text(String::from("bar")))
    )
}

#[test]
fn set_surrounded_and_padded_with_tabs_parses_alike() {
    assert_eq!(parse("set foo bar"), parse(" \t set \t\r foo  bar \t "));
}

#[test]
fn unknown_command_variant_and_message() {
    assert_eq!(Err(ParseError::UnknownCommand), parse("frob foo"));
    assert_eq!(
        String::from("Unknown command"),
        ParseError::UnknownCommand.message()
    );
}

#[test]
fn wrong_arity_variant_and_message() {
    assert_eq!(Err(ParseError::InvalidStatement), parse("set foo"));
    assert_eq!(Err(ParseError::InvalidStatement), parse("set foo bar baz"));
    assert_eq!(Err(ParseError::InvalidStatement), parse("get"));
    assert_eq!(Err(ParseError::InvalidStatement), parse("get foo bar"));
    assert_eq!(
        String::from("Invalid number of arguments"),
        ParseError::InvalidStatement.message()
    );
}

#[test]
fn keyword_case_permutations_parse_alike() {
    let set_reference = parse("set foo bar");
    assert_eq!(set_reference, parse("SET foo bar"));
    assert_eq!(set_reference, parse("sEt foo bar"));
    assert_eq!(set_reference, parse("seT foo bar"));
    assert_eq!(set_reference, parse("SeT foo bar"));
    let get_reference = parse("get foo");
    assert_eq!(get_reference, parse("GET foo"));
    assert_eq!(get_reference, parse("gEt foo"));
    assert_eq!(get_reference, parse("GeT foo"));
}

#[test]
fn key_position_is_never_numeric() {
    assert_eq!(
        Ok(Command::SetCmd {
            key: String::from("42"),
            value: TypedValue::Numeric(String::from("7.0")),
        }),
        parse("set 42 7")
    );
    assert_eq!(
        Ok(Command::GetCmd {
            key: String::from("1.5")
        }),
        parse("get 1.5")
    );
}

#[test]
fn execute_set_then_get_renders_text() {
    let mut db = Database::new();
    assert_eq!(String::from("None"), execute(&mut db, "SET foo bar"));
    assert_eq!(String::from("Some(Text(\"bar\"))"), execute(&mut db, "GET foo"));
    assert_eq!(String::from("None"), execute(&mut db, "GET missing"));
}

#[test]
fn execute_numeric_value_renders_canonically() {
    let mut db = Database::new();
    assert_eq!(String::from("None"), execute(&mut db, "SET foo 1"));
    assert_eq!(
        String::from("Some(Numeric(1.0))"),
        execute(&mut db, "GET foo")
    );
}

#[test]
fn execute_error_lines() {
    let mut db = Database::new();
    assert_eq!(String::from("Empty expression"), execute(&mut db, "   "));
    assert_eq!(
        String::from("Invalid number of arguments"),
        execute(&mut db, "set foo")
    );
    assert_eq!(String::from("Unknown command"), execute(&mut db, "del foo"));
}

#[test]
fn execute_escapes_quotes_and_backslashes() {
    let mut db = Database::new();
    assert_eq!(String::from("None"), execute(&mut db, "SET q a\"b\\c"));
    assert_eq!(
        String::from("Some(Text(\"a\\\"b\\\\c\"))"),
        execute(&mut db, "GET q")
    );
}
