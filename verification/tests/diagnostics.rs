use polylang::diagnostics::{decimal_chars, is_whitespace, parse_error_to_error};
use polylang::error::{LexicalError, SyntaxError};
use polylang::Error;

#[test]
fn test_error_unrecognized_token() {
    let code = "
            contract test-cities {}
        ";
    let start = code.find('-').unwrap();
    let error = SyntaxError::UnrecognizedToken {
        start,
        token: "-".to_string(),
        end: start + 1,
        expected: vec!["\"{\"".to_string()],
    };
    let result: Result<(), Error> = Err(parse_error_to_error(code, error));
    assert!(result.is_err());
    assert_eq!(
        result.unwrap_err().message,
        r#"Error found at line 2, column 25: Unrecognized token "-". Expected one of: "{"
contract test-cities {}
             ^"#,
    );
}

#[test]
fn test_error_invalid_token() {
    let code = "
            contract ą {}
        ";
    let location = code.find('ą').unwrap();
    let result: Result<(), Error> =
        Err(parse_error_to_error(code, SyntaxError::InvalidToken { location }));
    assert!(result.is_err());
    assert_eq!(
        result.unwrap_err().message,
        r#"Error found at line 2, column 21: Invalid token
contract ą {}
         ^"#,
    );
}

#[test]
fn test_error_unexpected_eof() {
    let code = "
            function x() {
        ";
    let location = code.find('{').unwrap() + 1;
    let error = SyntaxError::UnrecognizedEof { location, expected: vec!["\"}\"".to_string()] };
    let result: Result<(), Error> = Err(parse_error_to_error(code, error));
    assert!(result.is_err());
    assert_eq!(
        result.unwrap_err().message,
        r#"Error found at line 2, column 26: Unexpected end of file
function x() {
              ^"#,
    );
}

#[test]
fn message_marks_every_byte_of_the_token() {
    let code = "a\n\tlet żółw = 1;\nb";
    let start = code.find("żółw").unwrap();
    let error = SyntaxError::ExtraToken { start, token: "żółw".to_string(), end: start + 7 };
    assert_eq!(
        parse_error_to_error(code, error).message,
        "Error found at line 2, column 5: Extra token \"żółw\"\nlet żółw = 1;\n    ^^^^^^^"
    );
}

#[test]
fn message_lists_what_was_expected() {
    let error = SyntaxError::UnrecognizedToken {
        start: 2,
        token: "x".to_string(),
        end: 3,
        expected: vec!["a".to_string(), "b".to_string(), "c".to_string()],
    };
    assert_eq!(
        parse_error_to_error("  x", error).message,
        "Error found at line 1, column 2: Unrecognized token \"x\". Expected one of: a, b, c\nx\n^"
    );
    let error = SyntaxError::UnrecognizedToken {
        start: 0,
        token: "x".to_string(),
        end: 1,
        expected: vec![],
    };
    assert_eq!(
        parse_error_to_error("x", error).message,
        "Error found at line 1, column 0: Unrecognized token \"x\". Expected one of: \nx\n^"
    );
}

#[test]
fn message_of_each_lexical_failure() {
    let code = "x = 12q;\ny = 'abc";
    let cases = vec![
        (LexicalError::NumberParseError { start: 4, end: 7 }, "Failed to parse number", 1, 4, 3),
        (LexicalError::InvalidToken { start: 6, end: 7 }, "Invalid token", 1, 6, 1),
        (LexicalError::UnterminatedComment { start: 0, end: 8 }, "Unterminated comment", 1, 0, 8),
        (LexicalError::UnterminatedString { start: 13, end: 17 }, "Unterminated string", 2, 4, 4),
        (
            LexicalError::UserError { start: 9, end: 10, message: "no such thing".to_string() },
            "no such thing",
            2,
            0,
            1,
        ),
    ];
    for (error, what, line, column, marks) in cases {
        let text = if line == 1 { "x = 12q;" } else { "y = 'abc" };
        let expected = format!(
            "Error found at line {}, column {}: {}\n{}\n{}{}",
            line,
            column,
            what,
            text,
            " ".repeat(column),
            "^".repeat(marks)
        );
        assert_eq!(parse_error_to_error(code, SyntaxError::User { error }).message, expected);
    }
}

#[test]
fn message_spans_lines_from_start_to_end() {
    let code = "one\n  two /* open\nthree";
    let error = SyntaxError::User {
        error: LexicalError::UnterminatedComment { start: 10, end: 23 },
    };
    assert_eq!(
        parse_error_to_error(code, error).message,
        format!(
            "Error found at line 2, column 6: Unterminated comment\ntwo /* open\nthree\n    {}",
            "^".repeat(13)
        )
    );
}

#[test]
fn message_for_positions_outside_the_text() {
    assert_eq!(
        parse_error_to_error("", SyntaxError::InvalidToken { location: 0 }).message,
        "Error found at line 1, column 0: Invalid token\n\n^"
    );
    assert_eq!(
        parse_error_to_error("ab", SyntaxError::InvalidToken { location: 9 }).message,
        "Error found at line 1, column 2: Invalid token\nab\n  ^"
    );
    let error = SyntaxError::ExtraToken { start: 1, token: "b".to_string(), end: 0 };
    assert_eq!(
        parse_error_to_error("ab", error).message,
        "Error found at line 1, column 1: Extra token \"b\"\nab\n ^"
    );
    assert_eq!(
        parse_error_to_error("    x", SyntaxError::InvalidToken { location: 1 }).message,
        "Error found at line 1, column 1: Invalid token\nx\n^"
    );
    assert_eq!(
        parse_error_to_error("ż", SyntaxError::InvalidToken { location: 1 }).message,
        "Error found at line 1, column 0: Invalid token\nż\n^"
    );
}

#[test]
fn whitespace_is_what_the_standard_library_says() {
    for code in 0..=0x10ffffu32 {
        if let Some(c) = char::from_u32(code) {
            assert_eq!(is_whitespace(c), c.is_whitespace(), "{:x}", code);
        }
    }
}

#[test]
fn decimal_chars_write_the_number() {
    for n in [0u128, 1, 9, 10, 11, 99, 100, 12345, u64::MAX as u128, u128::MAX] {
        let text: String = decimal_chars(n).into_iter().collect();
        assert_eq!(text, n.to_string());
    }
}

#[test]
fn error_gives_its_message() {
    let e = Error { message: "boom".to_string() };
    assert_eq!(e.to_text(), "boom");
}
