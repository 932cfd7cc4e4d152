use promptgen::lexer::{parse_label_block_greedily, parse_string_literal_greedily};
use promptgen::lexer::{Lexxer, LexxerError, StringyParseResult, Token};

// A whole prompt chunk, e.g.
// > (LABEL) \"Hello World\"
#[test]
fn lex_a_line() {
    let input = b"> (LABEL) \"Hello World\"";

    let expected_tokens = vec![
        Token::RightAngular,
        Token::LabelLiteral(b"LABEL".to_vec()),
        Token::StringLiteral(b"Hello World".to_vec()),
    ];
    let expected_result: Result<Vec<Token>, LexxerError> = Ok(expected_tokens);

    let mut lexxer = Lexxer::new();
    let result = lexxer.parse(input);
    assert_eq!(result, expected_result);
}

// A whole answer chunk, e.g.
// < (LABEL) \"Hello World\"
#[test]
fn lex_a_answer_line() {
    let input = b"< (LABEL) \"Hello World\"";

    let expected_tokens = vec![
        Token::LeftAngular,
        Token::LabelLiteral(b"LABEL".to_vec()),
        Token::StringLiteral(b"Hello World".to_vec()),
    ];
    let expected_result: Result<Vec<Token>, LexxerError> = Ok(expected_tokens);

    let mut lexxer = Lexxer::new();
    let result = lexxer.parse(input);
    assert_eq!(result, expected_result);
}

// A whole multiline prompt chunk
#[test]
fn lex_multi_line_string() {
    let input = b"> (LABEL) \"Hello\nWorld\"";

    let expected_tokens = vec![
        Token::RightAngular,
        Token::LabelLiteral(b"LABEL".to_vec()),
        Token::StringLiteral(b"Hello\nWorld".to_vec()),
    ];
    let expected_result: Result<Vec<Token>, LexxerError> = Ok(expected_tokens);

    let mut lexxer = Lexxer::new();
    let result = lexxer.parse(input);
    assert_eq!(result, expected_result);
}

// Bad syntaxes
#[test]
fn fail_to_lex_bad_labels_1() {
    let input = b"> (LABEL \"Hello\nWorld\"";

    let expected_result: Result<Vec<Token>, LexxerError> = Err(LexxerError::InvalidLabelCharacter);

    let mut lexxer = Lexxer::new();
    let result = lexxer.parse(input);
    assert_eq!(result, expected_result);
}

#[test]
fn fail_to_lex_bad_labels_2() {
    let input = b"> (LABEL_BOO_BOO";

    let expected_result: Result<Vec<Token>, LexxerError> =
        Err(LexxerError::UnterminatedLabelLiteral);

    let mut lexxer = Lexxer::new();
    let result = lexxer.parse(input);
    assert_eq!(result, expected_result);
}

#[test]
fn fail_to_lex_bad_labels_3() {
    let input = b"> (LABEL\nBOO_BOO";

    let expected_result: Result<Vec<Token>, LexxerError> = Err(LexxerError::InvalidLabelCharacter);

    let mut lexxer = Lexxer::new();
    let result = lexxer.parse(input);
    assert_eq!(result, expected_result);
}

// Bad syntaxes being ignored
#[test]
fn ignores_weird_stuff_1() {
    let input = b"> LABEL)";

    let expected_tokens = vec![Token::RightAngular];

    let expected_result: Result<Vec<Token>, LexxerError> = Ok(expected_tokens);

    let mut lexxer = Lexxer::new();
    let result = lexxer.parse(input);
    assert_eq!(result, expected_result);
}

#[test]
fn ignores_weird_stuff_2() {
    let input = b"> (LABEL) Hello World";

    let expected_tokens = vec![Token::RightAngular, Token::LabelLiteral(b"LABEL".to_vec())];

    let expected_result: Result<Vec<Token>, LexxerError> = Ok(expected_tokens);

    let mut lexxer = Lexxer::new();
    let result = lexxer.parse(input);
    assert_eq!(result, expected_result);
}

// label literals
// e.g. (LABEL)
#[test]
fn lex_a_label() {
    let input = b"(LABEL)";

    let result = parse_label_block_greedily(input);
    let expected_result: Result<StringyParseResult, LexxerError> = Ok(StringyParseResult {
        relative_end_index: 6,
        data: b"LABEL".to_vec(),
    });

    assert_eq!(result, expected_result);
}

// label literals with LABELs
// e.g. (LABEL_1)
#[test]
fn lex_a_label_with_symbols() {
    let input = b"(LABEL_1)";

    let result = parse_label_block_greedily(input);
    let expected_result: Result<StringyParseResult, LexxerError> = Ok(StringyParseResult {
        relative_end_index: 8,
        data: b"LABEL_1".to_vec(),
    });

    assert_eq!(result, expected_result);
}

// Lex a blank LABEL
// e.g. ()
#[test]
fn lex_a_blank_label() {
    let input = b"()";

    let result = parse_label_block_greedily(input);
    let expected_result: Result<StringyParseResult, LexxerError> = Ok(StringyParseResult {
        relative_end_index: 1,
        data: b"".to_vec(),
    });

    assert_eq!(result, expected_result);
}

// String literals
#[test]
fn lex_a_string_literal() {
    let input = b"\"Hello\"";

    let result = parse_string_literal_greedily(input);
    let expected_result: Result<StringyParseResult, LexxerError> = Ok(StringyParseResult {
        relative_end_index: 6,
        data: b"Hello".to_vec(),
    });

    assert_eq!(result, expected_result);
}

// String literals
#[test]
fn lex_a_blank_string_literal() {
    let input = b"\"\"";

    let result = parse_string_literal_greedily(input);
    let expected_result: Result<StringyParseResult, LexxerError> = Ok(StringyParseResult {
        relative_end_index: 1,
        data: b"".to_vec(),
    });

    assert_eq!(result, expected_result);
}

#[test]
fn fail_to_parse_unterminated_string_literal() {
    let input = b"\"Hello";

    let result = parse_string_literal_greedily(input);
    let expected_result: Result<StringyParseResult, LexxerError> =
        Err(LexxerError::UnterminatedStringLiteral);

    assert_eq!(result, expected_result);
}

#[test]
fn fail_to_parse_naked_string_literal() {
    let input = b"Hello World!";

    let result = parse_string_literal_greedily(input);
    let expected_result: Result<StringyParseResult, LexxerError> =
        Err(LexxerError::UnterminatedStringLiteral);

    assert_eq!(result, expected_result);
}
