use promptgen::chunker::{parse_label_and_text_greedily, Chunk, ChunkVariant, Chunker, ChunkingError};
use promptgen::lexer::Token;

// Parse a series of tokens into chunks
#[test]
fn parse_tokens_to_chunks() {
    let input_tokens = vec![
        Token::RightAngular,
        Token::StringLiteral(b"Hello world".to_vec()),
        Token::LeftAngular,
        Token::LabelLiteral(b"LABEL_1".to_vec()),
        Token::StringLiteral(b"Hello me".to_vec()),
    ];

    let mut chunker = Chunker::new();
    let parsing_results = chunker.parse_tokens(input_tokens);

    let expect_chunks = vec![
        Chunk {
            variant: ChunkVariant::Prompt,
            label: None,
            text: b"Hello world".to_vec(),
        },
        Chunk {
            variant: ChunkVariant::Response,
            label: Some(b"LABEL_1".to_vec()),
            text: b"Hello me".to_vec(),
        },
    ];

    assert_eq!(parsing_results, Ok(expect_chunks));
}

// Fail to parse a series of invalid tokens
#[test]
fn fail_to_parse_token_chunks() {
    let input_tokens = vec![
        Token::RightAngular,
        Token::LeftAngular,
        Token::StringLiteral(b"something".to_vec()),
    ];

    let mut chunker = Chunker::new();
    let parsing_result = chunker.parse_tokens(input_tokens);

    assert_eq!(parsing_result, Err(ChunkingError::InvalidSyntax));
}

// Parse prompt tokens
#[test]
fn parse_prompt_part_with_label() {
    let input_tokens = vec![
        Token::RightAngular,
        Token::LabelLiteral(b"LABEL_1".to_vec()),
        Token::StringLiteral(b"Hello World".to_vec()),
        Token::LeftAngular,
    ];

    let parse_results = parse_label_and_text_greedily(&input_tokens[1..]);
    let expected_parse_result = (1, Some(b"LABEL_1".to_vec()), b"Hello World".to_vec());

    assert_eq!(parse_results, Ok(expected_parse_result));
}

// Parse prompt tokens
#[test]
fn parse_prompt_part_without_label() {
    let input_tokens = vec![
        Token::LeftAngular,
        Token::StringLiteral(b"Hello World".to_vec()),
        Token::RightAngular,
    ];

    let parse_results = parse_label_and_text_greedily(&input_tokens[1..]);
    let expected_parse_result = (0, None, b"Hello World".to_vec());

    assert_eq!(parse_results, Ok(expected_parse_result));
}

// Fail to parse invalid syntax
#[test]
fn parse_bad_syntax() {
    let input_tokens = vec![Token::RightAngular];

    let parse_results = parse_label_and_text_greedily(&input_tokens);
    let expected_parse_result = Err(ChunkingError::InvalidSyntax);
    assert_eq!(parse_results, expected_parse_result);
}
