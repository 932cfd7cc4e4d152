use promptgen::chunker::{Chunk, ChunkVariant};
use promptgen::parser::{parse_response_chunks_greedily, Parser, Prompt, Response};

// Parsing chunks fully
#[test]
fn parse_chunks_with_prompts_and_responses() {
    let input = vec![
        Chunk {
            variant: ChunkVariant::Prompt,
            text: b"Are you human?".to_vec(),
            label: Some(b"NONHUMAN".to_vec()),
        },
        Chunk {
            variant: ChunkVariant::Response,
            text: b"Yes".to_vec(),
            label: Some(b"HUMAN".to_vec()),
        },
        Chunk {
            variant: ChunkVariant::Response,
            text: b"No".to_vec(),
            label: Some(b"NONHUMAN".to_vec()),
        },
        Chunk {
            variant: ChunkVariant::Prompt,
            text: b"Nice to meet you".to_vec(),
            label: Some(b"HUMAN".to_vec()),
        },
    ];

    let expected_result = vec![
        Prompt {
            text: b"Are you human?".to_vec(),
            label: Some(b"NONHUMAN".to_vec()),
            responses: vec![
                Response {
                    text: b"Yes".to_vec(),
                    label: Some(b"HUMAN".to_vec()),
                },
                Response {
                    text: b"No".to_vec(),
                    label: Some(b"NONHUMAN".to_vec()),
                },
            ],
        },
        Prompt {
            text: b"Nice to meet you".to_vec(),
            label: Some(b"HUMAN".to_vec()),
            responses: vec![],
        },
    ];

    let mut parser = Parser::new();
    let parse_results = parser.parse_chunks(input);

    assert_eq!(parse_results, expected_result);
}

// Parsing some chunks into responses, until the next prompt.
#[test]
fn parse_a_few_responses() {
    let input = vec![
        Chunk {
            variant: ChunkVariant::Response,
            label: Some(b"NICE".to_vec()),
            text: b"Hello world?".to_vec(),
        },
        Chunk {
            variant: ChunkVariant::Response,
            label: Some(b"NICE2".to_vec()),
            text: b"Hello me!".to_vec(),
        },
        Chunk {
            variant: ChunkVariant::Prompt,
            label: None,
            text: b"Who are you?".to_vec(),
        },
    ];

    let result = parse_response_chunks_greedily(&input);

    let expected_result = vec![
        Response {
            text: b"Hello world?".to_vec(),
            label: Some(b"NICE".to_vec()),
        },
        Response {
            text: b"Hello me!".to_vec(),
            label: Some(b"NICE2".to_vec()),
        },
    ];

    assert_eq!(result, (Some(1), expected_result));
}

#[test]
fn parse_no_respinse() {
    let input = vec![Chunk {
        variant: ChunkVariant::Prompt,
        label: None,
        text: b"foobar".to_vec(),
    }];

    let results = parse_response_chunks_greedily(&input);

    let expected_relative_index: Option<usize> = None;
    let resultant_vec: Vec<Response> = vec![];

    assert_eq!(results, (expected_relative_index, resultant_vec));
}
