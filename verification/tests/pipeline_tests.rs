use promptgen::lexer::{Lexxer, LexxerError, Token};
use promptgen::parser::{Prompt, Response};
use promptgen::prompter::{Prompter, PrompterErr};
use promptgen::render::render;
use promptgen::{parse, PromptgenErr};

const EXAMPLE: &[u8] = b"> (START) \"Are you a human?\"
< \"Yes, I am\"
< (ANS_NO) \"No\"
> (ANS_NO) \"That's very weird! Care to try again?\"
< (START) \"Please!\"
";

// The end-to-end example: two prompts, a jump, and a loop back to the start.
#[test]
fn example_script_parses_to_two_prompts() {
    let result = parse(EXAMPLE).unwrap();
    let expected = vec![
        Prompt {
            text: b"Are you a human?".to_vec(),
            label: Some(b"START".to_vec()),
            responses: vec![
                Response {
                    text: b"Yes, I am".to_vec(),
                    label: None,
                },
                Response {
                    text: b"No".to_vec(),
                    label: Some(b"ANS_NO".to_vec()),
                },
            ],
        },
        Prompt {
            text: b"That's very weird! Care to try again?".to_vec(),
            label: Some(b"ANS_NO".to_vec()),
            responses: vec![Response {
                text: b"Please!".to_vec(),
                label: Some(b"START".to_vec()),
            }],
        },
    ];
    assert_eq!(result, expected);
}

#[test]
fn example_script_navigation_loops() {
    let prompts = parse(EXAMPLE).unwrap();
    let session = Prompter::new(prompts).unwrap();
    assert_eq!(session.next_idx, 0);
    assert_eq!(session.next().label, Some(b"START".to_vec()));

    let first = session.next();
    let session = session.answer(&first.responses[1]).unwrap();
    assert_eq!(session.next_idx, 1);
    assert_eq!(session.next().label, Some(b"ANS_NO".to_vec()));

    let second = session.next();
    let session = session.answer(&second.responses[0]).unwrap();
    assert_eq!(session.next_idx, 0);
    assert_eq!(session.next().label, Some(b"START".to_vec()));
}

// A cloned session navigates independently of the one it was copied from.
#[test]
fn cloned_session_navigates_independently() {
    let prompts = parse(EXAMPLE).unwrap();
    let session = Prompter::new(prompts).unwrap();
    let first = session.next();

    let branch = session.clone().answer(&first.responses[1]).unwrap();
    assert_eq!(branch.next_idx, 1);

    let advanced = session.answer(&first.responses[0]).unwrap();
    assert_eq!(advanced.next_idx, 1);
    let last = advanced.next();
    let looped = advanced.answer(&last.responses[0]).unwrap();
    assert_eq!(looped.next_idx, 0);
}

// Round trip: parse, render back to text, parse again; both parses agree.
#[test]
fn render_round_trip_on_example() {
    let prompts = parse(EXAMPLE).unwrap();
    let text = render(&prompts);
    let reparsed = parse(&text).unwrap();
    assert_eq!(prompts, reparsed);
}

#[test]
fn render_round_trip_without_labels() {
    let input: &[u8] = b"> \"Are you a human?\"\n< \"Yes\"\n> \"Nice! Glad to meet you human!\"\n";
    let prompts = parse(input).unwrap();
    let text = render(&prompts);
    let reparsed = parse(&text).unwrap();
    assert_eq!(prompts, reparsed);
}

// An empty label literal is a present-but-empty label, not a missing one.
#[test]
fn empty_label_is_distinct_from_no_label() {
    let input: &[u8] = b"> () \"question\"\n< \"answer\"\n";
    let prompts = parse(input).unwrap();
    assert_eq!(prompts.len(), 1);
    assert_eq!(prompts[0].label, Some(b"".to_vec()));
    assert_eq!(prompts[0].responses[0].label, None);
}

// A quoted string may span a literal newline and keeps it verbatim.
#[test]
fn multiline_text_survives_parsing() {
    let input: &[u8] = b"> (A) \"line one\nline two\"\n";
    let prompts = parse(input).unwrap();
    assert_eq!(prompts[0].text, b"line one\nline two".to_vec());
}

// The starting prompt is the one labeled START, wherever it stands.
#[test]
fn start_selects_labeled_prompt_anywhere() {
    let input: &[u8] = b"> (A) \"first\"\n> (START) \"second\"\n> (B) \"third\"\n";
    let prompts = parse(input).unwrap();
    let session = Prompter::new(prompts).unwrap();
    assert_eq!(session.next_idx, 1);
    assert_eq!(session.next().text, b"second".to_vec());
}

// Without a START label the session begins at the first prompt.
#[test]
fn start_falls_back_to_first_prompt() {
    let input: &[u8] = b"> (A) \"first\"\n> (B) \"second\"\n";
    let prompts = parse(input).unwrap();
    let session = Prompter::new(prompts).unwrap();
    assert_eq!(session.next_idx, 0);
}

// An empty script cannot be navigated.
#[test]
fn start_fails_on_empty_script() {
    let prompts = parse(b"").unwrap();
    assert_eq!(prompts.len(), 0);
    assert!(Prompter::new(prompts).is_err());
}

// A labeled answer jumps to the first prompt carrying the label, even when
// several prompts share it.
#[test]
fn answer_jumps_to_first_matching_label() {
    let input: &[u8] = b"> (START) \"a\"\n< (DUP) \"go\"\n> (DUP) \"b\"\n> (DUP) \"c\"\n";
    let prompts = parse(input).unwrap();
    let session = Prompter::new(prompts).unwrap();
    let first = session.next();
    let session = session.answer(&first.responses[0]).unwrap();
    assert_eq!(session.next_idx, 1);
    assert_eq!(session.next().text, b"b".to_vec());
}

// An unlabeled answer advances sequentially.
#[test]
fn unlabeled_answer_advances() {
    let input: &[u8] = b"> \"first\"\n< \"next please\"\n> \"second\"\n";
    let prompts = parse(input).unwrap();
    let session = Prompter::new(prompts).unwrap();
    let first = session.next();
    let session = session.answer(&first.responses[0]).unwrap();
    assert_eq!(session.next_idx, 1);
    assert_eq!(session.next().text, b"second".to_vec());
}

// An unlabeled answer on the last prompt runs off the end of the script.
#[test]
fn unlabeled_answer_on_last_prompt_fails() {
    let input: &[u8] = b"> \"only\"\n< \"onwards\"\n";
    let prompts = parse(input).unwrap();
    let session = Prompter::new(prompts).unwrap();
    let only = session.next();
    let result = session.answer(&only.responses[0]);
    assert!(matches!(result, Err(PrompterErr::NoMoreQ)));
}

// An answer naming a label no prompt carries is a dead branch.
#[test]
fn answer_with_unknown_label_fails() {
    let input: &[u8] = b"> \"only\"\n< (NOWHERE) \"go\"\n";
    let prompts = parse(input).unwrap();
    let session = Prompter::new(prompts).unwrap();
    let only = session.next();
    let result = session.answer(&only.responses[0]);
    assert!(matches!(result, Err(PrompterErr::BadResponse)));
}

// A marker followed by an opening label that never closes fails the scan.
#[test]
fn unterminated_label_fails_lexing() {
    let input: &[u8] = b"> (";
    let mut lexxer = Lexxer::new();
    let result: Result<Vec<Token>, LexxerError> = lexxer.parse(input);
    assert_eq!(result, Err(LexxerError::UnterminatedLabelLiteral));
}

// The full pipeline collapses every lexical or structural fault into one
// coarse syntax error.
#[test]
fn parse_collapses_errors_to_invalid_syntax() {
    assert!(matches!(parse(b"> ("), Err(PromptgenErr::InvalidSyntax)));
    assert!(matches!(parse(b"\"naked\""), Err(PromptgenErr::InvalidSyntax)));
}

// Stray response chunks with no owning prompt are skipped, and later prompts
// still parse.
#[test]
fn leading_responses_are_dropped() {
    let input: &[u8] = b"< \"stray\"\n> (A) \"kept\"\n";
    let prompts = parse(input).unwrap();
    assert_eq!(prompts.len(), 1);
    assert_eq!(prompts[0].text, b"kept".to_vec());
}

// All response chunks up to the next prompt chunk land on the prompt before
// them, in their original order.
#[test]
fn responses_attach_to_preceding_prompt_in_order() {
    let input: &[u8] = b"> (Q) \"pick\"\n< \"one\"\n< \"two\"\n< \"three\"\n> (R) \"done\"\n";
    let prompts = parse(input).unwrap();
    assert_eq!(prompts.len(), 2);
    let texts: Vec<&[u8]> = prompts[0].responses.iter().map(|r| r.text.as_slice()).collect();
    assert_eq!(texts, vec![&b"one"[..], &b"two"[..], &b"three"[..]]);
    assert_eq!(prompts[1].responses.len(), 0);
}
