//! A small markup language for branching dialogue scripts, with a verified
//! text-to-structure pipeline (lexer, chunker, tree builder) and a verified
//! navigation engine that walks the resulting prompt list.

use vstd::prelude::*;

pub mod chunker;
pub mod lexer;
pub mod parser;
pub mod prompter;
pub mod render;

use crate::chunker::chunks_from;
use crate::chunker::Chunker;
use crate::lexer::lex_from;
use crate::lexer::Lexxer;
use crate::parser::build_from;
use crate::parser::Parser;
use crate::parser::Prompt;
use crate::parser::PromptView;

verus! {

/// The coarse error the full pipeline reports: every lexical or structural
/// fault collapses into one syntax-error value.
#[derive(Debug, PartialEq, Eq, Structural)]
pub enum PromptgenErr {
    InvalidSyntax,
}

/// What `parse` returns, as a function of the input bytes: the prompt list
/// built from the chunks grouped from the tokens scanned out of the input,
/// or one coarse syntax error if scanning or grouping fails.
pub open spec fn parse_spec(data: Seq<u8>) -> Result<Seq<PromptView>, PromptgenErr> {
    match lex_from(data, 0) {
        Err(_) => Err(PromptgenErr::InvalidSyntax),
        Ok(tokens) => match chunks_from(tokens, 0) {
            Err(_) => Err(PromptgenErr::InvalidSyntax),
            Ok(chunks) => Ok(build_from(chunks, 0)),
        },
    }
}

/// Runs the full pipeline on one input buffer.
pub fn parse(data: &[u8]) -> (r: Result<Vec<Prompt>, PromptgenErr>)
    ensures
        (match r {
            Ok(prompts) => parse_spec(data@) == Ok::<Seq<PromptView>, PromptgenErr>(
                prompts.deep_view(),
            ),
            Err(e) => parse_spec(data@) == Err::<Seq<PromptView>, PromptgenErr>(e),
        }),
{
    let mut lexer = Lexxer::new();
    let mut chunker = Chunker::new();
    let mut parser = Parser::new();

    let lexed_result = match lexer.parse(data) {
        Ok(tokens) => tokens,
        Err(_) => {
            return Err(PromptgenErr::InvalidSyntax);
        },
    };
    let chunked_result = match chunker.parse_tokens(lexed_result) {
        Ok(chunks) => chunks,
        Err(_) => {
            return Err(PromptgenErr::InvalidSyntax);
        },
    };
    Ok(parser.parse_chunks(chunked_result))
}

} // verus!
