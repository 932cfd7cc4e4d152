//! Chunk grouping: a scan over the token sequence that pairs each
//! directional marker with an optional label and its quoted text, producing
//! one chunk per line of dialogue.

use vstd::prelude::*;

use crate::lexer::Token;
use crate::lexer::TokenView;

verus! {

/// The direction a chunk carries: a question put to the player, or one of
/// the answers offered for it.
#[derive(Debug, PartialEq, Eq, Structural, Clone, Copy)]
pub enum ChunkVariant {
    Prompt,
    Response,
}

/// One line of dialogue: a direction, an optional jump label, and the text.
#[derive(Debug, PartialEq, Eq)]
pub struct Chunk {
    pub variant: ChunkVariant,
    pub text: Vec<u8>,
    pub label: Option<Vec<u8>>,
}

/// The mathematical shape of a chunk.
#[verifier::ext_equal]
pub struct ChunkView {
    pub variant: ChunkVariant,
    pub text: Seq<u8>,
    pub label: Option<Seq<u8>>,
}

impl View for Chunk {
    type V = ChunkView;

    open spec fn view(&self) -> ChunkView {
        ChunkView { variant: self.variant, text: self.text@, label: self.label.deep_view() }
    }
}

impl DeepView for Chunk {
    type V = ChunkView;

    open spec fn deep_view(&self) -> ChunkView {
        self.view()
    }
}

/// A fault found while grouping tokens into chunks.
#[derive(Debug, PartialEq, Eq, Structural)]
pub enum ChunkingError {
    InvalidSyntax,
}

/// What follows a marker: either a label literal then a string literal, or a
/// string literal alone. The first component is the index of the last
/// consumed token within the given suffix.
pub open spec fn take_label_and_text(tokens: Seq<TokenView>) -> Result<
    (int, Option<Seq<u8>>, Seq<u8>),
    ChunkingError,
> {
    if tokens.len() >= 2 && tokens[0] is LabelLiteral && tokens[1] is StringLiteral {
        Ok((1, Some(tokens[0]->LabelLiteral_0), tokens[1]->StringLiteral_0))
    } else if tokens.len() >= 1 && tokens[0] is StringLiteral {
        Ok((0, None, tokens[0]->StringLiteral_0))
    } else {
        Err(ChunkingError::InvalidSyntax)
    }
}

/// Prepends an already-grouped chunk to the outcome of grouping the rest.
pub open spec fn chunk_cont(
    head: ChunkView,
    rest: Result<Seq<ChunkView>, ChunkingError>,
) -> Result<Seq<ChunkView>, ChunkingError> {
    match rest {
        Ok(chunks) => Ok(seq![head] + chunks),
        Err(e) => Err(e),
    }
}

/// The chunk sequence produced by grouping `tokens` from position `i` to the
/// end: each position must hold a marker, followed by label-and-text or text
/// alone; anything else fails the whole grouping.
pub open spec fn chunks_from(tokens: Seq<TokenView>, i: int) -> Result<Seq<ChunkView>, ChunkingError>
    decreases tokens.len() - i,
{
    if i < 0 || i >= tokens.len() {
        Ok(Seq::empty())
    } else if tokens[i] is RightAngular || tokens[i] is LeftAngular {
        let variant = if tokens[i] is RightAngular {
            ChunkVariant::Prompt
        } else {
            ChunkVariant::Response
        };
        match take_label_and_text(tokens.subrange(i + 1, tokens.len() as int)) {
            Ok(plt) => chunk_cont(
                ChunkView { variant, text: plt.2, label: plt.1 },
                chunks_from(tokens, i + plt.0 + 2),
            ),
            Err(e) => Err(e),
        }
    } else {
        Err(ChunkingError::InvalidSyntax)
    }
}

/// Reads a label-then-text pair, or text alone, from the front of the given
/// token suffix; any other arrangement is a syntax error.
pub fn parse_label_and_text_greedily(tokens: &[Token]) -> (r: Result<
    (usize, Option<Vec<u8>>, Vec<u8>),
    ChunkingError,
>)
    ensures
        (match take_label_and_text(tokens.deep_view()) {
            Ok(plt) => r matches Ok(t) && t.0 == plt.0 && t.1.deep_view() == plt.1 && t.2@ == plt.2,
            Err(e) => r == Err::<(usize, Option<Vec<u8>>, Vec<u8>), ChunkingError>(e),
        }),
{
    proof {
        assert(tokens.deep_view().len() == tokens@.len());
        if tokens@.len() >= 1 {
            assert(tokens.deep_view()[0] == tokens@[0].deep_view());
        }
        if tokens@.len() >= 2 {
            assert(tokens.deep_view()[1] == tokens@[1].deep_view());
        }
    }
    match (tokens.get(0), tokens.get(1)) {
        (Some(Token::LabelLiteral(label_text)), Some(Token::StringLiteral(string_text))) => Ok(
            (1, Some(clone_bytes(label_text)), clone_bytes(string_text)),
        ),
        (Some(Token::StringLiteral(string_text)), _) => Ok((0, None, clone_bytes(string_text))),
        _ => Err(ChunkingError::InvalidSyntax),
    }
}

/// Copies a byte vector; the copy holds the same bytes.
pub fn clone_bytes(v: &Vec<u8>) -> (r: Vec<u8>)
    ensures
        r@ == v@,
{
    let r = v.clone();
    proof {
        assert forall|i: int| 0 <= i < v@.len() implies v@[i] == r@[i] by {
            assert(vstd::pervasive::cloned::<u8>(v[i], r[i]));
        }
        assert(v@ =~= r@);
    }
    r
}

/// Copies an optional byte vector.
pub fn clone_label(v: &Option<Vec<u8>>) -> (r: Option<Vec<u8>>)
    ensures
        r.deep_view() == v.deep_view(),
{
    match v {
        Some(bytes) => Some(clone_bytes(bytes)),
        None => None,
    }
}

/// The grouping pass: walks the token sequence and accumulates chunks.
pub struct Chunker {
    scan_position: usize,
}

impl Chunker {
    /// True of a chunker that has not consumed anything yet.
    pub closed spec fn fresh(self) -> bool {
        self.scan_position == 0
    }

    pub fn new() -> (r: Self)
        ensures
            r.fresh(),
    {
        Self { scan_position: 0 }
    }

    /// Groups the whole token sequence into the chunk sequence `chunks_from`
    /// describes, or fails with the first arrangement it cannot read.
    pub fn parse_tokens(&mut self, tokens: Vec<Token>) -> (r: Result<Vec<Chunk>, ChunkingError>)
        requires
            old(self).fresh(),
        ensures
            (match r {
                Ok(chunks) => chunks_from(tokens.deep_view(), 0) == Ok::<
                    Seq<ChunkView>,
                    ChunkingError,
                >(chunks.deep_view()),
                Err(e) => chunks_from(tokens.deep_view(), 0) == Err::<
                    Seq<ChunkView>,
                    ChunkingError,
                >(e),
            }),
    {
        let mut chunks: Vec<Chunk> = Vec::new();
        let ghost tv = tokens.deep_view();

        proof {
            assert(chunks.deep_view() =~= Seq::<ChunkView>::empty());
            match chunks_from(tv, 0) {
                Ok(rest) => {
                    assert(Seq::<ChunkView>::empty() + rest =~= rest);
                },
                Err(_) => {},
            }
        }

        loop
            invariant
                self.scan_position <= tv.len(),
                tv == tokens.deep_view(),
                chunks_from(tv, 0) == chunk_seq_cont(
                    chunks.deep_view(),
                    chunks_from(tv, self.scan_position as int),
                ),
            decreases tv.len() - self.scan_position,
        {
            let pos = self.scan_position;
            let ghost prefix = chunks.deep_view();
            let variant = match tokens.as_slice().get(pos) {
                None => {
                    proof {
                        assert(chunks_from(tv, 0) == Ok::<Seq<ChunkView>, ChunkingError>(
                            prefix + Seq::<ChunkView>::empty(),
                        ));
                        assert(prefix + Seq::<ChunkView>::empty() =~= prefix);
                    }
                    return Ok(chunks);
                },
                Some(Token::RightAngular) => ChunkVariant::Prompt,
                Some(Token::LeftAngular) => ChunkVariant::Response,
                Some(_) => {
                    return Err(ChunkingError::InvalidSyntax);
                },
            };
            let sub = vstd::slice::slice_subrange(tokens.as_slice(), pos + 1, tokens.len());
            proof {
                assert(sub.deep_view() =~= tv.subrange(pos + 1, tv.len() as int));
            }
            match parse_label_and_text_greedily(sub) {
                Err(e) => {
                    return Err(e);
                },
                Ok((relative_end_index, label, text)) => {
                    self.scan_position = pos + relative_end_index + 2;
                    let head = Chunk { variant, text, label };
                    let ghost head_view = head@;
                    chunks.push(head);
                    proof {
                        assert(chunks.deep_view() =~= prefix.push(head_view));
                        lemma_chunk_cont_step(
                            tv,
                            pos as int,
                            prefix,
                            head_view,
                            pos + relative_end_index + 2,
                        );
                    }
                },
            }
        }
    }
}

/// Prepends an already-grouped chunk prefix to the outcome of grouping the
/// rest.
pub open spec fn chunk_seq_cont(
    prefix: Seq<ChunkView>,
    rest: Result<Seq<ChunkView>, ChunkingError>,
) -> Result<Seq<ChunkView>, ChunkingError> {
    match rest {
        Ok(chunks) => Ok(prefix + chunks),
        Err(e) => Err(e),
    }
}

/// One grouping step: when position `i` yields one chunk `c` and the scan
/// resumes at `next`, the already-collected prefix simply grows by `c`.
proof fn lemma_chunk_cont_step(
    tokens: Seq<TokenView>,
    i: int,
    prefix: Seq<ChunkView>,
    c: ChunkView,
    next: int,
)
    requires
        chunks_from(tokens, i) == chunk_cont(c, chunks_from(tokens, next)),
    ensures
        chunk_seq_cont(prefix, chunks_from(tokens, i)) == chunk_seq_cont(
            prefix.push(c),
            chunks_from(tokens, next),
        ),
{
    match chunks_from(tokens, next) {
        Ok(chunks) => {
            assert(prefix + (seq![c] + chunks) =~= prefix.push(c) + chunks);
        },
        Err(_) => {},
    }
}

} // verus!
