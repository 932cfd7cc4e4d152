//! Lexical scanning: one left-to-right pass turning raw bytes into a flat
//! token sequence. Marker bytes emit marker tokens, quoted regions become
//! string literals, parenthesised regions become label literals, and every
//! other byte is silently skipped.

use vstd::prelude::*;

verus! {

/// A fault found while scanning the raw bytes.
#[derive(Debug, PartialEq, Eq, Structural)]
pub enum LexxerError {
    InvalidSyntax,
    UnterminatedLabelLiteral,
    UnterminatedStringLiteral,
    InvalidLabelCharacter,
}

/// One lexical token. Literal tokens own a copy of the bytes they cover.
#[derive(Debug, PartialEq, Eq)]
pub enum Token {
    RightAngular,
    LeftAngular,
    StringLiteral(Vec<u8>),
    LabelLiteral(Vec<u8>),
}

/// The mathematical shape of a token: literal contents as byte sequences.
#[verifier::ext_equal]
pub enum TokenView {
    RightAngular,
    LeftAngular,
    StringLiteral(Seq<u8>),
    LabelLiteral(Seq<u8>),
}

impl View for Token {
    type V = TokenView;

    open spec fn view(&self) -> TokenView {
        match self {
            Token::RightAngular => TokenView::RightAngular,
            Token::LeftAngular => TokenView::LeftAngular,
            Token::StringLiteral(text) => TokenView::StringLiteral(text@),
            Token::LabelLiteral(text) => TokenView::LabelLiteral(text@),
        }
    }
}

impl DeepView for Token {
    type V = TokenView;

    open spec fn deep_view(&self) -> TokenView {
        self.view()
    }
}

/// The bytes `u8::is_ascii_whitespace` accepts: space, tab, line feed, form
/// feed, carriage return.
pub open spec fn is_ws(b: u8) -> bool {
    b == 32 || b == 9 || b == 10 || b == 12 || b == 13
}

fn is_ws_byte(b: u8) -> (r: bool)
    ensures
        r == is_ws(b),
{
    b == 32 || b == 9 || b == 10 || b == 12 || b == 13
}

/// Index of the first `"` byte at or after `i`, or the error the scan for a
/// closing quote ends with when the input runs out first.
pub open spec fn string_scan(data: Seq<u8>, i: int) -> Result<int, LexxerError>
    decreases data.len() - i,
{
    if i < 0 || i >= data.len() {
        Err(LexxerError::UnterminatedStringLiteral)
    } else if data[i] == 34 {
        Ok(i)
    } else {
        string_scan(data, i + 1)
    }
}

/// Index of the first `)` byte at or after `i`; a whitespace byte found
/// first is a hard error, and running out of input is another.
pub open spec fn label_scan(data: Seq<u8>, i: int) -> Result<int, LexxerError>
    decreases data.len() - i,
{
    if i < 0 || i >= data.len() {
        Err(LexxerError::UnterminatedLabelLiteral)
    } else if is_ws(data[i]) {
        Err(LexxerError::InvalidLabelCharacter)
    } else if data[i] == 41 {
        Ok(i)
    } else {
        label_scan(data, i + 1)
    }
}

/// A successful string scan lands on the first closing quote.
pub proof fn lemma_string_scan_bounds(data: Seq<u8>, i: int)
    requires
        0 <= i,
    ensures
        string_scan(data, i) matches Ok(j) ==> i <= j < data.len() && data[j] == 34 && (forall|
            k: int,
        | i <= k < j ==> data[k] != 34),
    decreases data.len() - i,
{
    if i < data.len() && data[i] != 34 {
        lemma_string_scan_bounds(data, i + 1);
    }
}

/// A successful label scan lands on the first closing parenthesis, and no
/// byte before it is whitespace.
pub proof fn lemma_label_scan_bounds(data: Seq<u8>, i: int)
    requires
        0 <= i,
    ensures
        label_scan(data, i) matches Ok(j) ==> i <= j < data.len() && data[j] == 41 && (forall|
            k: int,
        | i <= k < j ==> data[k] != 41 && !is_ws(data[k])),
    decreases data.len() - i,
{
    if i < data.len() && !is_ws(data[i]) && data[i] != 41 {
        lemma_label_scan_bounds(data, i + 1);
    }
}

/// Result of scanning one delimited literal: the index of its closing byte
/// relative to the start of the given suffix, and a copy of the enclosed
/// bytes.
#[derive(Debug, PartialEq, Eq)]
pub struct StringyParseResult {
    pub relative_end_index: usize,
    pub data: Vec<u8>,
}

/// Scans the suffix that starts at an opening quote for the matching closing
/// quote; the enclosed bytes (quotes excluded) become the literal's text.
pub fn parse_string_literal_greedily(data: &[u8]) -> (r: Result<StringyParseResult, LexxerError>)
    ensures
        (match string_scan(data@, 1) {
            Ok(j) => r matches Ok(res) && res.relative_end_index == j && res.data@
                == data@.subrange(1, j),
            Err(e) => r == Err::<StringyParseResult, LexxerError>(e),
        }),
{
    let mut idx: usize = 1;

    loop
        invariant
            1 <= idx <= data@.len() + 1,
            string_scan(data@, 1) == string_scan(data@, idx as int),
        decreases data@.len() + 1 - idx,
    {
        match data.get(idx) {
            None => {
                return Err(LexxerError::UnterminatedStringLiteral);
            },
            Some(x) => {
                if *x == 34 {
                    let text = vstd::slice::slice_to_vec(
                        vstd::slice::slice_subrange(data, 1, idx),
                    );
                    return Ok(StringyParseResult { relative_end_index: idx, data: text });
                }
            },
        }
        idx = idx + 1;
    }
}

/// Scans the suffix that starts at an opening parenthesis for the matching
/// closing parenthesis; whitespace inside the label is a hard error.
pub fn parse_label_block_greedily(data: &[u8]) -> (r: Result<StringyParseResult, LexxerError>)
    ensures
        (match label_scan(data@, 1) {
            Ok(j) => r matches Ok(res) && res.relative_end_index == j && res.data@
                == data@.subrange(1, j),
            Err(e) => r == Err::<StringyParseResult, LexxerError>(e),
        }),
{
    let mut idx: usize = 1;

    loop
        invariant
            1 <= idx <= data@.len() + 1,
            label_scan(data@, 1) == label_scan(data@, idx as int),
        decreases data@.len() + 1 - idx,
    {
        match data.get(idx) {
            None => {
                return Err(LexxerError::UnterminatedLabelLiteral);
            },
            Some(x) => {
                if is_ws_byte(*x) {
                    return Err(LexxerError::InvalidLabelCharacter);
                }
                if *x == 41 {
                    let text = vstd::slice::slice_to_vec(
                        vstd::slice::slice_subrange(data, 1, idx),
                    );
                    return Ok(StringyParseResult { relative_end_index: idx, data: text });
                }
            },
        }
        idx = idx + 1;
    }
}

/// Prepends already-scanned tokens to the outcome of scanning the rest.
pub open spec fn lex_cont(
    prefix: Seq<TokenView>,
    rest: Result<Seq<TokenView>, LexxerError>,
) -> Result<Seq<TokenView>, LexxerError> {
    match rest {
        Ok(tokens) => Ok(prefix + tokens),
        Err(e) => Err(e),
    }
}

/// The token sequence produced by scanning `data` from position `i` to the
/// end: `>` and `<` emit marker tokens, a quoted region emits one string
/// literal, a parenthesised region emits one label literal, and any other
/// byte is skipped.
pub open spec fn lex_from(data: Seq<u8>, i: int) -> Result<Seq<TokenView>, LexxerError>
    decreases data.len() - i,
{
    if i < 0 || i >= data.len() {
        Ok(Seq::empty())
    } else if data[i] == 62 {
        lex_cont(seq![TokenView::RightAngular], lex_from(data, i + 1))
    } else if data[i] == 60 {
        lex_cont(seq![TokenView::LeftAngular], lex_from(data, i + 1))
    } else if data[i] == 34 {
        match string_scan(data, i + 1) {
            Ok(j) => {
                proof {
                    lemma_string_scan_bounds(data, i + 1);
                }
                lex_cont(
                    seq![TokenView::StringLiteral(data.subrange(i + 1, j))],
                    lex_from(data, j + 1),
                )
            },
            Err(e) => Err(e),
        }
    } else if data[i] == 40 {
        match label_scan(data, i + 1) {
            Ok(j) => {
                proof {
                    lemma_label_scan_bounds(data, i + 1);
                }
                lex_cont(
                    seq![TokenView::LabelLiteral(data.subrange(i + 1, j))],
                    lex_from(data, j + 1),
                )
            },
            Err(e) => Err(e),
        }
    } else {
        lex_from(data, i + 1)
    }
}

/// Scanning a suffix is the same scan shifted: positions in the suffix map
/// one-for-one onto positions in the whole buffer.
pub proof fn lemma_string_scan_shift(data: Seq<u8>, pos: int, k: int)
    requires
        0 <= pos <= data.len(),
        0 <= k,
    ensures
        string_scan(data.subrange(pos, data.len() as int), k) == (match string_scan(
            data,
            pos + k,
        ) {
            Ok(j) => Ok::<int, LexxerError>(j - pos),
            Err(e) => Err::<int, LexxerError>(e),
        }),
    decreases data.len() - pos - k,
{
    let sub = data.subrange(pos, data.len() as int);
    if k < sub.len() && sub[k] != 34 {
        lemma_string_scan_shift(data, pos, k + 1);
    }
}

/// The label scan shifts across suffixes the same way.
pub proof fn lemma_label_scan_shift(data: Seq<u8>, pos: int, k: int)
    requires
        0 <= pos <= data.len(),
        0 <= k,
    ensures
        label_scan(data.subrange(pos, data.len() as int), k) == (match label_scan(data, pos + k) {
            Ok(j) => Ok::<int, LexxerError>(j - pos),
            Err(e) => Err::<int, LexxerError>(e),
        }),
    decreases data.len() - pos - k,
{
    let sub = data.subrange(pos, data.len() as int);
    if k < sub.len() && !is_ws(sub[k]) && sub[k] != 41 {
        lemma_label_scan_shift(data, pos, k + 1);
    }
}

/// The scanner for the markup: one pass over the bytes, no backtracking
/// across tokens.
pub struct Lexxer {
    scan_position: usize,
}

impl Lexxer {
    /// True of a scanner that has not consumed anything yet.
    pub closed spec fn fresh(self) -> bool {
        self.scan_position == 0
    }

    pub fn new() -> (r: Self)
        ensures
            r.fresh(),
    {
        Lexxer { scan_position: 0 }
    }

    /// Scans the whole buffer into the token sequence `lex_from` describes,
    /// or fails with the first error that scan meets.
    pub fn parse(&mut self, data: &[u8]) -> (r: Result<Vec<Token>, LexxerError>)
        requires
            old(self).fresh(),
        ensures
            (match r {
                Ok(tokens) => lex_from(data@, 0) == Ok::<Seq<TokenView>, LexxerError>(
                    tokens.deep_view(),
                ),
                Err(e) => lex_from(data@, 0) == Err::<Seq<TokenView>, LexxerError>(e),
            }),
    {
        let mut result: Vec<Token> = Vec::new();

        proof {
            assert(result.deep_view() =~= Seq::<TokenView>::empty());
            match lex_from(data@, 0) {
                Ok(tokens) => {
                    assert(Seq::<TokenView>::empty() + tokens =~= tokens);
                },
                Err(_) => {},
            }
        }

        loop
            invariant
                self.scan_position <= data@.len(),
                lex_from(data@, 0) == lex_cont(
                    result.deep_view(),
                    lex_from(data@, self.scan_position as int),
                ),
            decreases data@.len() - self.scan_position,
        {
            let pos = self.scan_position;
            let ghost prefix = result.deep_view();
            match data.get(pos) {
                None => {
                    proof {
                        assert(lex_from(data@, 0) == Ok::<Seq<TokenView>, LexxerError>(
                            prefix + Seq::empty(),
                        ));
                        assert(prefix + Seq::empty() =~= prefix);
                    }
                    return Ok(result);
                },
                Some(byte) => {
                    if *byte == 62 {
                        result.push(Token::RightAngular);
                        proof {
                            lemma_lex_cont_step(
                                data@,
                                pos as int,
                                prefix,
                                TokenView::RightAngular,
                                (pos + 1) as int,
                            );
                            assert(result.deep_view() =~= prefix.push(TokenView::RightAngular));
                        }
                    } else if *byte == 60 {
                        result.push(Token::LeftAngular);
                        proof {
                            lemma_lex_cont_step(
                                data@,
                                pos as int,
                                prefix,
                                TokenView::LeftAngular,
                                (pos + 1) as int,
                            );
                            assert(result.deep_view() =~= prefix.push(TokenView::LeftAngular));
                        }
                    } else if *byte == 34 {
                        proof {
                            lemma_string_scan_shift(data@, pos as int, 1);
                            lemma_string_scan_bounds(data@, pos as int + 1);
                        }
                        let sub = vstd::slice::slice_subrange(data, pos, data.len());
                        match parse_string_literal_greedily(sub) {
                            Err(e) => {
                                return Err(e);
                            },
                            Ok(res) => {
                                let ghost j = pos + res.relative_end_index;
                                self.scan_position = pos + res.relative_end_index;
                                proof {
                                    assert(res.data@ =~= data@.subrange(pos as int + 1, j as int));
                                }
                                result.push(Token::StringLiteral(res.data));
                                proof {
                                    lemma_lex_cont_step(
                                        data@,
                                        pos as int,
                                        prefix,
                                        TokenView::StringLiteral(
                                            data@.subrange(pos as int + 1, j as int),
                                        ),
                                        j + 1,
                                    );
                                    assert(result.deep_view() =~= prefix.push(
                                        TokenView::StringLiteral(
                                            data@.subrange(pos as int + 1, j as int),
                                        ),
                                    ));
                                }
                            },
                        }
                    } else if *byte == 40 {
                        proof {
                            lemma_label_scan_shift(data@, pos as int, 1);
                            lemma_label_scan_bounds(data@, pos as int + 1);
                        }
                        let sub = vstd::slice::slice_subrange(data, pos, data.len());
                        match parse_label_block_greedily(sub) {
                            Err(e) => {
                                return Err(e);
                            },
                            Ok(res) => {
                                let ghost j = pos + res.relative_end_index;
                                self.scan_position = pos + res.relative_end_index;
                                proof {
                                    assert(res.data@ =~= data@.subrange(pos as int + 1, j as int));
                                }
                                result.push(Token::LabelLiteral(res.data));
                                proof {
                                    lemma_lex_cont_step(
                                        data@,
                                        pos as int,
                                        prefix,
                                        TokenView::LabelLiteral(
                                            data@.subrange(pos as int + 1, j as int),
                                        ),
                                        j + 1,
                                    );
                                    assert(result.deep_view() =~= prefix.push(
                                        TokenView::LabelLiteral(
                                            data@.subrange(pos as int + 1, j as int),
                                        ),
                                    ));
                                }
                            },
                        }
                    }
                },
            }
            self.scan_position = self.scan_position + 1;
        }
    }
}

/// One scan step: when position `i` yields one token `t` and the scan
/// resumes at `next`, the already-collected prefix simply grows by `t`.
proof fn lemma_lex_cont_step(
    data: Seq<u8>,
    i: int,
    prefix: Seq<TokenView>,
    t: TokenView,
    next: int,
)
    requires
        lex_from(data, i) == lex_cont(seq![t], lex_from(data, next)),
    ensures
        lex_cont(prefix, lex_from(data, i)) == lex_cont(prefix.push(t), lex_from(data, next)),
{
    match lex_from(data, next) {
        Ok(tokens) => {
            assert(prefix + (seq![t] + tokens) =~= prefix.push(t) + tokens);
        },
        Err(_) => {},
    }
}

} // verus!
