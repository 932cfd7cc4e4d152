//! Serialization back to the script text format, and the round-trip
//! guarantee: a well-formed prompt list, rendered and parsed again, comes
//! back unchanged.

use vstd::prelude::*;

use crate::chunker::chunks_from;
use crate::chunker::clone_bytes;
use crate::chunker::clone_label;
use crate::chunker::take_label_and_text;
use crate::chunker::Chunk;
use crate::chunker::ChunkVariant;
use crate::chunker::ChunkView;
use crate::chunker::ChunkingError;
use crate::lexer::is_ws;
use crate::lexer::label_scan;
use crate::lexer::lemma_label_scan_bounds;
use crate::lexer::lemma_string_scan_bounds;
use crate::lexer::lex_cont;
use crate::lexer::lex_from;
use crate::lexer::string_scan;
use crate::lexer::LexxerError;
use crate::lexer::TokenView;
use crate::parser::build_from;
use crate::parser::leading_responses;
use crate::parser::lemma_leading_responses_exact;
use crate::parser::response_of;
use crate::parser::Prompt;
use crate::parser::PromptView;
use crate::parser::ResponseView;
use crate::parse_spec;
use crate::PromptgenErr;

verus! {

/// Text that survives quoting: it holds no quote byte, since the format has
/// no escape for one.
pub open spec fn text_ok(t: Seq<u8>) -> bool {
    forall|i: int| 0 <= i < t.len() ==> t[i] != 34
}

/// A label that survives parenthesising: no closing parenthesis and no
/// whitespace byte.
pub open spec fn label_ok(l: Seq<u8>) -> bool {
    forall|i: int| 0 <= i < l.len() ==> l[i] != 41 && !is_ws(l[i])
}

/// An optional label that survives rendering.
pub open spec fn label_opt_ok(l: Option<Seq<u8>>) -> bool {
    match l {
        Some(s) => label_ok(s),
        None => true,
    }
}

/// A chunk whose text and label survive rendering.
pub open spec fn chunk_wf(c: ChunkView) -> bool {
    text_ok(c.text) && label_opt_ok(c.label)
}

/// A response whose text and label survive rendering.
pub open spec fn response_wf(r: ResponseView) -> bool {
    text_ok(r.text) && label_opt_ok(r.label)
}

/// A prompt whose text, label and responses all survive rendering.
pub open spec fn prompt_wf(p: PromptView) -> bool {
    &&& text_ok(p.text)
    &&& label_opt_ok(p.label)
    &&& forall|k: int| 0 <= k < p.responses.len() ==> response_wf(p.responses[k])
}

/// A script whose prompts all survive rendering.
pub open spec fn script_wf(ps: Seq<PromptView>) -> bool {
    forall|k: int| 0 <= k < ps.len() ==> prompt_wf(ps[k])
}

/// The marker byte a direction is written as: `>` or `<`.
pub open spec fn marker_byte(v: ChunkVariant) -> u8 {
    if v is Prompt {
        62
    } else {
        60
    }
}

/// The bytes of an optional label: `(label) ` when present, nothing when
/// absent.
pub open spec fn render_label(l: Option<Seq<u8>>) -> Seq<u8> {
    match l {
        Some(s) => seq![40u8] + s + seq![41u8, 32u8],
        None => Seq::empty(),
    }
}

/// The bytes of one chunk: marker, space, optional label, quoted text, and a
/// closing newline.
pub open spec fn render_chunk(c: ChunkView) -> Seq<u8> {
    seq![marker_byte(c.variant), 32u8] + render_label(c.label) + seq![34u8] + c.text + seq![
        34u8,
        10u8,
    ]
}

/// The bytes of a chunk sequence, in order.
pub open spec fn render_chunks(cs: Seq<ChunkView>) -> Seq<u8>
    decreases cs.len(),
{
    if cs.len() == 0 {
        Seq::empty()
    } else {
        render_chunk(cs[0]) + render_chunks(cs.drop_first())
    }
}

/// The tokens one rendered chunk scans back to: a marker, the label literal
/// when a label is present, and the string literal.
pub open spec fn chunk_tokens(c: ChunkView) -> Seq<TokenView> {
    seq![
        if c.variant is Prompt {
            TokenView::RightAngular
        } else {
            TokenView::LeftAngular
        },
    ] + (match c.label {
        Some(l) => seq![TokenView::LabelLiteral(l)],
        None => Seq::empty(),
    }) + seq![TokenView::StringLiteral(c.text)]
}

/// The tokens a rendered chunk sequence scans back to.
pub open spec fn chunks_tokens(cs: Seq<ChunkView>) -> Seq<TokenView>
    decreases cs.len(),
{
    if cs.len() == 0 {
        Seq::empty()
    } else {
        chunk_tokens(cs[0]) + chunks_tokens(cs.drop_first())
    }
}

/// The chunks one prompt is written as: its own prompt chunk, then one
/// response chunk per response, in order.
pub open spec fn prompt_chunks(p: PromptView) -> Seq<ChunkView> {
    seq![ChunkView { variant: ChunkVariant::Prompt, text: p.text, label: p.label }] + Seq::new(
        p.responses.len(),
        |k: int| ChunkView { variant: ChunkVariant::Response, text: p.responses[k].text, label: p.responses[k].label },
    )
}

/// The chunks a whole script is written as.
pub open spec fn script_chunks(ps: Seq<PromptView>) -> Seq<ChunkView>
    decreases ps.len(),
{
    if ps.len() == 0 {
        Seq::empty()
    } else {
        prompt_chunks(ps[0]) + script_chunks(ps.drop_first())
    }
}

/// The bytes a whole script is written as.
pub open spec fn render_script(ps: Seq<PromptView>) -> Seq<u8> {
    render_chunks(script_chunks(ps))
}

/// Rendering one more chunk appends its bytes.
proof fn lemma_render_chunks_push(cs: Seq<ChunkView>, c: ChunkView)
    ensures
        render_chunks(cs.push(c)) == render_chunks(cs) + render_chunk(c),
    decreases cs.len(),
{
    if cs.len() == 0 {
        assert(render_chunks(cs) == Seq::<u8>::empty());
        assert(cs.push(c).drop_first() =~= cs);
        assert(cs.push(c)[0] == c);
        assert(render_chunk(c) + Seq::<u8>::empty() =~= render_chunk(c));
        assert(Seq::<u8>::empty() + render_chunk(c) =~= render_chunk(c));
    } else {
        assert(cs.push(c).drop_first() =~= cs.drop_first().push(c));
        lemma_render_chunks_push(cs.drop_first(), c);
        assert(render_chunk(cs[0]) + (render_chunks(cs.drop_first()) + render_chunk(c)) =~= (
        render_chunk(cs[0]) + render_chunks(cs.drop_first())) + render_chunk(c));
        assert(cs.push(c)[0] == cs[0]);
    }
}

/// Writing one more prompt appends its chunks.
proof fn lemma_script_chunks_push(ps: Seq<PromptView>, p: PromptView)
    ensures
        script_chunks(ps.push(p)) == script_chunks(ps) + prompt_chunks(p),
    decreases ps.len(),
{
    if ps.len() == 0 {
        assert(script_chunks(ps) == Seq::<ChunkView>::empty());
        assert(ps.push(p).drop_first() =~= ps);
        assert(ps.push(p)[0] == p);
        assert(prompt_chunks(p) + Seq::<ChunkView>::empty() =~= prompt_chunks(p));
        assert(Seq::<ChunkView>::empty() + prompt_chunks(p) =~= prompt_chunks(p));
    } else {
        assert(ps.push(p).drop_first() =~= ps.drop_first().push(p));
        lemma_script_chunks_push(ps.drop_first(), p);
        assert(prompt_chunks(ps[0]) + (script_chunks(ps.drop_first()) + prompt_chunks(p)) =~= (
        prompt_chunks(ps[0]) + script_chunks(ps.drop_first())) + prompt_chunks(p));
        assert(ps.push(p)[0] == ps[0]);
    }
}

/// Lays a script out as its flat chunk sequence.
fn script_to_chunks(prompts: &Vec<Prompt>) -> (r: Vec<Chunk>)
    ensures
        r.deep_view() == script_chunks(prompts.deep_view()),
{
    let ghost ps = prompts.deep_view();
    let mut chunks: Vec<Chunk> = Vec::new();
    proof {
        assert(chunks.deep_view() =~= script_chunks(ps.take(0)));
    }
    let mut i: usize = 0;
    while i < prompts.len()
        invariant
            i <= ps.len(),
            ps == prompts.deep_view(),
            chunks.deep_view() == script_chunks(ps.take(i as int)),
        decreases ps.len() - i,
    {
        let p = &prompts[i];
        let ghost pv = ps[i as int];
        let ghost before = chunks.deep_view();
        proof {
            assert(p.deep_view() == pv);
        }
        chunks.push(
            Chunk {
                variant: ChunkVariant::Prompt,
                text: clone_bytes(&p.text),
                label: clone_label(&p.label),
            },
        );
        proof {
            assert(chunks.deep_view() =~= before + prompt_chunks(pv).take(1));
        }
        let mut k: usize = 0;
        while k < p.responses.len()
            invariant
                k <= pv.responses.len(),
                pv.responses.len() == p.responses@.len(),
                p.deep_view() == pv,
                chunks.deep_view() == before + prompt_chunks(pv).take(1 + k),
            decreases pv.responses.len() - k,
        {
            let ghost inner_before = chunks.deep_view();
            let resp = &p.responses[k];
            chunks.push(
                Chunk {
                    variant: ChunkVariant::Response,
                    text: clone_bytes(&resp.text),
                    label: clone_label(&resp.label),
                },
            );
            proof {
                assert(resp.deep_view() == pv.responses[k as int]);
                assert(prompt_chunks(pv)[1 + k] == (ChunkView {
                    variant: ChunkVariant::Response,
                    text: pv.responses[k as int].text,
                    label: pv.responses[k as int].label,
                }));
                assert(inner_before.len() == before.len() + 1 + k);
                assert(chunks@.len() == before.len() + 1 + k + 1);
                assert forall|j: int| 0 <= j < chunks@.len() implies chunks.deep_view()[j] == (
                before + prompt_chunks(pv).take(1 + k + 1))[j] by {
                    if j < inner_before.len() {
                        assert(chunks.deep_view()[j] == inner_before[j]);
                    } else {
                        assert(chunks.deep_view()[j] == chunks@[j].deep_view());
                    }
                }
                assert(chunks.deep_view() =~= before + prompt_chunks(pv).take(1 + k + 1));
            }
            k = k + 1;
        }
        proof {
            assert(prompt_chunks(pv).take(1 + pv.responses.len() as int) =~= prompt_chunks(pv));
            lemma_script_chunks_push(ps.take(i as int), pv);
            assert(ps.take(i as int).push(pv) =~= ps.take(i + 1));
            assert(chunks.deep_view() =~= script_chunks(ps.take(i + 1)));
        }
        i = i + 1;
    }
    proof {
        assert(ps.take(ps.len() as int) =~= ps);
    }
    chunks
}

/// Writes one chunk's bytes onto the end of the output.
fn push_chunk_bytes(out: &mut Vec<u8>, chunk: &Chunk)
    ensures
        final(out)@ == old(out)@ + render_chunk(chunk.deep_view()),
{
    let marker: u8 = match chunk.variant {
        ChunkVariant::Prompt => 62,
        ChunkVariant::Response => 60,
    };
    out.push(marker);
    out.push(32);
    match &chunk.label {
        Some(l) => {
            proof {
                assert(l.deep_view() =~= l@);
            }
            out.push(40);
            let mut tmp = clone_bytes(l);
            out.append(&mut tmp);
            out.push(41);
            out.push(32);
        },
        None => {},
    }
    out.push(34);
    let mut text = clone_bytes(&chunk.text);
    out.append(&mut text);
    out.push(34);
    out.push(10);
    proof {
        assert(out@ =~= old(out)@ + render_chunk(chunk.deep_view()));
    }
}

/// Writes a whole chunk sequence as bytes.
fn render_chunk_bytes(chunks: &Vec<Chunk>) -> (r: Vec<u8>)
    ensures
        r@ == render_chunks(chunks.deep_view()),
{
    let ghost cs = chunks.deep_view();
    let mut out: Vec<u8> = Vec::new();
    proof {
        assert(out@ =~= render_chunks(cs.take(0)));
    }
    let mut m: usize = 0;
    while m < chunks.len()
        invariant
            m <= cs.len(),
            cs == chunks.deep_view(),
            out@ == render_chunks(cs.take(m as int)),
        decreases cs.len() - m,
    {
        push_chunk_bytes(&mut out, &chunks[m]);
        proof {
            lemma_render_chunks_push(cs.take(m as int), cs[m as int]);
            assert(cs.take(m as int).push(cs[m as int]) =~= cs.take(m + 1));
        }
        m = m + 1;
    }
    proof {
        assert(cs.take(cs.len() as int) =~= cs);
    }
    out
}

/// Writes a script in the documented text format: one line per chunk, the
/// prompt line first and its response lines after it.
pub fn render(prompts: &Vec<Prompt>) -> (r: Vec<u8>)
    ensures
        r@ == render_script(prompts.deep_view()),
{
    let chunks = script_to_chunks(prompts);
    render_chunk_bytes(&chunks)
}

/// A scan that starts before the first quote with a quote in reach lands
/// exactly on it.
proof fn lemma_string_scan_exact(s: Seq<u8>, i: int, j: int)
    requires
        0 <= i <= j < s.len(),
        forall|k: int| i <= k < j ==> s[k] != 34,
        s[j] == 34,
    ensures
        string_scan(s, i) == Ok::<int, LexxerError>(j),
    decreases j - i,
{
    if i < j {
        lemma_string_scan_exact(s, i + 1, j);
    }
}

/// A scan over non-whitespace bytes with a closing parenthesis in reach
/// lands exactly on it.
proof fn lemma_label_scan_exact(s: Seq<u8>, i: int, j: int)
    requires
        0 <= i <= j < s.len(),
        forall|k: int| i <= k < j ==> s[k] != 41 && !is_ws(s[k]),
        s[j] == 41,
    ensures
        label_scan(s, i) == Ok::<int, LexxerError>(j),
    decreases j - i,
{
    if i < j {
        lemma_label_scan_exact(s, i + 1, j);
    }
}

/// Scanning one rendered chunk yields exactly its tokens and leaves the scan
/// right after the chunk's bytes.
#[verifier::rlimit(100)]
#[verifier::spinoff_prover]
proof fn lemma_lex_render_chunk(s: Seq<u8>, i: int, c: ChunkView)
    requires
        chunk_wf(c),
        0 <= i,
        i + render_chunk(c).len() <= s.len(),
        s.subrange(i, i + render_chunk(c).len() as int) == render_chunk(c),
    ensures
        lex_from(s, i) == lex_cont(chunk_tokens(c), lex_from(s, i + render_chunk(c).len())),
{
    let rc = render_chunk(c);
    let n = rc.len() as int;
    let tl = c.text.len() as int;
    assert forall|k: int| 0 <= k < n implies #[trigger] rc[k] == s[i + k] by {
        assert(s.subrange(i, i + n)[k] == s[i + k]);
    }
    let marker = if c.variant is Prompt {
        TokenView::RightAngular
    } else {
        TokenView::LeftAngular
    };
    assert(rc[0] == marker_byte(c.variant));
    assert(s[i] == marker_byte(c.variant));
    assert(lex_from(s, i) == lex_cont(seq![marker], lex_from(s, i + 1)));
    assert(rc[1] == 32);
    assert(s[i + 1] == 32);
    assert(lex_from(s, i + 1) == lex_from(s, i + 2));
    match c.label {
        Some(l) => {
            let ll = l.len() as int;
            assert(n == 8 + ll + tl);
            assert(rc[2] == 40);
            assert(s[i + 2] == 40);
            assert forall|k: int| i + 3 <= k < i + 3 + ll implies s[k] == l[k - i - 3] && s[k]
                != 41 && !is_ws(s[k]) by {
                assert(rc[k - i] == l[k - i - 3]);
                assert(rc[k - i] == s[i + (k - i)]);
            }
            assert(rc[3 + ll] == 41);
            assert(s[i + 3 + ll] == s[i + (3 + ll)] == 41);
            lemma_label_scan_exact(s, i + 3, i + 3 + ll);
            assert(s.subrange(i + 3, i + 3 + ll) =~= l);
            assert(lex_from(s, i + 2) == lex_cont(
                seq![TokenView::LabelLiteral(l)],
                lex_from(s, i + 4 + ll),
            ));
            assert(rc[4 + ll] == 32);
            assert(s[i + 4 + ll] == s[i + (4 + ll)] == 32);
            assert(lex_from(s, i + 4 + ll) == lex_from(s, i + 5 + ll));
            assert(rc[5 + ll] == 34);
            assert(s[i + 5 + ll] == s[i + (5 + ll)] == 34);
            assert forall|k: int| i + 6 + ll <= k < i + 6 + ll + tl implies s[k] == c.text[k - i - 6
                - ll] && s[k] != 34 by {
                assert(rc[k - i] == c.text[k - i - 6 - ll]);
                assert(rc[k - i] == s[i + (k - i)]);
            }
            assert(rc[6 + ll + tl] == 34);
            assert(s[i + 6 + ll + tl] == s[i + (6 + ll + tl)] == 34);
            lemma_string_scan_exact(s, i + 6 + ll, i + 6 + ll + tl);
            assert(s.subrange(i + 6 + ll, i + 6 + ll + tl) =~= c.text);
            assert(lex_from(s, i + 5 + ll) == lex_cont(
                seq![TokenView::StringLiteral(c.text)],
                lex_from(s, i + 7 + ll + tl),
            ));
            assert(rc[7 + ll + tl] == 10);
            assert(s[i + 7 + ll + tl] == s[i + (7 + ll + tl)] == 10);
            assert(lex_from(s, i + 7 + ll + tl) == lex_from(s, i + n));
            assert(chunk_tokens(c) =~= seq![
                marker,
                TokenView::LabelLiteral(l),
                TokenView::StringLiteral(c.text),
            ]);
            match lex_from(s, i + n) {
                Ok(ts) => {
                    assert(seq![marker] + (seq![TokenView::LabelLiteral(l)] + (seq![
                        TokenView::StringLiteral(c.text),
                    ] + ts)) =~= chunk_tokens(c) + ts);
                },
                Err(_) => {},
            }
        },
        None => {
            assert(n == 5 + tl);
            assert(rc[2] == 34);
            assert(s[i + 2] == 34);
            assert forall|k: int| i + 3 <= k < i + 3 + tl implies s[k] == c.text[k - i - 3] && s[k]
                != 34 by {
                assert(rc[k - i] == c.text[k - i - 3]);
                assert(rc[k - i] == s[i + (k - i)]);
            }
            assert(rc[3 + tl] == 34);
            assert(s[i + 3 + tl] == s[i + (3 + tl)] == 34);
            lemma_string_scan_exact(s, i + 3, i + 3 + tl);
            assert(s.subrange(i + 3, i + 3 + tl) =~= c.text);
            assert(lex_from(s, i + 2) == lex_cont(
                seq![TokenView::StringLiteral(c.text)],
                lex_from(s, i + 4 + tl),
            ));
            assert(rc[4 + tl] == 10);
            assert(s[i + 4 + tl] == s[i + (4 + tl)] == 10);
            assert(lex_from(s, i + 4 + tl) == lex_from(s, i + n));
            assert(chunk_tokens(c) =~= seq![marker, TokenView::StringLiteral(c.text)]);
            match lex_from(s, i + n) {
                Ok(ts) => {
                    assert(seq![marker] + (seq![TokenView::StringLiteral(c.text)] + ts)
                        =~= chunk_tokens(c) + ts);
                },
                Err(_) => {},
            }
        },
    }
}

/// Scanning a whole rendered chunk sequence that fills the rest of the
/// buffer yields exactly the chunks' tokens.
proof fn lemma_lex_render_chunks(s: Seq<u8>, i: int, cs: Seq<ChunkView>)
    requires
        0 <= i <= s.len(),
        s.subrange(i, s.len() as int) == render_chunks(cs),
        forall|k: int| 0 <= k < cs.len() ==> chunk_wf(cs[k]),
    ensures
        lex_from(s, i) == Ok::<Seq<TokenView>, LexxerError>(chunks_tokens(cs)),
    decreases cs.len(),
{
    if cs.len() == 0 {
        assert(render_chunks(cs).len() == 0);
        assert(i == s.len());
        assert(chunks_tokens(cs) =~= Seq::<TokenView>::empty());
    } else {
        let rc = render_chunk(cs[0]);
        let n = rc.len() as int;
        assert(render_chunks(cs) == rc + render_chunks(cs.drop_first()));
        assert(i + n <= s.len());
        assert forall|k: int| 0 <= k < n implies s.subrange(i, i + n)[k] == rc[k] by {
            assert(s.subrange(i, s.len() as int)[k] == rc[k]);
        }
        assert(s.subrange(i, i + n) =~= rc);
        lemma_lex_render_chunk(s, i, cs[0]);
        assert forall|k: int| 0 <= k < s.len() - i - n implies s.subrange(
            i + n,
            s.len() as int,
        )[k] == render_chunks(cs.drop_first())[k] by {
            assert(s.subrange(i, s.len() as int)[n + k] == render_chunks(cs.drop_first())[k]);
        }
        assert(s.subrange(i + n, s.len() as int) =~= render_chunks(cs.drop_first()));
        lemma_lex_render_chunks(s, i + n, cs.drop_first());
        assert(chunk_tokens(cs[0]) + chunks_tokens(cs.drop_first()) == chunks_tokens(cs));
    }
}

/// Grouping the tokens of a chunk sequence gives back exactly those chunks.
proof fn lemma_chunks_from_tokens(ts: Seq<TokenView>, i: int, cs: Seq<ChunkView>)
    requires
        0 <= i <= ts.len(),
        ts.subrange(i, ts.len() as int) == chunks_tokens(cs),
    ensures
        chunks_from(ts, i) == Ok::<Seq<ChunkView>, ChunkingError>(cs),
    decreases cs.len(),
{
    if cs.len() == 0 {
        assert(chunks_tokens(cs).len() == 0);
        assert(i == ts.len());
        assert(cs =~= Seq::<ChunkView>::empty());
    } else {
        let c = cs[0];
        let ct = chunk_tokens(c);
        let m = ct.len() as int;
        assert(chunks_tokens(cs) == ct + chunks_tokens(cs.drop_first()));
        assert(i + m <= ts.len());
        assert forall|k: int| 0 <= k < m implies #[trigger] ct[k] == ts[i + k] by {
            assert(ts.subrange(i, ts.len() as int)[k] == ts[i + k]);
        }
        let marker = if c.variant is Prompt {
            TokenView::RightAngular
        } else {
            TokenView::LeftAngular
        };
        assert(ct[0] == marker);
        assert(ts[i] == marker);
        let sub = ts.subrange(i + 1, ts.len() as int);
        assert forall|k: int| 0 <= k < sub.len() implies sub[k] == ts[i + (1 + k)] by {
            assert(ts.subrange(i + 1, ts.len() as int)[k] == ts[i + 1 + k]);
        }
        match c.label {
            Some(l) => {
                assert(m == 3);
                assert(ct[1] == TokenView::LabelLiteral(l));
                assert(ct[2] == TokenView::StringLiteral(c.text));
                assert(sub[0] == ts[i + 1]);
                assert(sub[1] == ts[i + 2]);
                assert(take_label_and_text(sub) == Ok::<
                    (int, Option<Seq<u8>>, Seq<u8>),
                    ChunkingError,
                >((1, Some(l), c.text)));
            },
            None => {
                assert(m == 2);
                assert(ct[1] == TokenView::StringLiteral(c.text));
                assert(sub[0] == ts[i + 1]);
                assert(take_label_and_text(sub) == Ok::<
                    (int, Option<Seq<u8>>, Seq<u8>),
                    ChunkingError,
                >((0, None, c.text)));
            },
        }
        assert forall|k: int| 0 <= k < ts.len() - i - m implies ts.subrange(
            i + m,
            ts.len() as int,
        )[k] == chunks_tokens(cs.drop_first())[k] by {
            assert(ts.subrange(i, ts.len() as int)[m + k] == chunks_tokens(cs.drop_first())[k]);
            assert(ts.subrange(i + m, ts.len() as int)[k] == ts[i + m + k]);
            assert(ts.subrange(i, ts.len() as int)[m + k] == ts[i + (m + k)]);
        }
        assert(ts.subrange(i + m, ts.len() as int) =~= chunks_tokens(cs.drop_first()));
        lemma_chunks_from_tokens(ts, i + m, cs.drop_first());
        assert((ChunkView { variant: c.variant, text: c.text, label: c.label }) =~= c);
        assert(seq![c] + cs.drop_first() =~= cs);
    }
}

/// Building from the chunks a script is written as gives back exactly that
/// script.
proof fn lemma_build_from_script(cs: Seq<ChunkView>, i: int, ps: Seq<PromptView>)
    requires
        0 <= i <= cs.len(),
        cs.subrange(i, cs.len() as int) == script_chunks(ps),
    ensures
        build_from(cs, i) == ps,
    decreases ps.len(),
{
    if ps.len() == 0 {
        assert(script_chunks(ps).len() == 0);
        assert(i == cs.len());
        assert(ps =~= Seq::<PromptView>::empty());
    } else {
        let p = ps[0];
        let pc = prompt_chunks(p);
        let n = p.responses.len() as int;
        assert(pc.len() == 1 + n);
        assert(script_chunks(ps) == pc + script_chunks(ps.drop_first()));
        assert(i + 1 + n <= cs.len());
        assert forall|k: int| 0 <= k < 1 + n implies #[trigger] pc[k] == cs[i + k] by {
            assert(cs.subrange(i, cs.len() as int)[k] == cs[i + k]);
        }
        assert(pc[0] == (ChunkView { variant: ChunkVariant::Prompt, text: p.text, label: p.label }));
        assert(cs[i].variant is Prompt);
        let rest = cs.subrange(i + 1, cs.len() as int);
        assert forall|k: int| 0 <= k < rest.len() implies rest[k] == cs[i + (1 + k)] by {
            assert(cs.subrange(i + 1, cs.len() as int)[k] == cs[i + 1 + k]);
        }
        assert forall|k: int| 0 <= k < n implies rest[k] == (ChunkView {
            variant: ChunkVariant::Response,
            text: p.responses[k].text,
            label: p.responses[k].label,
        }) by {
            assert(pc[1 + k] == cs[i + (1 + k)]);
            assert(pc[1 + k] == (ChunkView {
                variant: ChunkVariant::Response,
                text: p.responses[k].text,
                label: p.responses[k].label,
            }));
        }
        if ps.drop_first().len() > 0 {
            assert(script_chunks(ps.drop_first()) == prompt_chunks(ps.drop_first()[0])
                + script_chunks(ps.drop_first().drop_first()));
            assert(script_chunks(ps.drop_first())[0] == prompt_chunks(ps.drop_first()[0])[0]);
            assert(prompt_chunks(ps.drop_first()[0])[0].variant is Prompt);
            assert(cs[i + (1 + n)] == (pc + script_chunks(ps.drop_first()))[1 + n]);
            assert(rest[n] == cs[i + (1 + n)]);
            assert(!(rest[n].variant is Response));
        } else {
            assert(script_chunks(ps.drop_first()).len() == 0);
            assert(rest.len() == n);
        }
        lemma_leading_responses_exact(rest, n);
        assert(Seq::new(n as nat, |k: int| response_of(rest[k])) =~= p.responses);
        assert((PromptView {
            text: cs[i].text,
            label: cs[i].label,
            responses: Seq::new(n as nat, |k: int| response_of(rest[k])),
        }) =~= p);
        assert forall|k: int| 0 <= k < cs.len() - i - 1 - n implies cs.subrange(
            i + 1 + n,
            cs.len() as int,
        )[k] == script_chunks(ps.drop_first())[k] by {
            assert(cs.subrange(i, cs.len() as int)[1 + n + k] == script_chunks(ps.drop_first())[k]);
            assert(cs.subrange(i + 1 + n, cs.len() as int)[k] == cs[i + 1 + n + k]);
            assert(cs.subrange(i, cs.len() as int)[1 + n + k] == cs[i + (1 + n + k)]);
        }
        assert(cs.subrange(i + 1 + n, cs.len() as int) =~= script_chunks(ps.drop_first()));
        lemma_build_from_script(cs, i + 1 + n, ps.drop_first());
        assert(seq![p] + ps.drop_first() =~= ps);
    }
}

/// Rendering a well-formed script and parsing the text back yields the very
/// same prompt list.
pub proof fn lemma_render_parse_round_trip(ps: Seq<PromptView>)
    requires
        script_wf(ps),
    ensures
        parse_spec(render_script(ps)) == Ok::<Seq<PromptView>, PromptgenErr>(ps),
{
    let cs = script_chunks(ps);
    lemma_script_chunks_wf(ps);
    let s = render_chunks(cs);
    assert(s.subrange(0, s.len() as int) =~= s);
    lemma_lex_render_chunks(s, 0, cs);
    let ts = chunks_tokens(cs);
    assert(ts.subrange(0, ts.len() as int) =~= ts);
    lemma_chunks_from_tokens(ts, 0, cs);
    assert(cs.subrange(0, cs.len() as int) =~= cs);
    lemma_build_from_script(cs, 0, ps);
}

/// A token the scanner can produce: the contents of a string literal hold no
/// quote, the contents of a label literal hold no closing parenthesis and no
/// whitespace.
pub open spec fn token_wf(t: TokenView) -> bool {
    match t {
        TokenView::StringLiteral(s) => text_ok(s),
        TokenView::LabelLiteral(l) => label_ok(l),
        _ => true,
    }
}

/// Every token the scanner produces is well-formed.
proof fn lemma_lex_from_wf(data: Seq<u8>, i: int)
    requires
        0 <= i,
    ensures
        lex_from(data, i) matches Ok(ts) ==> forall|k: int|
            0 <= k < ts.len() ==> token_wf(#[trigger] ts[k]),
    decreases data.len() - i,
{
    if i < data.len() {
        if data[i] == 62 || data[i] == 60 {
            lemma_lex_from_wf(data, i + 1);
            if lex_from(data, i + 1) is Ok {
                let rest = lex_from(data, i + 1)->Ok_0;
                let ts = lex_from(data, i)->Ok_0;
                assert forall|k: int| 0 <= k < ts.len() implies token_wf(#[trigger] ts[k]) by {
                    if k > 0 {
                        assert(ts[k] == rest[k - 1]);
                    }
                }
            }
        } else if data[i] == 34 {
            match string_scan(data, i + 1) {
                Ok(j) => {
                    lemma_string_scan_bounds(data, i + 1);
                    lemma_lex_from_wf(data, j + 1);
                    let lit = data.subrange(i + 1, j);
                    assert forall|k: int| 0 <= k < lit.len() implies lit[k] != 34 by {
                        assert(lit[k] == data[i + 1 + k]);
                    }
                    if lex_from(data, j + 1) is Ok {
                        let rest = lex_from(data, j + 1)->Ok_0;
                        let ts = lex_from(data, i)->Ok_0;
                        assert forall|k: int| 0 <= k < ts.len() implies token_wf(
                            #[trigger] ts[k],
                        ) by {
                            if k > 0 {
                                assert(ts[k] == rest[k - 1]);
                            }
                        }
                    }
                },
                Err(_) => {},
            }
        } else if data[i] == 40 {
            match label_scan(data, i + 1) {
                Ok(j) => {
                    lemma_label_scan_bounds(data, i + 1);
                    lemma_lex_from_wf(data, j + 1);
                    let lit = data.subrange(i + 1, j);
                    assert forall|k: int| 0 <= k < lit.len() implies lit[k] != 41 && !is_ws(
                        lit[k],
                    ) by {
                        assert(lit[k] == data[i + 1 + k]);
                    }
                    if lex_from(data, j + 1) is Ok {
                        let rest = lex_from(data, j + 1)->Ok_0;
                        let ts = lex_from(data, i)->Ok_0;
                        assert forall|k: int| 0 <= k < ts.len() implies token_wf(
                            #[trigger] ts[k],
                        ) by {
                            if k > 0 {
                                assert(ts[k] == rest[k - 1]);
                            }
                        }
                    }
                },
                Err(_) => {},
            }
        } else {
            lemma_lex_from_wf(data, i + 1);
        }
    }
}

/// Every chunk grouped from well-formed tokens is well-formed.
proof fn lemma_chunks_from_wf(ts: Seq<TokenView>, i: int)
    requires
        0 <= i,
        forall|k: int| 0 <= k < ts.len() ==> token_wf(#[trigger] ts[k]),
    ensures
        chunks_from(ts, i) matches Ok(cs) ==> forall|k: int|
            0 <= k < cs.len() ==> chunk_wf(#[trigger] cs[k]),
    decreases ts.len() - i,
{
    if 0 <= i < ts.len() && (ts[i] is RightAngular || ts[i] is LeftAngular) {
        let sub = ts.subrange(i + 1, ts.len() as int);
        match take_label_and_text(sub) {
            Ok(plt) => {
                lemma_chunks_from_wf(ts, i + plt.0 + 2);
                assert(sub[0] == ts[i + 1]);
                if sub.len() >= 2 {
                    assert(sub[1] == ts[i + 2]);
                }
                match chunks_from(ts, i + plt.0 + 2) {
                    Ok(rest) => {
                        let cs = chunks_from(ts, i)->Ok_0;
                        assert forall|k: int| 0 <= k < cs.len() implies chunk_wf(
                            #[trigger] cs[k],
                        ) by {
                            if k > 0 {
                                assert(cs[k] == rest[k - 1]);
                            }
                        }
                    },
                    Err(_) => {},
                }
            },
            Err(_) => {},
        }
    }
}

/// Every prompt built from well-formed chunks is well-formed.
proof fn lemma_build_from_wf(cs: Seq<ChunkView>, i: int)
    requires
        0 <= i,
        forall|k: int| 0 <= k < cs.len() ==> chunk_wf(#[trigger] cs[k]),
    ensures
        forall|k: int| 0 <= k < build_from(cs, i).len() ==> prompt_wf(#[trigger] build_from(
            cs,
            i,
        )[k]),
    decreases cs.len() - i,
{
    if 0 <= i < cs.len() {
        if cs[i].variant is Prompt {
            let rest = cs.subrange(i + 1, cs.len() as int);
            let n = leading_responses(rest);
            crate::parser::lemma_leading_responses_bounds(rest);
            lemma_build_from_wf(cs, i + 1 + n);
            let head = PromptView {
                text: cs[i].text,
                label: cs[i].label,
                responses: Seq::new(n as nat, |k: int| response_of(rest[k])),
            };
            assert forall|k: int| 0 <= k < head.responses.len() implies response_wf(
                #[trigger] head.responses[k],
            ) by {
                assert(rest[k] == cs[i + 1 + k]);
                assert(chunk_wf(cs[i + 1 + k]));
            }
            assert(prompt_wf(head));
            let built = build_from(cs, i);
            assert forall|k: int| 0 <= k < built.len() implies prompt_wf(#[trigger] built[k]) by {
                if k > 0 {
                    assert(built[k] == build_from(cs, i + 1 + n)[k - 1]);
                }
            }
        } else {
            lemma_build_from_wf(cs, i + 1);
            assert forall|k: int| 0 <= k < build_from(cs, i).len() implies prompt_wf(
                #[trigger] build_from(cs, i)[k],
            ) by {
                assert(build_from(cs, i)[k] == build_from(cs, i + 1)[k]);
            }
        }
    }
}

/// Whatever `parse` accepts comes out well-formed: ready to render again.
pub proof fn lemma_parse_wf(data: Seq<u8>, ps: Seq<PromptView>)
    requires
        parse_spec(data) == Ok::<Seq<PromptView>, PromptgenErr>(ps),
    ensures
        script_wf(ps),
{
    lemma_lex_from_wf(data, 0);
    let ts = lex_from(data, 0)->Ok_0;
    lemma_chunks_from_wf(ts, 0);
    let cs = chunks_from(ts, 0)->Ok_0;
    lemma_build_from_wf(cs, 0);
}

/// The format round-trip: whatever `parse` accepts, rendering its output and
/// parsing that text again yields the identical prompt list.
pub proof fn lemma_parse_render_round_trip(data: Seq<u8>, ps: Seq<PromptView>)
    requires
        parse_spec(data) == Ok::<Seq<PromptView>, PromptgenErr>(ps),
    ensures
        parse_spec(render_script(ps)) == Ok::<Seq<PromptView>, PromptgenErr>(ps),
{
    lemma_parse_wf(data, ps);
    lemma_render_parse_round_trip(ps);
}

/// Every chunk a well-formed script is written as is itself well-formed.
proof fn lemma_script_chunks_wf(ps: Seq<PromptView>)
    requires
        script_wf(ps),
    ensures
        forall|k: int| 0 <= k < script_chunks(ps).len() ==> chunk_wf(#[trigger] script_chunks(
            ps,
        )[k]),
    decreases ps.len(),
{
    if ps.len() > 0 {
        let p = ps[0];
        let pc = prompt_chunks(p);
        assert(prompt_wf(p));
        assert forall|k: int| 0 <= k < pc.len() implies chunk_wf(#[trigger] pc[k]) by {
            if k > 0 {
                assert(response_wf(p.responses[k - 1]));
                assert(pc[k] == (ChunkView {
                    variant: ChunkVariant::Response,
                    text: p.responses[k - 1].text,
                    label: p.responses[k - 1].label,
                }));
            }
        }
        assert(script_wf(ps.drop_first()));
        lemma_script_chunks_wf(ps.drop_first());
        assert forall|k: int| 0 <= k < script_chunks(ps).len() implies chunk_wf(
            #[trigger] script_chunks(ps)[k],
        ) by {
            if k < pc.len() {
                assert(script_chunks(ps)[k] == pc[k]);
            } else {
                assert(script_chunks(ps)[k] == script_chunks(ps.drop_first())[k - pc.len()]);
            }
        }
    }
}

} // verus!
