//! Tree construction: groups the flat chunk sequence into prompts, each
//! owning the run of response chunks that immediately follows it. This stage
//! is total: a chunk with no owning prompt is silently skipped.

use vstd::prelude::*;

use crate::chunker::Chunk;
use crate::chunker::ChunkVariant;
use crate::chunker::ChunkView;
use crate::chunker::clone_bytes;
use crate::chunker::clone_label;

verus! {

/// A selectable answer: its player-facing text and the label of the prompt
/// to jump to when chosen (no label means "advance to the next prompt").
#[derive(Debug, PartialEq, Eq)]
pub struct Response {
    pub text: Vec<u8>,
    pub label: Option<Vec<u8>>,
}

/// The mathematical shape of a response.
#[verifier::ext_equal]
pub struct ResponseView {
    pub text: Seq<u8>,
    pub label: Option<Seq<u8>>,
}

impl View for Response {
    type V = ResponseView;

    open spec fn view(&self) -> ResponseView {
        ResponseView { text: self.text@, label: self.label.deep_view() }
    }
}

impl DeepView for Response {
    type V = ResponseView;

    open spec fn deep_view(&self) -> ResponseView {
        self.view()
    }
}

impl Clone for Response {
    /// The copy reads the same: same text, same label.
    fn clone(&self) -> (r: Self)
        ensures
            r.deep_view() == self.deep_view(),
    {
        Response { text: clone_bytes(&self.text), label: clone_label(&self.label) }
    }
}

/// A scene node: its text, an optional label that jumps can target, and the
/// ordered list of answers offered for it.
#[derive(Debug, PartialEq, Eq)]
pub struct Prompt {
    pub text: Vec<u8>,
    pub label: Option<Vec<u8>>,
    pub responses: Vec<Response>,
}

/// The mathematical shape of a prompt.
#[verifier::ext_equal]
pub struct PromptView {
    pub text: Seq<u8>,
    pub label: Option<Seq<u8>>,
    pub responses: Seq<ResponseView>,
}

impl View for Prompt {
    type V = PromptView;

    open spec fn view(&self) -> PromptView {
        PromptView {
            text: self.text@,
            label: self.label.deep_view(),
            responses: self.responses.deep_view(),
        }
    }
}

impl DeepView for Prompt {
    type V = PromptView;

    open spec fn deep_view(&self) -> PromptView {
        self.view()
    }
}

impl Clone for Prompt {
    /// The copy reads the same: same text, same label, same answers in the
    /// same order.
    fn clone(&self) -> (r: Self)
        ensures
            r.deep_view() == self.deep_view(),
    {
        let mut responses: Vec<Response> = Vec::new();
        let mut k: usize = 0;
        while k < self.responses.len()
            invariant
                k <= self.responses@.len(),
                responses.deep_view() =~= self.responses.deep_view().take(k as int),
            decreases self.responses@.len() - k,
        {
            let ghost before = responses.deep_view();
            let copied = self.responses[k].clone();
            proof {
                assert(copied.deep_view() == self.responses@[k as int].deep_view());
            }
            responses.push(copied);
            proof {
                assert(before.len() == k);
                assert(responses@.len() == k + 1);
                assert(responses.deep_view().len() == responses@.len());
                assert(responses.deep_view().len() == k + 1);
                assert forall|i: int| 0 <= i < k + 1 implies responses.deep_view()[i]
                    == self.responses.deep_view()[i] by {
                    if i < k {
                        assert(responses.deep_view()[i] == before[i]);
                    }
                }
                assert(responses.deep_view() =~= self.responses.deep_view().take(k + 1));
            }
            k = k + 1;
        }
        proof {
            assert(responses.deep_view() =~= self.responses.deep_view());
        }
        Prompt { text: clone_bytes(&self.text), label: clone_label(&self.label), responses }
    }
}

/// The response a response chunk stands for.
pub open spec fn response_of(c: ChunkView) -> ResponseView {
    ResponseView { text: c.text, label: c.label }
}

/// How many chunks at the front of `cs` are response chunks.
pub open spec fn leading_responses(cs: Seq<ChunkView>) -> int
    decreases cs.len(),
{
    if cs.len() > 0 && cs[0].variant is Response {
        1 + leading_responses(cs.drop_first())
    } else {
        0
    }
}

/// The count of leading response chunks never exceeds the chunk count.
pub proof fn lemma_leading_responses_bounds(cs: Seq<ChunkView>)
    ensures
        0 <= leading_responses(cs) <= cs.len(),
    decreases cs.len(),
{
    if cs.len() > 0 && cs[0].variant is Response {
        lemma_leading_responses_bounds(cs.drop_first());
    }
}

/// The count of leading response chunks is exactly the length of the run of
/// response chunks at the front.
pub proof fn lemma_leading_responses_exact(cs: Seq<ChunkView>, n: int)
    requires
        0 <= n <= cs.len(),
        forall|k: int| 0 <= k < n ==> cs[k].variant is Response,
        n == cs.len() || !(cs[n].variant is Response),
    ensures
        leading_responses(cs) == n,
    decreases n,
{
    if n > 0 {
        lemma_leading_responses_exact(cs.drop_first(), n - 1);
    }
}

/// The prompt list built from `cs` from position `i` to the end: each prompt
/// chunk starts a prompt that owns the run of response chunks after it, and
/// a response chunk with no owning prompt is skipped.
pub open spec fn build_from(cs: Seq<ChunkView>, i: int) -> Seq<PromptView>
    decreases cs.len() - i,
{
    if i < 0 || i >= cs.len() {
        Seq::empty()
    } else if cs[i].variant is Prompt {
        let rest = cs.subrange(i + 1, cs.len() as int);
        let n = leading_responses(rest);
        proof {
            lemma_leading_responses_bounds(rest);
        }
        seq![
            PromptView {
                text: cs[i].text,
                label: cs[i].label,
                responses: Seq::new(n as nat, |k: int| response_of(rest[k])),
            },
        ] + build_from(cs, i + 1 + n)
    } else {
        build_from(cs, i + 1)
    }
}

/// A prompt chunk owns exactly the run of response chunks after it: given
/// consecutive response chunks running up to (not including) position `j`,
/// where the run ends at the next prompt chunk or at the end of the input,
/// the builder attaches them all to the preceding prompt in their original
/// order, and resumes at `j`.
pub proof fn lemma_builder_attaches_responses(cs: Seq<ChunkView>, i: int, j: int)
    requires
        0 <= i < j <= cs.len(),
        cs[i].variant is Prompt,
        forall|k: int| i < k < j ==> (#[trigger] cs[k].variant) is Response,
        j == cs.len() || !(cs[j].variant is Response),
    ensures
        build_from(cs, i) == seq![
            PromptView {
                text: cs[i].text,
                label: cs[i].label,
                responses: Seq::new((j - i - 1) as nat, |k: int| response_of(cs[i + 1 + k])),
            },
        ] + build_from(cs, j),
{
    let rest = cs.subrange(i + 1, cs.len() as int);
    assert forall|k: int| 0 <= k < rest.len() implies rest[k] == cs[i + (1 + k)] by {
        assert(cs.subrange(i + 1, cs.len() as int)[k] == cs[i + 1 + k]);
    }
    lemma_leading_responses_exact(rest, j - i - 1);
    assert(Seq::new((j - i - 1) as nat, |k: int| response_of(rest[k])) =~= Seq::new(
        (j - i - 1) as nat,
        |k: int| response_of(cs[i + 1 + k]),
    ));
}

/// Reads the run of response chunks at the front of the given suffix, in
/// order. The first component is the index of the last response chunk read,
/// or nothing when the run is empty.
pub fn parse_response_chunks_greedily(chunks: &[Chunk]) -> (r: (Option<usize>, Vec<Response>))
    ensures
        ({
            let cs = chunks.deep_view();
            let n = leading_responses(cs);
            &&& r.1.deep_view() == Seq::new(n as nat, |k: int| response_of(cs[k]))
            &&& (n == 0 ==> r.0 is None)
            &&& (n > 0 ==> r.0 == Some((n - 1) as usize))
        }),
{
    let ghost cs = chunks.deep_view();
    proof {
        lemma_leading_responses_bounds(cs);
    }
    let mut scan_position: usize = 0;
    let mut response: Vec<Response> = Vec::new();

    loop
        invariant_except_break
            scan_position <= cs.len(),
            cs == chunks.deep_view(),
            forall|k: int| 0 <= k < scan_position ==> cs[k].variant is Response,
            response.deep_view() =~= Seq::new(
                scan_position as nat,
                |k: int| response_of(cs[k]),
            ),
        ensures
            scan_position <= cs.len(),
            forall|k: int| 0 <= k < scan_position ==> cs[k].variant is Response,
            scan_position == cs.len() || !(cs[scan_position as int].variant is Response),
            response.deep_view() =~= Seq::new(
                scan_position as nat,
                |k: int| response_of(cs[k]),
            ),
        decreases cs.len() - scan_position,
    {
        match chunks.get(scan_position) {
            Some(c) => {
                match c.variant {
                    ChunkVariant::Response => {
                        let ghost before = response.deep_view();
                        response.push(
                            Response { text: clone_bytes(&c.text), label: clone_label(&c.label) },
                        );
                        proof {
                            assert(before.len() == scan_position);
                            assert(response@.len() == scan_position + 1);
                            assert(response.deep_view().len() == scan_position + 1);
                            assert forall|k: int| 0 <= k < scan_position + 1 implies
                                response.deep_view()[k] == response_of(cs[k]) by {
                                if k < scan_position {
                                    assert(response.deep_view()[k] == before[k]);
                                }
                            }
                            assert(response.deep_view() =~= Seq::new(
                                (scan_position + 1) as nat,
                                |k: int| response_of(cs[k]),
                            ));
                        }
                        scan_position = scan_position + 1;
                    },
                    ChunkVariant::Prompt => {
                        break ;
                    },
                }
            },
            None => {
                break ;
            },
        }
    }

    proof {
        lemma_leading_responses_exact(cs, scan_position as int);
    }
    if scan_position == 0 {
        (None, response)
    } else {
        (Some(scan_position - 1), response)
    }
}

/// The tree-building pass: walks the chunk sequence and accumulates prompts.
pub struct Parser {
    scan_position: usize,
}

impl Parser {
    /// True of a builder that has not consumed anything yet.
    pub closed spec fn fresh(self) -> bool {
        self.scan_position == 0
    }

    pub fn new() -> (r: Self)
        ensures
            r.fresh(),
    {
        Parser { scan_position: 0 }
    }

    /// Builds the prompt list `build_from` describes. This pass never fails.
    pub fn parse_chunks(&mut self, chunks: Vec<Chunk>) -> (r: Vec<Prompt>)
        requires
            old(self).fresh(),
        ensures
            r.deep_view() == build_from(chunks.deep_view(), 0),
    {
        let ghost cs = chunks.deep_view();
        let mut prompts: Vec<Prompt> = Vec::new();

        proof {
            assert(prompts.deep_view() + build_from(cs, 0) =~= build_from(cs, 0));
        }

        loop
            invariant
                self.scan_position <= cs.len(),
                cs == chunks.deep_view(),
                build_from(cs, 0) == prompts.deep_view() + build_from(
                    cs,
                    self.scan_position as int,
                ),
            decreases cs.len() - self.scan_position,
        {
            let pos = self.scan_position;
            let ghost prefix = prompts.deep_view();
            match chunks.as_slice().get(pos) {
                None => {
                    proof {
                        assert(prefix + Seq::<PromptView>::empty() =~= prefix);
                    }
                    return prompts;
                },
                Some(c) => {
                    match c.variant {
                        ChunkVariant::Prompt => {
                            let sub = vstd::slice::slice_subrange(
                                chunks.as_slice(),
                                pos + 1,
                                chunks.len(),
                            );
                            let ghost rest = cs.subrange(pos + 1, cs.len() as int);
                            proof {
                                assert(sub.deep_view() =~= rest);
                                lemma_leading_responses_bounds(rest);
                            }
                            let (relative_scan_position, responses) =
                                parse_response_chunks_greedily(sub);
                            let head = Prompt {
                                text: clone_bytes(&c.text),
                                label: clone_label(&c.label),
                                responses,
                            };
                            let ghost head_view = head@;
                            prompts.push(head);
                            proof {
                                let n = leading_responses(rest);
                                assert(head_view =~= (PromptView {
                                    text: cs[pos as int].text,
                                    label: cs[pos as int].label,
                                    responses: Seq::new(n as nat, |k: int| response_of(rest[k])),
                                }));
                                assert(prompts.deep_view() =~= prefix.push(head_view));
                                assert(prefix.push(head_view) + build_from(cs, pos + 1 + n)
                                    =~= prefix + (seq![head_view] + build_from(cs, pos + 1 + n)));
                            }
                            match relative_scan_position {
                                Some(relative_scan_pos) => {
                                    self.scan_position = pos + relative_scan_pos + 2;
                                },
                                None => {
                                    self.scan_position = pos + 1;
                                },
                            }
                        },
                        ChunkVariant::Response => {
                            self.scan_position = pos + 1;
                        },
                    }
                },
            }
        }
    }
}

} // verus!
