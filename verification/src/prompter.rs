//! Navigation: a cursor over a parsed prompt list. Each answer either jumps
//! to the first prompt carrying the answer's label or advances to the next
//! prompt in document order.

use vstd::prelude::*;

use crate::chunker::clone_bytes;
use crate::parser::Prompt;
use crate::parser::PromptView;
use crate::parser::Response;

verus! {

/// The failure of starting a session: the script holds no prompt at all.
#[derive(Debug, PartialEq, Eq, Structural)]
pub struct PromptStartErr;

/// The failures of one navigation step: the answer names a label no prompt
/// carries, or a sequential advance ran past the last prompt.
#[derive(Debug, PartialEq, Eq, Structural)]
pub enum PrompterErr {
    BadResponse,
    NoMoreQ,
}

/// The reserved label a session starts at when some prompt carries it:
/// the ASCII bytes of `START`.
pub open spec fn start_label() -> Seq<u8> {
    seq![83u8, 84u8, 65u8, 82u8, 84u8]
}

/// The ASCII bytes of the reserved starting label, as a vector.
fn start_label_bytes() -> (r: Vec<u8>)
    ensures
        r@ == start_label(),
{
    let mut r: Vec<u8> = Vec::new();
    r.push(83);
    r.push(84);
    r.push(65);
    r.push(82);
    r.push(84);
    proof {
        assert(r@ =~= start_label());
    }
    r
}

/// The position of the first prompt at or after `i` whose label equals
/// `lbl`, scanning in document order.
pub open spec fn first_with_label(prompts: Seq<PromptView>, lbl: Seq<u8>, i: int) -> Option<int>
    decreases prompts.len() - i,
{
    if i < 0 || i >= prompts.len() {
        None
    } else if prompts[i].label == Some(lbl) {
        Some(i)
    } else {
        first_with_label(prompts, lbl, i + 1)
    }
}

/// What the label lookup finds: the first matching position in document
/// order, or nothing when no prompt carries the label.
pub proof fn lemma_first_with_label_spec(prompts: Seq<PromptView>, lbl: Seq<u8>, i: int)
    requires
        0 <= i <= prompts.len(),
    ensures
        (match first_with_label(prompts, lbl, i) {
            Some(j) => i <= j < prompts.len() && prompts[j].label == Some(lbl) && (forall|k: int|
                i <= k < j ==> prompts[k].label != Some(lbl)),
            None => forall|k: int| i <= k < prompts.len() ==> prompts[k].label != Some(lbl),
        }),
    decreases prompts.len() - i,
{
    if i < prompts.len() && prompts[i].label != Some(lbl) {
        lemma_first_with_label_spec(prompts, lbl, i + 1);
    }
}

/// The index a session starts at: the first prompt labeled `START`, or the
/// first prompt of the script when none is.
pub open spec fn start_index(prompts: Seq<PromptView>) -> int {
    match first_with_label(prompts, start_label(), 0) {
        Some(i) => i,
        None => 0,
    }
}

/// The starting rule: when some prompt carries the reserved label, the
/// session starts at the earliest such prompt, wherever it stands; when none
/// does, it starts at the first prompt of the script.
pub proof fn lemma_start_index_spec(prompts: Seq<PromptView>)
    requires
        prompts.len() > 0,
    ensures
        0 <= start_index(prompts) < prompts.len(),
        (exists|k: int| 0 <= k < prompts.len() && prompts[k].label == Some(start_label()))
            ==> prompts[start_index(prompts)].label == Some(start_label()) && (forall|k: int|
            0 <= k < start_index(prompts) ==> prompts[k].label != Some(start_label())),
        (forall|k: int| 0 <= k < prompts.len() ==> prompts[k].label != Some(start_label()))
            ==> start_index(prompts) == 0,
{
    lemma_first_with_label_spec(prompts, start_label(), 0);
}

/// True when the prompt's label equals the given bytes.
fn label_matches(label: &Option<Vec<u8>>, lbl: &Vec<u8>) -> (r: bool)
    ensures
        r == (label.deep_view() == Some(lbl@)),
{
    match label {
        Some(bytes) => {
            proof {
                assert(bytes.deep_view() =~= bytes@);
            }
            bytes_eq(bytes, lbl)
        },
        None => false,
    }
}

/// Byte-for-byte equality of two vectors.
fn bytes_eq(a: &Vec<u8>, b: &Vec<u8>) -> (r: bool)
    ensures
        r == (a@ == b@),
{
    if a.len() != b.len() {
        return false;
    }
    let mut i: usize = 0;
    while i < a.len()
        invariant
            i <= a@.len(),
            a@.len() == b@.len(),
            forall|k: int| 0 <= k < i ==> a@[k] == b@[k],
        decreases a@.len() - i,
    {
        if a[i] != b[i] {
            return false;
        }
        i = i + 1;
    }
    proof {
        assert(a@ =~= b@);
    }
    true
}

/// A live session: the parsed script, the prompt the cursor rests on, and
/// that prompt's position. The script itself is never changed; each step
/// produces a new session value.
pub struct Prompter {
    pub prompts: Vec<Prompt>,
    pub next: Prompt,
    pub next_idx: usize,
}

impl Clone for Prompter {
    /// The copy is an independent session at the same position over an
    /// identical script.
    fn clone(&self) -> (r: Self)
        ensures
            r.prompts.deep_view() == self.prompts.deep_view(),
            r.next.deep_view() == self.next.deep_view(),
            r.next_idx == self.next_idx,
    {
        let mut prompts: Vec<Prompt> = Vec::new();
        let mut i: usize = 0;
        while i < self.prompts.len()
            invariant
                i <= self.prompts@.len(),
                prompts.deep_view() =~= self.prompts.deep_view().take(i as int),
            decreases self.prompts@.len() - i,
        {
            let ghost before = prompts.deep_view();
            let copied = self.prompts[i].clone();
            proof {
                assert(copied.deep_view() == self.prompts@[i as int].deep_view());
            }
            prompts.push(copied);
            proof {
                assert(before.len() == i);
                assert(prompts@.len() == i + 1);
                assert forall|k: int| 0 <= k < i + 1 implies prompts.deep_view()[k]
                    == self.prompts.deep_view()[k] by {
                    if k < i {
                        assert(prompts.deep_view()[k] == before[k]);
                    }
                }
                assert(prompts.deep_view() =~= self.prompts.deep_view().take(i + 1));
            }
            i = i + 1;
        }
        proof {
            assert(prompts.deep_view() =~= self.prompts.deep_view());
        }
        Prompter { prompts, next: self.next.clone(), next_idx: self.next_idx }
    }
}

impl Prompter {
    /// The cursor points inside the script, at the prompt it holds a copy of.
    pub open spec fn wf(self) -> bool {
        &&& (self.next_idx as int) < self.prompts.deep_view().len()
        &&& self.next.deep_view() == self.prompts.deep_view()[self.next_idx as int]
    }

    /// Starts a session at the first prompt labeled `START`, falling back to
    /// the first prompt; an empty script cannot be navigated at all.
    pub fn new(prompts: Vec<Prompt>) -> (r: Result<Prompter, PromptStartErr>)
        ensures
            prompts.deep_view().len() == 0 ==> r is Err,
            prompts.deep_view().len() > 0 ==> (r matches Ok(p) && p.wf() && p.prompts.deep_view()
                == prompts.deep_view() && p.next_idx as int == start_index(prompts.deep_view())),
    {
        let ghost ps = prompts.deep_view();
        proof {
            lemma_first_with_label_spec(ps, start_label(), 0);
        }
        let lbl = start_label_bytes();
        let mut i: usize = 0;
        while i < prompts.len()
            invariant
                i <= ps.len(),
                ps == prompts.deep_view(),
                lbl@ == start_label(),
                forall|k: int| 0 <= k < i ==> ps[k].label != Some(start_label()),
            decreases ps.len() - i,
        {
            if label_matches(&prompts[i].label, &lbl) {
                proof {
                    lemma_first_with_label_found(ps, start_label(), i as int);
                }
                let start = prompts[i].clone();
                return Ok(Self { prompts, next: start, next_idx: i });
            }
            i = i + 1;
        }
        if prompts.len() > 0 {
            let start = prompts[0].clone();
            Ok(Self { prompts, next: start, next_idx: 0 })
        } else {
            Err(PromptStartErr)
        }
    }

    /// The prompt the cursor rests on; reading it moves nothing.
    pub fn next(&self) -> (r: Prompt)
        requires
            self.wf(),
        ensures
            r.deep_view() == self.prompts.deep_view()[self.next_idx as int],
    {
        self.next.clone()
    }

    /// One navigation step. A labeled answer jumps to the first prompt in
    /// document order carrying that label, and fails when no prompt does; an
    /// unlabeled answer advances to the next prompt, and fails when the
    /// cursor already rests on the last one.
    #[verifier::loop_isolation(false)]
    pub fn answer(self, response: &Response) -> (r: Result<Prompter, PrompterErr>)
        requires
            self.wf(),
        ensures
            (match response.label {
                Some(lbl) => (match first_with_label(self.prompts.deep_view(), lbl@, 0) {
                    Some(j) => r matches Ok(p) && p.wf() && p.prompts.deep_view()
                        == self.prompts.deep_view() && p.next_idx == j,
                    None => r == Err::<Prompter, PrompterErr>(PrompterErr::BadResponse),
                }),
                None => if self.next_idx + 1 < self.prompts.deep_view().len() {
                    r matches Ok(p) && p.wf() && p.prompts.deep_view()
                        == self.prompts.deep_view() && p.next_idx == self.next_idx + 1
                } else {
                    r == Err::<Prompter, PrompterErr>(PrompterErr::NoMoreQ)
                },
            }),
    {
        let ghost ps = self.prompts.deep_view();
        match &response.label {
            Some(lbl) => {
                proof {
                    lemma_first_with_label_spec(ps, lbl@, 0);
                }
                let mut i: usize = 0;
                while i < self.prompts.len()
                    invariant
                        i <= ps.len(),
                        ps == self.prompts.deep_view(),
                        forall|k: int| 0 <= k < i ==> ps[k].label != Some(lbl@),
                    decreases ps.len() - i,
                {
                    if label_matches(&self.prompts[i].label, lbl) {
                        proof {
                            lemma_first_with_label_found(ps, lbl@, i as int);
                        }
                        let next = self.prompts[i].clone();
                        return Ok(Self { prompts: self.prompts, next, next_idx: i });
                    }
                    i = i + 1;
                }
                Err(PrompterErr::BadResponse)
            },
            None => {
                let count = self.prompts.len();
                proof {
                    assert(ps.len() == self.prompts@.len());
                }
                let next_idx = self.next_idx + 1;
                if next_idx < count {
                    let next = self.prompts[next_idx].clone();
                    Ok(Self { prompts: self.prompts, next, next_idx })
                } else {
                    Err(PrompterErr::NoMoreQ)
                }
            },
        }
    }
}

/// A match at `i` with no earlier match is what the lookup finds.
proof fn lemma_first_with_label_found(prompts: Seq<PromptView>, lbl: Seq<u8>, i: int)
    requires
        0 <= i < prompts.len(),
        prompts[i].label == Some(lbl),
        forall|k: int| 0 <= k < i ==> prompts[k].label != Some(lbl),
    ensures
        first_with_label(prompts, lbl, 0) == Some(i),
{
    lemma_first_with_label_from(prompts, lbl, 0, i);
}

/// The same, scanning from any position at or before the match.
proof fn lemma_first_with_label_from(prompts: Seq<PromptView>, lbl: Seq<u8>, from: int, i: int)
    requires
        0 <= from <= i < prompts.len(),
        prompts[i].label == Some(lbl),
        forall|k: int| from <= k < i ==> prompts[k].label != Some(lbl),
    ensures
        first_with_label(prompts, lbl, from) == Some(i),
    decreases i - from,
{
    if from < i {
        lemma_first_with_label_from(prompts, lbl, from + 1, i);
    }
}

} // verus!
