use vstd::prelude::*;

verus! {

broadcast use vstd::string::group_string_axioms;

/// Budget for each per-chunk (map) summary: the target divided evenly over
/// the chunks, rounded down, with a floor of one token so that no
/// zero-budget prompt is ever issued.
pub open spec fn per_chunk_budget_spec(target: int, count: int) -> int {
    if count <= 0 {
        1
    } else if target / count < 1 {
        1
    } else {
        target / count
    }
}

/// The per-chunk token budget of the map phase.
pub fn per_chunk_budget(target_length: usize, chunk_count: usize) -> (r: usize)
    requires
        chunk_count > 0,
    ensures
        r as int == per_chunk_budget_spec(target_length as int, chunk_count as int),
        r >= 1,
{
    let b = target_length / chunk_count;
    if b < 1 {
        1
    } else {
        b
    }
}

/// The blank-line join of the parts: parts separated by an empty line; a
/// single part stays unchanged, with no separator.
pub open spec fn joined_summaries(parts: Seq<Seq<char>>) -> Seq<char>
    decreases parts.len(),
{
    if parts.len() == 0 {
        Seq::empty()
    } else if parts.len() == 1 {
        parts[0]
    } else {
        joined_summaries(parts.drop_last()) + seq!['\n', '\n'] + parts.last()
    }
}

/// Joins chunk summaries with a blank-line separator.
pub fn join_summaries(parts: &Vec<String>) -> (r: String)
    ensures
        r@ == joined_summaries(parts.deep_view()),
{
    let mut acc = String::new();
    let mut i: usize = 0;
    while i < parts.len()
        invariant
            0 <= i <= parts@.len(),
            acc@ == joined_summaries(parts.deep_view().take(i as int)),
        decreases parts@.len() - i,
    {
        if i > 0 {
            acc.append("\n\n");
            proof {
                reveal_strlit("\n\n");
                assert("\n\n"@ =~= seq!['\n', '\n']);
            }
        }
        acc.append(parts[i].as_str());
        proof {
            let pv = parts.deep_view();
            assert(pv.take(i + 1).drop_last() =~= pv.take(i as int));
            assert(pv.take(i + 1).last() == pv[i as int]);
            assert(pv[i as int] == parts@[i as int]@);
        }
        i = i + 1;
    }
    proof {
        assert(parts.deep_view().take(parts@.len() as int) =~= parts.deep_view());
    }
    acc
}

/// The next capability call of a running summary reduction.
pub enum ReduceAction {
    /// Summarize chunk `index` within `budget` tokens (map phase).
    SummarizeChunk { index: usize, budget: usize },
    /// Summarize `prompt`, the blank-line join of all chunk summaries,
    /// within `budget` tokens (the single reduce step).
    SummarizeJoined { prompt: String, budget: usize },
    /// The reduction is complete with this summary.
    Finished { summary: String },
}

/// The two-level summary reduction (summarize each chunk, then summarize
/// the join of the summaries once), as a state machine: the caller performs
/// each requested generation call and hands the produced text back.
pub struct SummaryReduction {
    pub chunk_count: usize,
    pub target_length: usize,
    pub summaries: Vec<String>,
}

impl SummaryReduction {
    /// At most one summary per chunk has been collected.
    pub open spec fn wf(&self) -> bool {
        self.summaries@.len() <= self.chunk_count
    }

    /// Starts a reduction over `chunk_count` chunks within a total budget
    /// of `target_length` tokens.
    pub fn new(chunk_count: usize, target_length: usize) -> (r: Self)
        ensures
            r.wf(),
            r.chunk_count == chunk_count,
            r.target_length == target_length,
            r.summaries@.len() == 0,
    {
        SummaryReduction { chunk_count, target_length, summaries: Vec::new() }
    }

    /// Records the summary produced for the next chunk.
    pub fn add_summary(&mut self, summary: String)
        requires
            old(self).wf(),
            old(self).summaries@.len() < old(self).chunk_count,
        ensures
            final(self).wf(),
            final(self).chunk_count == old(self).chunk_count,
            final(self).target_length == old(self).target_length,
            final(self).summaries@ == old(self).summaries@.push(summary),
    {
        self.summaries.push(summary);
    }

    /// The next call to make: one map call per chunk, each budgeted
    /// `max(1, target / count)` tokens; then, with more than one summary,
    /// one reduce call over their blank-line join budgeted the full target;
    /// with a single summary that summary is the result, unchanged, and no
    /// reduce call is made (with none, the result is empty).
    pub fn next_action(&self) -> (r: ReduceAction)
        requires
            self.wf(),
        ensures
            self.summaries@.len() < self.chunk_count ==> (r matches ReduceAction::SummarizeChunk {
                index,
                budget,
            } && index == self.summaries@.len() && budget as int == per_chunk_budget_spec(
                self.target_length as int,
                self.chunk_count as int,
            )),
            (self.summaries@.len() == self.chunk_count && self.chunk_count > 1) ==> (r matches
                ReduceAction::SummarizeJoined { prompt, budget } && prompt@ == joined_summaries(
                self.summaries.deep_view(),
            ) && budget == self.target_length),
            (self.summaries@.len() == self.chunk_count && self.chunk_count == 1) ==> (r matches
                ReduceAction::Finished { summary } && summary@ == self.summaries@[0]@),
            (self.summaries@.len() == self.chunk_count && self.chunk_count == 0) ==> (r matches
                ReduceAction::Finished { summary } && summary@.len() == 0),
    {
        if self.summaries.len() < self.chunk_count {
            ReduceAction::SummarizeChunk {
                index: self.summaries.len(),
                budget: per_chunk_budget(self.target_length, self.chunk_count),
            }
        } else if self.chunk_count > 1 {
            ReduceAction::SummarizeJoined {
                prompt: join_summaries(&self.summaries),
                budget: self.target_length,
            }
        } else if self.chunk_count == 1 {
            ReduceAction::Finished { summary: self.summaries[0].clone() }
        } else {
            ReduceAction::Finished { summary: String::new() }
        }
    }
}

} // verus!
