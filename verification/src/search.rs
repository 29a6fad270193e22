//! The search for a simpler case that still fails.
//!
//! The search keeps the failing case it started from, the simplest failing
//! case it has found since, and a frontier of candidates that wait for their
//! trial. Each step tries the candidate at the front of the frontier. One
//! that passes is dropped. One that fails takes the place of the best case
//! if it scores strictly less, and what it shrinks to joins the frontier.

use crate::frontier::enqueue_some;
use crate::frontier::lemma_enqueue;
use crate::frontier::ordered;
use crate::frontier::Frontier;
use crate::frontier::Scored;
use crate::harness::TrialOutcome;
use crate::rng::Rng;
use crate::traits::Shrink;
use vstd::prelude::*;

verus! {

/// How many candidates a search tries unless it is told otherwise.
pub const SHRINK_BUDGET: usize = 1000;

/// Whether every score in `scores` is less than the one before it, and the
/// first less than `bound`.
pub open spec fn descending_below(bound: usize, scores: Seq<usize>) -> bool {
    &&& scores.len() > 0 ==> scores[0] < bound
    &&& forall|i: int, j: int| 0 <= i < j < scores.len() ==> scores[j] < scores[i]
}

/// A search at one moment.
#[verifier::ext_equal]
pub struct SearchState<T> {
    /// The failing case that the search started from.
    pub original: Scored<T>,
    /// The simplest failing case found since, if one scored less than the
    /// original.
    pub better: Option<Scored<T>>,
    /// The candidates that wait for their trial, in the order of their turn.
    pub frontier: Seq<Scored<T>>,
    /// The score of each case that became the best one, in order.
    pub improvements: Seq<usize>,
    /// How many candidates were handed out for a trial.
    pub steps: nat,
    /// How many candidates may be handed out at all.
    pub budget: nat,
}

impl<T> SearchState<T> {
    /// The search before its first step. It starts with `first` on its
    /// frontier, if there is one.
    pub open spec fn initial(original: Scored<T>, first: Option<Scored<T>>, budget: nat) -> Self {
        SearchState {
            original,
            better: None,
            frontier: enqueue_some(Seq::empty(), first),
            improvements: Seq::empty(),
            steps: 0,
            budget,
        }
    }

    /// The simplest failing case known.
    pub open spec fn best(self) -> Scored<T> {
        match self.better {
            Some(found) => found,
            None => self.original,
        }
    }

    /// Whether the search is over: its budget is spent or nothing waits.
    pub open spec fn stalled(self) -> bool {
        self.steps >= self.budget || self.frontier.len() == 0
    }

    /// The search after the candidate at the front was handed out.
    pub open spec fn handed_out(self) -> Self {
        SearchState { frontier: self.frontier.drop_first(), steps: self.steps + 1, ..self }
    }

    /// The search after `candidate` failed its trial and shrank to `child`.
    pub open spec fn after_failure(self, candidate: Scored<T>, child: Option<Scored<T>>) -> Self {
        if candidate.score < self.best().score {
            SearchState {
                better: Some(candidate),
                improvements: self.improvements.push(candidate.score),
                frontier: enqueue_some(self.frontier, child),
                ..self
            }
        } else {
            SearchState { frontier: enqueue_some(self.frontier, child), ..self }
        }
    }

    /// What holds of a search at every moment: each case that became the
    /// best one scored strictly less than the best one before it, the last
    /// of them is the best one now, and the budget is not overdrawn.
    pub open spec fn sound(self) -> bool {
        &&& descending_below(self.original.score, self.improvements)
        &&& self.better is None <==> self.improvements.len() == 0
        &&& self.better matches Some(found) ==> found.score == self.improvements.last()
        &&& self.improvements.len() <= self.steps <= self.budget
        &&& ordered(self.frontier)
    }
}

/// Whether `child` is what a copy of `case` can shrink to with a source
/// seeded `seed`, paired with the score it gives itself.
pub open spec fn shrinks_to<T: Shrink>(case: T, seed: u64, child: Option<Scored<T>>) -> bool {
    exists|copy: T, smaller: Option<T>|
        {
            &&& cloned(case, copy)
            &&& #[trigger] call_ensures(T::shrink, (copy, Rng::seeded(seed)), smaller)
            &&& match smaller {
                Some(value) => child matches Some(scored) && scored.case == value && call_ensures(
                    T::score,
                    (&value,),
                    scored.score,
                ),
                None => child is None,
            }
        }
}

/// Whether `case` can fail `trial`.
pub open spec fn fails<T, P, F: Fn(&T) -> TrialOutcome<P>>(trial: F, case: T) -> bool {
    exists|outcome: TrialOutcome<P>|
        #[trigger] call_ensures(trial, (&case,), outcome) && !(outcome is Pass)
}

/// Whether `post` can follow `pre` when the candidate at the front failed
/// its trial: it is recorded together with what it shrinks to. The step's
/// number seeds the source that the candidate shrinks with.
pub open spec fn follows_failure<T: Shrink>(pre: SearchState<T>, post: SearchState<T>) -> bool {
    exists|child: Option<Scored<T>>|
        {
            &&& #[trigger] shrinks_to(pre.frontier[0].case, pre.steps as u64, child)
            &&& post == pre.handed_out().after_failure(pre.frontier[0], child)
        }
}

/// Whether `post` can follow `pre` in one step: the candidate at the front
/// is handed to `trial`; if it passes it is dropped, and if it fails it is
/// recorded.
pub open spec fn step<T: Shrink, P, F: Fn(&T) -> TrialOutcome<P>>(
    pre: SearchState<T>,
    trial: F,
    post: SearchState<T>,
) -> bool {
    &&& !pre.stalled()
    &&& exists|outcome: TrialOutcome<P>|
        {
            &&& #[trigger] call_ensures(trial, (&pre.frontier[0].case,), outcome)
            &&& if outcome is Pass {
                post == pre.handed_out()
            } else {
                follows_failure(pre, post)
            }
        }
}

/// Whether a run of steps leads from `start` to `end`.
pub open spec fn reaches<T: Shrink, P, F: Fn(&T) -> TrialOutcome<P>>(
    start: SearchState<T>,
    trial: F,
    end: SearchState<T>,
) -> bool
    decreases end.steps,
{
    end == start || exists|mid: SearchState<T>|
        mid.steps < end.steps && reaches(start, trial, mid) && #[trigger] step(mid, trial, end)
}

/// Whether `start` is a search for something simpler than `case` before its
/// first step: `case` is paired with the score it gives itself, and what it
/// shrinks to with a source seeded 0 waits on the frontier.
pub open spec fn starts<T: Shrink>(case: T, budget: usize, start: SearchState<T>) -> bool {
    exists|original: Scored<T>, first: Option<Scored<T>>|
        {
            &&& original.case == case
            &&& call_ensures(T::score, (&case,), original.score)
            &&& shrinks_to(case, 0, first)
            &&& start == #[trigger] SearchState::initial(original, first, budget as nat)
        }
}

/// What a search found.
#[derive(Debug)]
pub struct Reduction<T> {
    /// The failing case that the search started from.
    pub original: Scored<T>,
    /// The simplest failing case found, if one scored less than the
    /// original.
    pub smallest: Option<Scored<T>>,
    /// The score of each case that became the best one, in order.
    pub improvements: Vec<usize>,
    /// How many candidates were tried.
    pub steps: usize,
}

impl<T> Reduction<T> {
    /// Whether this is what the search in state `end` found.
    pub open spec fn reports(self, end: SearchState<T>) -> bool {
        &&& self.original == end.original
        &&& self.smallest == end.better
        &&& self.improvements@ == end.improvements
        &&& self.steps == end.steps
    }

    /// The simplest failing case known.
    pub open spec fn best_case(self) -> Scored<T> {
        match self.smallest {
            Some(found) => found,
            None => self.original,
        }
    }

    /// The simplest failing case known: the smallest one found, or the
    /// original where nothing smaller failed.
    pub fn best(&self) -> (best: &Scored<T>)
        ensures
            *best == self.best_case(),
    {
        match &self.smallest {
            Some(found) => found,
            None => &self.original,
        }
    }
}

/// Whether `reduction` is what a search for something simpler than `case`
/// can find with `trial` in at most `budget` steps: the search runs from its
/// start until its budget is spent or nothing waits.
pub open spec fn reduced<T: Shrink, P, F: Fn(&T) -> TrialOutcome<P>>(
    case: T,
    trial: F,
    budget: usize,
    reduction: Reduction<T>,
) -> bool {
    exists|start: SearchState<T>, end: SearchState<T>|
        {
            &&& starts(case, budget, start)
            &&& #[trigger] reaches(start, trial, end)
            &&& end.stalled()
            &&& reduction.reports(end)
        }
}

/// What a copy of `case` shrinks to with a source seeded `seed`, paired with
/// its score.
pub fn candidate_of<T: Shrink>(case: &T, seed: u64) -> (child: Option<Scored<T>>)
    ensures
        shrinks_to(*case, seed, child),
{
    let copy = case.clone();
    let smaller = copy.shrink(Rng::new_with_seed(seed));
    match smaller {
        Some(value) => Some(Scored::of(value)),
        None => None,
    }
}

/// A search in progress.
pub struct Search<T> {
    original: Scored<T>,
    better: Option<Scored<T>>,
    frontier: Frontier<T>,
    improvements: Vec<usize>,
    steps: usize,
    budget: usize,
}

impl<T> View for Search<T> {
    type V = SearchState<T>;

    closed spec fn view(&self) -> SearchState<T> {
        SearchState {
            original: self.original,
            better: self.better,
            frontier: self.frontier@,
            improvements: self.improvements@,
            steps: self.steps as nat,
            budget: self.budget as nat,
        }
    }
}

impl<T> Search<T> {
    /// A search that starts from the failing case `original`, with `first`
    /// on its frontier, and that may try `budget` candidates.
    pub fn new(original: Scored<T>, first: Option<Scored<T>>, budget: usize) -> (search: Search<T>)
        ensures
            search@ == SearchState::initial(original, first, budget as nat),
    {
        let mut frontier = Frontier::new();
        if let Some(found) = first {
            frontier.push(found);
        }
        Search { original, better: None, frontier, improvements: Vec::new(), steps: 0, budget }
    }

    /// Hands out the candidate whose turn it is, or `None` when the search
    /// is over.
    pub fn next_candidate(&mut self) -> (candidate: Option<Scored<T>>)
        ensures
            old(self)@.stalled() ==> candidate is None && final(self)@ == old(self)@,
            !old(self)@.stalled() ==> candidate == Some(old(self)@.frontier[0]) && final(self)@
                == old(self)@.handed_out(),
    {
        if self.steps >= self.budget {
            return None;
        }
        let candidate = self.frontier.pop();
        if candidate.is_some() {
            self.steps = self.steps + 1;
        }
        candidate
    }

    /// Records that `candidate` failed its trial and shrank to `child`.
    pub fn record_failure(&mut self, candidate: Scored<T>, child: Option<Scored<T>>)
        ensures
            final(self)@ == old(self)@.after_failure(candidate, child),
    {
        let best_score = match &self.better {
            Some(found) => found.score,
            None => self.original.score,
        };
        if candidate.score < best_score {
            self.improvements.push(candidate.score);
            self.better = Some(candidate);
        }
        if let Some(found) = child {
            self.frontier.push(found);
        }
    }

    /// Ends the search and reports what it found.
    pub fn finish(self) -> (reduction: Reduction<T>)
        ensures
            reduction.reports(self@),
    {
        Reduction {
            original: self.original,
            smallest: self.better,
            improvements: self.improvements,
            steps: self.steps,
        }
    }
}

/// Searches for a case that is simpler than the failing `case` and fails
/// `trial` as well, trying at most `budget` candidates.
pub fn shrink_within<T: Shrink, P, F: Fn(&T) -> TrialOutcome<P>>(
    case: T,
    trial: &F,
    budget: usize,
) -> (reduction: Reduction<T>)
    requires
        forall|candidate: &T| #[trigger] call_requires(trial, (candidate,)),
    ensures
        reduced(case, *trial, budget, reduction),
        reduction.original.case == case,
        reduction.smallest matches Some(found) ==> fails(*trial, found.case),
        descending_below(reduction.original.score, reduction.improvements@),
        reduction.best_case().score <= reduction.original.score,
        reduction.steps <= budget,
{
    let first = candidate_of(&case, 0);
    let original = Scored::of(case);
    let mut search = Search::new(original, first, budget);
    let ghost start = search@;
    assert(starts(case, budget, start));
    loop
        invariant
            forall|candidate: &T| #[trigger] call_requires(trial, (candidate,)),
            reaches(start, *trial, search@),
            search@.budget == budget,
        ensures
            reaches(start, *trial, search@),
            search@.stalled(),
        decreases search@.budget - search@.steps,
    {
        let ghost pre = search@;
        let candidate = match search.next_candidate() {
            Some(candidate) => candidate,
            None => { break ; },
        };
        let outcome = trial(&candidate.case);
        if !outcome.is_pass() {
            let child = candidate_of(&candidate.case, (search.steps - 1) as u64);
            search.record_failure(candidate, child);
        }
        assert(step(pre, *trial, search@));
    }
    let reduction = search.finish();
    proof {
        lemma_reduced_sound(case, *trial, budget, reduction);
        lemma_reduced_fails(case, *trial, budget, reduction);
    }
    reduction
}

/// Searches for a case that is simpler than the failing `case` and fails
/// `trial` as well, trying at most [`SHRINK_BUDGET`] candidates.
pub fn shrink_case<T: Shrink, P, F: Fn(&T) -> TrialOutcome<P>>(case: T, trial: &F) -> (reduction:
    Reduction<T>)
    requires
        forall|candidate: &T| #[trigger] call_requires(trial, (candidate,)),
    ensures
        reduced(case, *trial, SHRINK_BUDGET, reduction),
        reduction.original.case == case,
        reduction.smallest matches Some(found) ==> fails(*trial, found.case),
        descending_below(reduction.original.score, reduction.improvements@),
        reduction.best_case().score <= reduction.original.score,
        reduction.steps <= SHRINK_BUDGET,
{
    shrink_within(case, trial, SHRINK_BUDGET)
}

/// A search stays sound when a candidate is handed out.
pub proof fn lemma_handed_out_sound<T>(state: SearchState<T>)
    requires
        state.sound(),
        !state.stalled(),
    ensures
        state.handed_out().sound(),
{
    let rest = state.frontier.drop_first();
    assert forall|i: int, j: int| 0 <= i <= j < rest.len() implies rest[i].score
        <= rest[j].score by {
        assert(rest[i] == state.frontier[i + 1] && rest[j] == state.frontier[j + 1]);
    }
}

/// A search stays sound when a failure is recorded, and its best case never
/// gets worse: it is replaced only by a case that scores strictly less.
pub proof fn lemma_after_failure_sound<T>(
    state: SearchState<T>,
    candidate: Scored<T>,
    child: Option<Scored<T>>,
)
    requires
        state.sound(),
        state.improvements.len() < state.steps,
    ensures
        state.after_failure(candidate, child).sound(),
        state.after_failure(candidate, child).best().score <= state.best().score,
        state.after_failure(candidate, child).better != state.better ==> state.after_failure(
            candidate,
            child,
        ).best().score < state.best().score,
{
    if let Some(found) = child {
        lemma_enqueue(state.frontier, found);
    }
}

/// The start of a search is sound.
pub proof fn lemma_initial_sound<T>(original: Scored<T>, first: Option<Scored<T>>, budget: nat)
    ensures
        SearchState::initial(original, first, budget).sound(),
{
    if let Some(found) = first {
        lemma_enqueue(Seq::<Scored<T>>::empty(), found);
    }
}

/// One step keeps a search sound and leaves the original alone, and the
/// best case after it scores no more than the best case before it.
pub proof fn lemma_step_sound<T: Shrink, P, F: Fn(&T) -> TrialOutcome<P>>(
    pre: SearchState<T>,
    trial: F,
    post: SearchState<T>,
)
    requires
        pre.sound(),
        step(pre, trial, post),
    ensures
        post.sound(),
        post.original == pre.original,
        post.best().score <= pre.best().score,
{
    lemma_handed_out_sound(pre);
    let outcome = choose|outcome: TrialOutcome<P>|
        {
            &&& #[trigger] call_ensures(trial, (&pre.frontier[0].case,), outcome)
            &&& if outcome is Pass {
                post == pre.handed_out()
            } else {
                follows_failure(pre, post)
            }
        };
    if !(outcome is Pass) {
        let child = choose|child: Option<Scored<T>>|
            {
                &&& #[trigger] shrinks_to(pre.frontier[0].case, pre.steps as u64, child)
                &&& post == pre.handed_out().after_failure(pre.frontier[0], child)
            };
        lemma_after_failure_sound(pre.handed_out(), pre.frontier[0], child);
    }
}

/// A run of steps keeps a search sound. It tries one candidate per step,
/// never more than the budget allows, and its best case never scores more
/// than the one it started with.
pub proof fn lemma_reaches_sound<T: Shrink, P, F: Fn(&T) -> TrialOutcome<P>>(
    start: SearchState<T>,
    trial: F,
    end: SearchState<T>,
)
    requires
        start.sound(),
        reaches(start, trial, end),
    ensures
        end.sound(),
        end.original == start.original,
        end.budget == start.budget,
        start.steps <= end.steps <= end.budget,
        end.best().score <= start.best().score,
    decreases end.steps,
{
    if end != start {
        let mid = choose|mid: SearchState<T>|
            mid.steps < end.steps && reaches(start, trial, mid) && #[trigger] step(
                mid,
                trial,
                end,
            );
        lemma_reaches_sound(start, trial, mid);
        lemma_step_sound(mid, trial, end);
        lemma_step_counts(mid, trial, end);
    }
}

/// What a search found is never worse than what it started from: every case
/// that became the best one scored strictly less than the best one before
/// it, the case reported as best scores no more than the original, and no
/// more candidates were tried than the budget allows.
pub proof fn lemma_reduced_sound<T: Shrink, P, F: Fn(&T) -> TrialOutcome<P>>(
    case: T,
    trial: F,
    budget: usize,
    reduction: Reduction<T>,
)
    requires
        reduced(case, trial, budget, reduction),
    ensures
        reduction.original.case == case,
        descending_below(reduction.original.score, reduction.improvements@),
        reduction.smallest matches Some(found) ==> reduction.improvements@.len() > 0
            && found.score == reduction.improvements@.last(),
        reduction.smallest is None ==> reduction.improvements@.len() == 0,
        reduction.best_case().score <= reduction.original.score,
        reduction.improvements@.len() <= reduction.steps <= budget,
{
    let (start, end) = choose|start: SearchState<T>, end: SearchState<T>|
        {
            &&& starts(case, budget, start)
            &&& #[trigger] reaches(start, trial, end)
            &&& end.stalled()
            &&& reduction.reports(end)
        };
    let (original, first) = choose|original: Scored<T>, first: Option<Scored<T>>|
        {
            &&& original.case == case
            &&& call_ensures(T::score, (&case,), original.score)
            &&& shrinks_to(case, 0, first)
            &&& start == #[trigger] SearchState::initial(original, first, budget as nat)
        };
    lemma_initial_sound(original, first, budget as nat);
    lemma_reaches_sound(start, trial, end);
}

/// A case becomes the best one only after it failed its trial.
pub proof fn lemma_reaches_fails<T: Shrink, P, F: Fn(&T) -> TrialOutcome<P>>(
    start: SearchState<T>,
    trial: F,
    end: SearchState<T>,
)
    requires
        start.better is None,
        reaches(start, trial, end),
    ensures
        end.better matches Some(found) ==> fails(trial, found.case),
    decreases end.steps,
{
    if end != start {
        let mid = choose|mid: SearchState<T>|
            mid.steps < end.steps && reaches(start, trial, mid) && #[trigger] step(
                mid,
                trial,
                end,
            );
        lemma_reaches_fails(start, trial, mid);
        let outcome = choose|outcome: TrialOutcome<P>|
            {
                &&& #[trigger] call_ensures(trial, (&mid.frontier[0].case,), outcome)
                &&& if outcome is Pass {
                    end == mid.handed_out()
                } else {
                    follows_failure(mid, end)
                }
            };
        if !(outcome is Pass) {
            assert(fails(trial, mid.frontier[0].case));
        }
    }
}

/// What a search reports as a smaller case failed its trial.
pub proof fn lemma_reduced_fails<T: Shrink, P, F: Fn(&T) -> TrialOutcome<P>>(
    case: T,
    trial: F,
    budget: usize,
    reduction: Reduction<T>,
)
    requires
        reduced(case, trial, budget, reduction),
    ensures
        reduction.smallest matches Some(found) ==> fails(trial, found.case),
{
    let (start, end) = choose|start: SearchState<T>, end: SearchState<T>|
        {
            &&& starts(case, budget, start)
            &&& #[trigger] reaches(start, trial, end)
            &&& end.stalled()
            &&& reduction.reports(end)
        };
    lemma_reaches_fails(start, trial, end);
}

/// Once a candidate has failed its trial, the best case never scores more
/// than it: the search ends with a case that scores least among those that
/// it saw fail.
pub proof fn lemma_best_is_least<T: Shrink, P, F: Fn(&T) -> TrialOutcome<P>>(
    pre: SearchState<T>,
    post: SearchState<T>,
    trial: F,
    end: SearchState<T>,
)
    requires
        pre.sound(),
        !pre.stalled(),
        follows_failure(pre, post),
        reaches(post, trial, end),
    ensures
        end.best().score <= pre.frontier[0].score,
{
    let child = choose|child: Option<Scored<T>>|
        {
            &&& #[trigger] shrinks_to(pre.frontier[0].case, pre.steps as u64, child)
            &&& post == pre.handed_out().after_failure(pre.frontier[0], child)
        };
    lemma_handed_out_sound(pre);
    lemma_after_failure_sound(pre.handed_out(), pre.frontier[0], child);
    lemma_reaches_sound(post, trial, end);
}

/// Whether `trial` fixes its outcome: one case, one outcome.
pub open spec fn repeatable_trial<T, P, F: Fn(&T) -> TrialOutcome<P>>(trial: F) -> bool {
    forall|case: T, outcome: TrialOutcome<P>, other: TrialOutcome<P>|
        #[trigger] call_ensures(trial, (&case,), outcome) && #[trigger] call_ensures(
            trial,
            (&case,),
            other,
        ) ==> outcome == other
}

/// Whether cases of type `T` fix what they shrink to and how they score,
/// and copy themselves exactly.
pub open spec fn repeatable_cases<T: Shrink>() -> bool {
    &&& forall|case: T, rng: Rng, smaller: Option<T>, other: Option<T>|
        #[trigger] call_ensures(T::shrink, (case, rng), smaller) && #[trigger] call_ensures(
            T::shrink,
            (case, rng),
            other,
        ) ==> smaller == other
    &&& forall|case: T, score: usize, other: usize|
        #[trigger] call_ensures(T::score, (&case,), score) && #[trigger] call_ensures(
            T::score,
            (&case,),
            other,
        ) ==> score == other
    &&& forall|case: T, copy: T| #[trigger] cloned(case, copy) ==> copy == case
}

/// With repeatable cases, a case and a seed fix what the case shrinks to.
pub proof fn lemma_shrinks_to_unique<T: Shrink>(
    case: T,
    seed: u64,
    child: Option<Scored<T>>,
    other: Option<Scored<T>>,
)
    requires
        repeatable_cases::<T>(),
        shrinks_to(case, seed, child),
        shrinks_to(case, seed, other),
    ensures
        child == other,
{
}

/// A step counts as one trial and leaves the budget alone.
pub proof fn lemma_step_counts<T: Shrink, P, F: Fn(&T) -> TrialOutcome<P>>(
    pre: SearchState<T>,
    trial: F,
    post: SearchState<T>,
)
    requires
        step(pre, trial, post),
    ensures
        post.steps == pre.steps + 1,
        post.budget == pre.budget,
{
}

/// A run of steps never counts backwards.
pub proof fn lemma_reaches_counts<T: Shrink, P, F: Fn(&T) -> TrialOutcome<P>>(
    start: SearchState<T>,
    trial: F,
    end: SearchState<T>,
)
    requires
        reaches(start, trial, end),
    ensures
        start.steps <= end.steps,
        end != start ==> start.steps < end.steps,
    decreases end.steps,
{
    if end != start {
        let mid = choose|mid: SearchState<T>|
            mid.steps < end.steps && reaches(start, trial, mid) && #[trigger] step(
                mid,
                trial,
                end,
            );
        lemma_reaches_counts(start, trial, mid);
        lemma_step_counts(mid, trial, end);
    }
}

/// With a repeatable trial and repeatable cases, a state has one successor
/// at most.
pub proof fn lemma_step_unique<T: Shrink, P, F: Fn(&T) -> TrialOutcome<P>>(
    pre: SearchState<T>,
    trial: F,
    post: SearchState<T>,
    other: SearchState<T>,
)
    requires
        repeatable_trial::<T, P, F>(trial),
        repeatable_cases::<T>(),
        step(pre, trial, post),
        step(pre, trial, other),
    ensures
        post == other,
{
    let first = choose|outcome: TrialOutcome<P>|
        {
            &&& #[trigger] call_ensures(trial, (&pre.frontier[0].case,), outcome)
            &&& if outcome is Pass {
                post == pre.handed_out()
            } else {
                follows_failure(pre, post)
            }
        };
    let second = choose|outcome: TrialOutcome<P>|
        {
            &&& #[trigger] call_ensures(trial, (&pre.frontier[0].case,), outcome)
            &&& if outcome is Pass {
                other == pre.handed_out()
            } else {
                follows_failure(pre, other)
            }
        };
    assert(first == second);
    if !(first is Pass) {
        let child = choose|child: Option<Scored<T>>|
            {
                &&& #[trigger] shrinks_to(pre.frontier[0].case, pre.steps as u64, child)
                &&& post == pre.handed_out().after_failure(pre.frontier[0], child)
            };
        let sibling = choose|child: Option<Scored<T>>|
            {
                &&& #[trigger] shrinks_to(pre.frontier[0].case, pre.steps as u64, child)
                &&& other == pre.handed_out().after_failure(pre.frontier[0], child)
            };
        lemma_shrinks_to_unique(pre.frontier[0].case, pre.steps as u64, child, sibling);
    }
}

/// With a repeatable trial and repeatable cases, two runs of equal length
/// from one state end in one state.
pub proof fn lemma_reaches_unique<T: Shrink, P, F: Fn(&T) -> TrialOutcome<P>>(
    start: SearchState<T>,
    trial: F,
    end: SearchState<T>,
    other: SearchState<T>,
)
    requires
        repeatable_trial::<T, P, F>(trial),
        repeatable_cases::<T>(),
        reaches(start, trial, end),
        reaches(start, trial, other),
        end.steps == other.steps,
    ensures
        end == other,
    decreases end.steps,
{
    lemma_reaches_counts(start, trial, end);
    lemma_reaches_counts(start, trial, other);
    if end != start {
        let mid = choose|mid: SearchState<T>|
            mid.steps < end.steps && reaches(start, trial, mid) && #[trigger] step(
                mid,
                trial,
                end,
            );
        let between = choose|mid: SearchState<T>|
            mid.steps < other.steps && reaches(start, trial, mid) && #[trigger] step(
                mid,
                trial,
                other,
            );
        lemma_step_counts(mid, trial, end);
        lemma_step_counts(between, trial, other);
        lemma_reaches_unique(start, trial, mid, between);
        lemma_step_unique(mid, trial, end, other);
    }
}

/// A run that goes beyond a count of steps passes a state with that count,
/// and this state is not the end of a search.
pub proof fn lemma_reaches_passes<T: Shrink, P, F: Fn(&T) -> TrialOutcome<P>>(
    start: SearchState<T>,
    trial: F,
    end: SearchState<T>,
    count: nat,
) -> (passed: SearchState<T>)
    requires
        reaches(start, trial, end),
        start.steps <= count < end.steps,
    ensures
        reaches(start, trial, passed),
        passed.steps == count,
        !passed.stalled(),
    decreases end.steps,
{
    let mid = choose|mid: SearchState<T>|
        mid.steps < end.steps && reaches(start, trial, mid) && #[trigger] step(mid, trial, end);
    lemma_step_counts(mid, trial, end);
    if mid.steps == count {
        mid
    } else {
        lemma_reaches_passes(start, trial, mid, count)
    }
}

/// With a repeatable trial and repeatable cases a search is repeatable:
/// whatever two searches for something simpler than one case find with one
/// budget is the same, step for step.
pub proof fn lemma_reduced_unique<T: Shrink, P, F: Fn(&T) -> TrialOutcome<P>>(
    case: T,
    trial: F,
    budget: usize,
    reduction: Reduction<T>,
    other: Reduction<T>,
)
    requires
        repeatable_trial::<T, P, F>(trial),
        repeatable_cases::<T>(),
        reduced(case, trial, budget, reduction),
        reduced(case, trial, budget, other),
    ensures
        reduction.original == other.original,
        reduction.smallest == other.smallest,
        reduction.improvements@ == other.improvements@,
        reduction.steps == other.steps,
{
    let (start, end) = choose|start: SearchState<T>, end: SearchState<T>|
        {
            &&& starts(case, budget, start)
            &&& #[trigger] reaches(start, trial, end)
            &&& end.stalled()
            &&& reduction.reports(end)
        };
    let (begin, finish) = choose|start: SearchState<T>, end: SearchState<T>|
        {
            &&& starts(case, budget, start)
            &&& #[trigger] reaches(start, trial, end)
            &&& end.stalled()
            &&& other.reports(end)
        };
    let (original, first) = choose|original: Scored<T>, first: Option<Scored<T>>|
        {
            &&& original.case == case
            &&& call_ensures(T::score, (&case,), original.score)
            &&& shrinks_to(case, 0, first)
            &&& start == #[trigger] SearchState::initial(original, first, budget as nat)
        };
    let (twin, second) = choose|original: Scored<T>, first: Option<Scored<T>>|
        {
            &&& original.case == case
            &&& call_ensures(T::score, (&case,), original.score)
            &&& shrinks_to(case, 0, first)
            &&& begin == #[trigger] SearchState::initial(original, first, budget as nat)
        };
    lemma_shrinks_to_unique(case, 0, first, second);
    assert(original == twin);
    assert(start == begin);
    lemma_reaches_counts(start, trial, end);
    lemma_reaches_counts(start, trial, finish);
    if end.steps < finish.steps {
        let passed = lemma_reaches_passes(start, trial, finish, end.steps);
        lemma_reaches_unique(start, trial, end, passed);
    } else if finish.steps < end.steps {
        let passed = lemma_reaches_passes(start, trial, end, finish.steps);
        lemma_reaches_unique(start, trial, finish, passed);
    } else {
        lemma_reaches_unique(start, trial, end, finish);
    }
}

} // verus!
