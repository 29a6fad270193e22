//! A campaign: cases are pulled from a source and tried one by one until one
//! fails, the source runs out or the budget is spent. The first failing case
//! is handed to the search for a simpler one; the campaign's verdict stays
//! with the case that failed first.

use crate::harness::TrialOutcome;
use crate::search::descending_below;
use crate::search::fails;
use crate::search::lemma_reduced_unique;
use crate::search::reduced;
use crate::search::repeatable_cases;
use crate::search::repeatable_trial;
use crate::search::shrink_within;
use crate::search::Reduction;
use crate::search::SHRINK_BUDGET;
use crate::strategy::repeatable_source;
use crate::strategy::Strategy;
use crate::traits::Shrink;
use vstd::prelude::*;

verus! {

/// How many cases a campaign tries unless it is told otherwise.
pub const NUM_TESTS: usize = 100;

/// How a campaign ended.
#[derive(Debug)]
pub enum Verdict<T, P> {
    /// The budget was spent and every case passed. `trials` cases were
    /// tried.
    Passed { trials: usize },
    /// The source ran out before the budget was spent, and every case it
    /// gave passed. `trials` cases were tried. The source may have given
    /// too little to tell much.
    Exhausted { trials: usize },
    /// A case failed after `trial` cases had passed. `outcome` is what its
    /// trial came to; `reduction` holds the case and what the search for a
    /// simpler one found.
    Failed { trial: usize, outcome: TrialOutcome<P>, reduction: Reduction<T> },
}

/// Whether `count` pulls from `start` can hand out cases that all pass
/// `trial`, and leave the source at `end`.
pub open spec fn passes_through<I: Strategy, P, F: Fn(&I::Case) -> TrialOutcome<P>>(
    start: I::V,
    trial: F,
    count: nat,
    end: I::V,
) -> bool
    decreases count,
{
    if count == 0 {
        end == start
    } else {
        exists|mid: I::V, case: I::Case|
            {
                &&& passes_through::<I, P, F>(start, trial, (count - 1) as nat, mid)
                &&& #[trigger] I::pulls(mid, Some(case), end)
                &&& call_ensures(trial, (&case,), TrialOutcome::<P>::Pass)
            }
    }
}

/// Whether the source at `end` can hand out a case that `trial` fails with
/// `outcome`, and `reduction` is what the search for something simpler than
/// that case can find.
pub open spec fn fails_at<I: Strategy, P, F: Fn(&I::Case) -> TrialOutcome<P>>(
    end: I::V,
    trial: F,
    shrink_budget: usize,
    outcome: TrialOutcome<P>,
    reduction: Reduction<I::Case>,
) -> bool where I::Case: Shrink {
    &&& !(outcome is Pass)
    &&& exists|after: I::V| #[trigger] I::pulls(end, Some(reduction.original.case), after)
    &&& call_ensures(trial, (&reduction.original.case,), outcome)
    &&& reduced(reduction.original.case, trial, shrink_budget, reduction)
}

/// Whether a campaign from `start` can try `trials` cases and find that all
/// of them pass.
pub open spec fn all_pass<I: Strategy, P, F: Fn(&I::Case) -> TrialOutcome<P>>(
    start: I::V,
    trial: F,
    trials: usize,
) -> bool {
    exists|end: I::V| #[trigger] passes_through::<I, P, F>(start, trial, trials as nat, end)
}

/// Whether a campaign from `start` can try `trials` cases, find that all of
/// them pass, and then find that the source has run out.
pub open spec fn runs_out<I: Strategy, P, F: Fn(&I::Case) -> TrialOutcome<P>>(
    start: I::V,
    trial: F,
    trials: usize,
) -> bool {
    exists|end: I::V, after: I::V|
        {
            &&& passes_through::<I, P, F>(start, trial, trials as nat, end)
            &&& #[trigger] I::pulls(end, None, after)
        }
}

/// Whether a campaign from `start` can find that `index` cases pass and
/// that the next one fails with `outcome`, and `reduction` is what the
/// search for something simpler than that case can find.
pub open spec fn first_fails<I: Strategy, P, F: Fn(&I::Case) -> TrialOutcome<P>>(
    start: I::V,
    trial: F,
    shrink_budget: usize,
    index: usize,
    outcome: TrialOutcome<P>,
    reduction: Reduction<I::Case>,
) -> bool where I::Case: Shrink {
    exists|end: I::V|
        {
            &&& #[trigger] passes_through::<I, P, F>(start, trial, index as nat, end)
            &&& fails_at::<I, P, F>(end, trial, shrink_budget, outcome, reduction)
        }
}

/// Whether `verdict` is how a campaign can end that pulls its cases from
/// `start`, tries them with `trial`, may try `budget` cases, and may try
/// `shrink_budget` candidates in its search for a simpler case.
pub open spec fn campaign<I: Strategy, P, F: Fn(&I::Case) -> TrialOutcome<P>>(
    start: I::V,
    trial: F,
    budget: usize,
    shrink_budget: usize,
    verdict: Verdict<I::Case, P>,
) -> bool where I::Case: Shrink {
    match verdict {
        Verdict::Passed { trials } => trials == budget && all_pass::<I, P, F>(start, trial, trials),
        Verdict::Exhausted { trials } => trials < budget && runs_out::<I, P, F>(
            start,
            trial,
            trials,
        ),
        Verdict::Failed { trial: index, outcome, reduction } => index < budget && first_fails::<
            I,
            P,
            F,
        >(start, trial, shrink_budget, index, outcome, reduction),
    }
}

/// Runs a campaign of at most `budget` trials on the cases of `strat`. The
/// first case that fails `trial` is handed to a search of at most
/// `shrink_budget` steps for a simpler case that fails as well.
pub fn verify_within<I: Strategy, P, F: Fn(&I::Case) -> TrialOutcome<P>>(
    strat: I,
    trial: &F,
    budget: usize,
    shrink_budget: usize,
) -> (verdict: Verdict<I::Case, P>) where I::Case: Shrink
    requires
        forall|case: &I::Case| #[trigger] call_requires(trial, (case,)),
    ensures
        campaign::<I, P, F>(strat@, *trial, budget, shrink_budget, verdict),
        (verdict matches Verdict::Failed { outcome, reduction, .. } ==> {
            &&& !(outcome is Pass)
            &&& call_ensures(*trial, (&reduction.original.case,), outcome)
            &&& reduction.smallest matches Some(found) ==> fails(*trial, found.case)
            &&& descending_below(reduction.original.score, reduction.improvements@)
            &&& reduction.best_case().score <= reduction.original.score
            &&& reduction.steps <= shrink_budget
        }),
{
    let mut source = strat;
    let mut tried: usize = 0;
    while tried < budget
        invariant
            forall|case: &I::Case| #[trigger] call_requires(trial, (case,)),
            tried <= budget,
            passes_through::<I, P, F>(strat@, *trial, tried as nat, source@),
        decreases budget - tried,
    {
        let ghost before = source@;
        let case = match source.next() {
            Some(case) => case,
            None => {
                assert(runs_out::<I, P, F>(strat@, *trial, tried));
                return Verdict::Exhausted { trials: tried };
            },
        };
        let outcome = trial(&case);
        if !outcome.is_pass() {
            let reduction = shrink_within(case, trial, shrink_budget);
            proof {
                assert(I::pulls(before, Some(reduction.original.case), source@));
                assert(fails_at::<I, P, F>(before, *trial, shrink_budget, outcome, reduction));
                assert(first_fails::<I, P, F>(
                    strat@,
                    *trial,
                    shrink_budget,
                    tried,
                    outcome,
                    reduction,
                ));
            }
            let verdict = Verdict::Failed { trial: tried, outcome, reduction };
            return verdict;
        }
        tried = tried + 1;
    }
    assert(all_pass::<I, P, F>(strat@, *trial, tried));
    Verdict::Passed { trials: tried }
}

/// Runs a campaign of at most [`NUM_TESTS`] trials on the cases of `strat`,
/// with a search of at most [`SHRINK_BUDGET`] steps behind the first
/// failure.
pub fn verify<I: Strategy, P, F: Fn(&I::Case) -> TrialOutcome<P>>(strat: I, trial: &F) -> (verdict:
    Verdict<I::Case, P>) where I::Case: Shrink
    requires
        forall|case: &I::Case| #[trigger] call_requires(trial, (case,)),
    ensures
        campaign::<I, P, F>(strat@, *trial, NUM_TESTS, SHRINK_BUDGET, verdict),
        (verdict matches Verdict::Failed { outcome, reduction, .. } ==> {
            &&& !(outcome is Pass)
            &&& call_ensures(*trial, (&reduction.original.case,), outcome)
            &&& reduction.smallest matches Some(found) ==> fails(*trial, found.case)
            &&& descending_below(reduction.original.score, reduction.improvements@)
            &&& reduction.best_case().score <= reduction.original.score
            &&& reduction.steps <= SHRINK_BUDGET
        }),
{
    verify_within(strat, trial, NUM_TESTS, SHRINK_BUDGET)
}

/// How many cases passed before the campaign ended.
pub open spec fn passed_before<T, P>(verdict: Verdict<T, P>) -> usize {
    match verdict {
        Verdict::Passed { trials } => trials,
        Verdict::Exhausted { trials } => trials,
        Verdict::Failed { trial, .. } => trial,
    }
}

/// Whether two verdicts say the same: they end the same way after the same
/// number of trials, and where a case failed, with the same case, the same
/// outcome and the same findings of the search.
pub open spec fn same_verdict<T, P>(verdict: Verdict<T, P>, other: Verdict<T, P>) -> bool {
    match (verdict, other) {
        (Verdict::Passed { trials }, Verdict::Passed { trials: others }) => trials == others,
        (Verdict::Exhausted { trials }, Verdict::Exhausted { trials: others }) => trials == others,
        (
            Verdict::Failed { trial, outcome, reduction },
            Verdict::Failed { trial: index, outcome: result, reduction: found },
        ) => {
            &&& trial == index
            &&& outcome == result
            &&& reduction.original == found.original
            &&& reduction.smallest == found.smallest
            &&& reduction.improvements@ == found.improvements@
            &&& reduction.steps == found.steps
        },
        _ => false,
    }
}

/// With a repeatable source, two runs of passing trials of equal length
/// leave the source in one state.
pub proof fn lemma_passes_through_unique<I: Strategy, P, F: Fn(&I::Case) -> TrialOutcome<P>>(
    start: I::V,
    trial: F,
    count: nat,
    end: I::V,
    other: I::V,
)
    requires
        repeatable_source::<I>(),
        passes_through::<I, P, F>(start, trial, count, end),
        passes_through::<I, P, F>(start, trial, count, other),
    ensures
        end == other,
    decreases count,
{
    if count > 0 {
        let (mid, case) = choose|mid: I::V, case: I::Case|
            {
                &&& passes_through::<I, P, F>(start, trial, (count - 1) as nat, mid)
                &&& #[trigger] I::pulls(mid, Some(case), end)
                &&& call_ensures(trial, (&case,), TrialOutcome::<P>::Pass)
            };
        let (between, twin) = choose|mid: I::V, case: I::Case|
            {
                &&& passes_through::<I, P, F>(start, trial, (count - 1) as nat, mid)
                &&& #[trigger] I::pulls(mid, Some(case), other)
                &&& call_ensures(trial, (&case,), TrialOutcome::<P>::Pass)
            };
        lemma_passes_through_unique::<I, P, F>(start, trial, (count - 1) as nat, mid, between);
    }
}

/// A run of passing trials that goes beyond a count passes a state of the
/// source after that many trials, and that state hands out a case that
/// passes.
pub proof fn lemma_passes_through_passes<I: Strategy, P, F: Fn(&I::Case) -> TrialOutcome<P>>(
    start: I::V,
    trial: F,
    count: nat,
    end: I::V,
    fewer: nat,
) -> (passed: (I::V, I::Case, I::V))
    requires
        passes_through::<I, P, F>(start, trial, count, end),
        fewer < count,
    ensures
        passes_through::<I, P, F>(start, trial, fewer, passed.0),
        I::pulls(passed.0, Some(passed.1), passed.2),
        call_ensures(trial, (&passed.1,), TrialOutcome::<P>::Pass),
    decreases count,
{
    let (mid, case) = choose|mid: I::V, case: I::Case|
        {
            &&& passes_through::<I, P, F>(start, trial, (count - 1) as nat, mid)
            &&& #[trigger] I::pulls(mid, Some(case), end)
            &&& call_ensures(trial, (&case,), TrialOutcome::<P>::Pass)
        };
    if fewer == count - 1 {
        (mid, case, end)
    } else {
        lemma_passes_through_passes::<I, P, F>(start, trial, (count - 1) as nat, mid, fewer)
    }
}

/// With a repeatable source and a repeatable trial, a campaign that ended
/// after some trials did not go on past them.
proof fn lemma_campaign_stops<I: Strategy, P, F: Fn(&I::Case) -> TrialOutcome<P>>(
    start: I::V,
    trial: F,
    budget: usize,
    shrink_budget: usize,
    verdict: Verdict<I::Case, P>,
    count: nat,
    end: I::V,
) where I::Case: Shrink
    requires
        repeatable_source::<I>(),
        repeatable_trial::<I::Case, P, F>(trial),
        campaign::<I, P, F>(start, trial, budget, shrink_budget, verdict),
        passes_through::<I, P, F>(start, trial, count, end),
        count <= budget,
    ensures
        count <= passed_before(verdict),
{
    let stopped = passed_before(verdict);
    if stopped < count {
        let passed = lemma_passes_through_passes::<I, P, F>(
            start,
            trial,
            count,
            end,
            stopped as nat,
        );
        match verdict {
            Verdict::Passed { trials } => {},
            Verdict::Exhausted { trials } => {
                let (last, after) = choose|last: I::V, after: I::V|
                    {
                        &&& passes_through::<I, P, F>(start, trial, trials as nat, last)
                        &&& #[trigger] I::pulls(last, None, after)
                    };
                lemma_passes_through_unique::<I, P, F>(
                    start,
                    trial,
                    stopped as nat,
                    last,
                    passed.0,
                );
            },
            Verdict::Failed { trial: index, outcome, reduction } => {
                let last = choose|last: I::V|
                    {
                        &&& #[trigger] passes_through::<I, P, F>(start, trial, index as nat, last)
                        &&& fails_at::<I, P, F>(last, trial, shrink_budget, outcome, reduction)
                    };
                lemma_passes_through_unique::<I, P, F>(
                    start,
                    trial,
                    stopped as nat,
                    last,
                    passed.0,
                );
                let after = choose|after: I::V|
                    #[trigger] I::pulls(last, Some(reduction.original.case), after);
                assert(Some(reduction.original.case) == Some(passed.1));
            },
        }
    }
}

/// The state of the source after the passing trials of a campaign.
proof fn lemma_campaign_passes<I: Strategy, P, F: Fn(&I::Case) -> TrialOutcome<P>>(
    start: I::V,
    trial: F,
    budget: usize,
    shrink_budget: usize,
    verdict: Verdict<I::Case, P>,
) -> (end: I::V) where I::Case: Shrink
    requires
        campaign::<I, P, F>(start, trial, budget, shrink_budget, verdict),
    ensures
        passes_through::<I, P, F>(start, trial, passed_before(verdict) as nat, end),
        passed_before(verdict) <= budget,
        (verdict matches Verdict::Passed { trials } ==> trials == budget),
        (verdict matches Verdict::Exhausted { trials } ==> trials < budget && exists|after: I::V|
            #[trigger] I::pulls(end, None, after)),
        (verdict matches Verdict::Failed { trial: index, outcome, reduction } ==> index < budget
            && fails_at::<I, P, F>(end, trial, shrink_budget, outcome, reduction)),
{
    match verdict {
        Verdict::Passed { trials } => {
            choose|end: I::V| #[trigger] passes_through::<I, P, F>(start, trial, trials as nat, end)
        },
        Verdict::Exhausted { trials } => {
            let (end, after) = choose|end: I::V, after: I::V|
                {
                    &&& passes_through::<I, P, F>(start, trial, trials as nat, end)
                    &&& #[trigger] I::pulls(end, None, after)
                };
            end
        },
        Verdict::Failed { trial: index, outcome, reduction } => {
            choose|end: I::V|
                {
                    &&& #[trigger] passes_through::<I, P, F>(start, trial, index as nat, end)
                    &&& fails_at::<I, P, F>(end, trial, shrink_budget, outcome, reduction)
                }
        },
    }
}

/// With a repeatable source, a repeatable trial and repeatable cases a
/// campaign is repeatable: two campaigns on one source with one trial and
/// the same budgets try the same cases and end with the same verdict.
pub proof fn lemma_campaign_unique<I: Strategy, P, F: Fn(&I::Case) -> TrialOutcome<P>>(
    start: I::V,
    trial: F,
    budget: usize,
    shrink_budget: usize,
    verdict: Verdict<I::Case, P>,
    other: Verdict<I::Case, P>,
) where I::Case: Shrink
    requires
        repeatable_source::<I>(),
        repeatable_trial::<I::Case, P, F>(trial),
        repeatable_cases::<I::Case>(),
        campaign::<I, P, F>(start, trial, budget, shrink_budget, verdict),
        campaign::<I, P, F>(start, trial, budget, shrink_budget, other),
    ensures
        same_verdict(verdict, other),
{
    let end = lemma_campaign_passes::<I, P, F>(start, trial, budget, shrink_budget, verdict);
    let left = lemma_campaign_passes::<I, P, F>(start, trial, budget, shrink_budget, other);
    lemma_campaign_stops::<I, P, F>(
        start,
        trial,
        budget,
        shrink_budget,
        verdict,
        passed_before(other) as nat,
        left,
    );
    lemma_campaign_stops::<I, P, F>(
        start,
        trial,
        budget,
        shrink_budget,
        other,
        passed_before(verdict) as nat,
        end,
    );
    lemma_passes_through_unique::<I, P, F>(
        start,
        trial,
        passed_before(verdict) as nat,
        end,
        left,
    );
    match (verdict, other) {
        (
            Verdict::Failed { trial: index, outcome, reduction },
            Verdict::Failed { trial: place, outcome: result, reduction: found },
        ) => {
            let after = choose|after: I::V|
                #[trigger] I::pulls(end, Some(reduction.original.case), after);
            let beyond = choose|after: I::V|
                #[trigger] I::pulls(end, Some(found.original.case), after);
            assert(Some(reduction.original.case) == Some(found.original.case));
            lemma_reduced_unique(reduction.original.case, trial, shrink_budget, reduction, found);
        },
        (Verdict::Exhausted { .. }, Verdict::Failed { outcome, reduction, .. }) => {
            let after = choose|after: I::V| #[trigger] I::pulls(end, None, after);
            let beyond = choose|after: I::V|
                #[trigger] I::pulls(end, Some(reduction.original.case), after);
        },
        (Verdict::Failed { outcome, reduction, .. }, Verdict::Exhausted { .. }) => {
            let after = choose|after: I::V| #[trigger] I::pulls(end, None, after);
            let beyond = choose|after: I::V|
                #[trigger] I::pulls(end, Some(reduction.original.case), after);
        },
        _ => {},
    }
}

} // verus!
