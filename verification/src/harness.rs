//! The harness: it tries a predicate on one case and says what the trial
//! came to.

use crate::traits::render_pretty;
use crate::traits::Case;
use crate::traits::TestResult;
use vstd::prelude::*;

verus! {

/// The result of one trial. `P` is whatever a predicate leaves behind when
/// it aborts; it is carried along untouched.
#[derive(Debug, PartialEq, Eq)]
pub enum TrialOutcome<P> {
    /// The predicate returned a value that stands for success.
    Pass,
    /// The predicate returned a value that stands for failure; this is the
    /// value's rendering.
    Fail(String),
    /// The predicate aborted and left this behind.
    Fault(P),
}

impl<P> TrialOutcome<P> {
    /// Whether the trial passed.
    pub fn is_pass(&self) -> (pass: bool)
        ensures
            pass == (self is Pass),
    {
        match self {
            TrialOutcome::Pass => true,
            _ => false,
        }
    }
}

/// Classifies what became of a predicate's run: `Ok` holds what it returned,
/// `Err` what it left behind when it aborted. A returned value is a pass if
/// it says that it stands for success, and a failure if it does not; what
/// was left behind is a fault and is handed on as it is.
pub fn classify<R: TestResult, P>(returned: Result<R, P>) -> (outcome: TrialOutcome<P>)
    ensures
        (match returned {
            Ok(value) => {
                &&& outcome is Pass || outcome is Fail
                &&& call_ensures(R::is_ok, (&value,), outcome is Pass)
            },
            Err(payload) => outcome == TrialOutcome::Fault(payload),
        }),
{
    match returned {
        Ok(value) => {
            if value.is_ok() {
                TrialOutcome::Pass
            } else {
                TrialOutcome::Fail(render_pretty(&value))
            }
        },
        Err(payload) => TrialOutcome::Fault(payload),
    }
}

/// Whether `outcome` is what a trial of `run` on a copy of `case` can come
/// to when `run` returns: a pass if what it returned says that it stands
/// for success, and a failure if not.
pub open spec fn tried<T: Case, R: TestResult, F: Fn(T) -> R>(
    case: T,
    run: F,
    outcome: TrialOutcome<()>,
) -> bool {
    &&& outcome is Pass || outcome is Fail
    &&& exists|copy: T, returned: R|
        {
            &&& cloned(case, copy)
            &&& #[trigger] call_ensures(run, (copy,), returned)
            &&& call_ensures(R::is_ok, (&returned,), outcome is Pass)
        }
}

/// Tries `run` on a copy of `case` and classifies what it returns. Nothing
/// stands between `run` and the caller: a predicate that aborts takes the
/// caller with it. A caller that can catch it hands what it caught to
/// [`classify`].
pub fn run_case<T: Case, R: TestResult, F: Fn(T) -> R>(case: &T, run: &F) -> (outcome: TrialOutcome<
    (),
>)
    requires
        forall|copy: T| #[trigger] call_requires(run, (copy,)),
    ensures
        tried(*case, *run, outcome),
{
    let returned = run(case.clone());
    classify(Ok(returned))
}

} // verus!
