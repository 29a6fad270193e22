//! Sources of cases for a campaign: anything that hands out one case after
//! another and may run out.

use crate::gen::repeatable;
use crate::gen::Gen;
use crate::gen::Step;
use vstd::prelude::*;

verus! {

/// A source of cases. A pull hands out the next case, or `None` once the
/// source has run out.
pub trait Strategy: View + Sized {
    /// What the source hands out.
    type Case;

    /// Whether a pull from `pre` can hand out `case` and leave `post`.
    spec fn pulls(pre: Self::V, case: Option<Self::Case>, post: Self::V) -> bool;

    /// Hands out the next case, or `None` once the source has run out.
    fn next(&mut self) -> (case: Option<Self::Case>)
        ensures
            Self::pulls(old(self)@, case, final(self)@),
    ;
}

/// A generator never runs out: a pull is a step.
impl<S: Step<T>, T> Strategy for Gen<S, T> {
    type Case = T;

    open spec fn pulls(pre: S::V, case: Option<T>, post: S::V) -> bool {
        case matches Some(yielded) && S::steps(pre, yielded, post)
    }

    fn next(&mut self) -> (case: Option<T>) {
        Some(self.next_case())
    }
}

/// A source that hands out the cases of a list, the first one first, and
/// then has run out.
pub struct Listed<T> {
    rest: Vec<T>,
}

impl<T> View for Listed<T> {
    type V = Seq<T>;

    closed spec fn view(&self) -> Seq<T> {
        self.rest@
    }
}

impl<T> Strategy for Listed<T> {
    type Case = T;

    open spec fn pulls(pre: Seq<T>, case: Option<T>, post: Seq<T>) -> bool {
        if pre.len() == 0 {
            case is None && post == pre
        } else {
            case == Some(pre[0]) && post == pre.drop_first()
        }
    }

    fn next(&mut self) -> (case: Option<T>) {
        if self.rest.len() == 0 {
            None
        } else {
            let first = self.rest.remove(0);
            assert(self.rest@ =~= old(self).rest@.drop_first());
            Some(first)
        }
    }
}

/// The source that hands out `cases` in order.
pub fn listed<T>(cases: Vec<T>) -> (source: Listed<T>)
    ensures
        source@ == cases@,
{
    Listed { rest: cases }
}

/// Whether a source of type `I` fixes what a pull hands out and leaves.
pub open spec fn repeatable_source<I: Strategy>() -> bool {
    forall|pre: I::V, case: Option<I::Case>, post: I::V, other: Option<I::Case>, left: I::V|
        #[trigger] I::pulls(pre, case, post) && #[trigger] I::pulls(pre, other, left) ==> case
            == other && post == left
}

/// A generator is a repeatable source where its steps are repeatable.
pub proof fn lemma_generator_repeatable<S: Step<T>, T>()
    requires
        repeatable::<S, T>(),
    ensures
        repeatable_source::<Gen<S, T>>(),
{
    assert forall|pre: S::V, case: Option<T>, post: S::V, other: Option<T>, left: S::V|
        #[trigger] Gen::<S, T>::pulls(pre, case, post) && #[trigger] Gen::<S, T>::pulls(
            pre,
            other,
            left,
        ) implies case == other && post == left by {
        assert(S::steps(pre, case->Some_0, post) && S::steps(pre, other->Some_0, left));
    }
}

/// A listed source is repeatable.
pub proof fn lemma_listed_repeatable<T>()
    ensures
        repeatable_source::<Listed<T>>(),
{
}

} // verus!
