//! Generators: endless sources of cases, built from a state and a step that
//! yields the next case and moves the state on.

use crate::rng::draw_usize;
use crate::rng::Rng;
use crate::rng::RNG_SEED;
use crate::traits::Case;
use std::marker::PhantomData;
use vstd::prelude::*;

verus! {

/// A state that can yield a case and move on.
pub trait Step<T>: View + Sized {
    /// Whether a step from `pre` can yield `case` and leave `post`.
    spec fn steps(pre: Self::V, case: T, post: Self::V) -> bool;

    /// Yields the next case and moves on.
    fn step(&mut self) -> (case: T)
        ensures
            Self::steps(old(self)@, case, final(self)@),
    ;
}

/// An endless source of cases: a state of type `S` whose steps yield cases
/// of type `T`.
pub struct Gen<S, T> {
    item: S,
    case: PhantomData<T>,
}

impl<S: View, T> View for Gen<S, T> {
    type V = S::V;

    closed spec fn view(&self) -> S::V {
        self.item@
    }
}

impl<S: Step<T>, T> Gen<S, T> {
    /// Yields the next case.
    pub fn next_case(&mut self) -> (case: T)
        ensures
            S::steps(old(self)@, case, final(self)@),
    {
        self.item.step()
    }
}

/// A counter: it yields its value and goes on to the next one, from the
/// greatest back to 0.
impl Step<usize> for usize {
    open spec fn steps(pre: usize, case: usize, post: usize) -> bool {
        &&& case == pre
        &&& post == if pre == usize::MAX {
            0
        } else {
            pre + 1
        }
    }

    fn step(&mut self) -> (case: usize) {
        let case = *self;
        *self = if case == usize::MAX {
            0
        } else {
            case + 1
        };
        case
    }
}

/// A random source: it yields what it draws.
impl Step<usize> for Rng {
    open spec fn steps(pre: u64, case: usize, post: u64) -> bool {
        (case, post) == draw_usize(pre)
    }

    fn step(&mut self) -> (case: usize) {
        self.next_usize()
    }
}

/// The values that [`smart_usize`] yields before anything else: small ones
/// and the greatest one, where mistakes tend to sit.
pub open spec fn priming() -> Seq<usize> {
    seq![0, 1, 0, 2, usize::MAX, 3, 4, 5, 6, 7]
}

/// A count of the priming values already yielded, and the generator that
/// takes over after the last of them.
impl<S: Step<usize>> Step<usize> for (usize, Gen<S, usize>) {
    open spec fn steps(pre: (usize, S::V), case: usize, post: (usize, S::V)) -> bool {
        if pre.0 < priming().len() {
            &&& case == priming()[pre.0 as int]
            &&& post == (((pre.0 + 1) as usize), pre.1)
        } else {
            &&& post.0 == pre.0
            &&& S::steps(pre.1, case, post.1)
        }
    }

    fn step(&mut self) -> (case: usize) {
        let cases: [usize; 10] = [0, 1, 0, 2, usize::MAX, 3, 4, 5, 6, 7];
        if self.0 < 10 {
            let case = cases[self.0];
            self.0 = self.0 + 1;
            case
        } else {
            self.1.next_case()
        }
    }
}

/// Whether `case` is a copy of `list`, element by element.
pub open spec fn snapshot<T: Clone>(list: Seq<T>, case: Vec<T>) -> bool {
    &&& case@.len() == list.len()
    &&& forall|i: int| 0 <= i < list.len() ==> cloned(list[i], #[trigger] case@[i])
}

/// A list that grows, and the generator of the elements it grows by: a step
/// takes one element from the generator, appends it to the list and yields
/// a copy of the list.
impl<S: Step<T>, T: Case> Step<Vec<T>> for (Vec<T>, Gen<S, T>) {
    open spec fn steps(pre: (Seq<T>, S::V), case: Vec<T>, post: (Seq<T>, S::V)) -> bool {
        &&& post.0.len() == pre.0.len() + 1
        &&& post.0.drop_last() == pre.0
        &&& S::steps(pre.1, post.0.last(), post.1)
        &&& snapshot(post.0, case)
    }

    fn step(&mut self) -> (case: Vec<T>) {
        let fresh = self.1.next_case();
        self.0.push(fresh);
        assert(self.0@.drop_last() =~= old(self).0@);
        self.0.clone()
    }
}

/// The generator that counts: 0, 1, 2 and so on.
pub fn increasing_usize() -> (generator: Gen<usize, usize>)
    ensures
        generator@ == 0,
{
    Gen { item: 0, case: PhantomData }
}

/// The generator that yields what a random source seeded [`RNG_SEED`] draws.
pub fn random_usize() -> (generator: Gen<Rng, usize>)
    ensures
        generator@ == RNG_SEED,
{
    Gen { item: Rng::new(), case: PhantomData }
}

/// The generator that yields the values of [`priming`] and then whatever
/// `and_then` yields.
pub fn smart_usize<S: Step<usize>>(and_then: Gen<S, usize>) -> (generator: Gen<
    (usize, Gen<S, usize>),
    usize,
>)
    ensures
        generator@ == (0usize, and_then@),
{
    Gen { item: (0, and_then), case: PhantomData }
}

/// The generator of lists that grow: each case is the case before it with
/// one more element at its end, taken from `gen`.
pub fn growing_list<S: Step<T>, T: Case>(gen: Gen<S, T>) -> (generator: Gen<
    (Vec<T>, Gen<S, T>),
    Vec<T>,
>)
    ensures
        generator@ == (Seq::<T>::empty(), gen@),
{
    Gen { item: (Vec::new(), gen), case: PhantomData }
}

/// Whether `cases.len()` steps from `start` can yield `cases`, one after
/// the other, and leave `end`.
pub open spec fn yields<S: Step<T>, T>(start: S::V, cases: Seq<T>, end: S::V) -> bool
    decreases cases.len(),
{
    if cases.len() == 0 {
        end == start
    } else {
        exists|mid: S::V|
            yields::<S, T>(start, cases.drop_last(), mid) && #[trigger] S::steps(
                mid,
                cases.last(),
                end,
            )
    }
}

/// Whether a state of type `S` fixes what its step yields and leaves.
pub open spec fn repeatable<S: Step<T>, T>() -> bool {
    forall|pre: S::V, case: T, post: S::V, other: T, left: S::V|
        #[trigger] S::steps(pre, case, post) && #[trigger] S::steps(pre, other, left) ==> case
            == other && post == left
}

/// Two runs of equal length from one state of a repeatable generator yield
/// the same cases and leave the same state.
pub proof fn lemma_yields_repeatable<S: Step<T>, T>(
    start: S::V,
    cases: Seq<T>,
    end: S::V,
    others: Seq<T>,
    left: S::V,
)
    requires
        repeatable::<S, T>(),
        yields::<S, T>(start, cases, end),
        yields::<S, T>(start, others, left),
        cases.len() == others.len(),
    ensures
        cases == others,
        end == left,
    decreases cases.len(),
{
    if cases.len() > 0 {
        let mid = choose|mid: S::V|
            yields::<S, T>(start, cases.drop_last(), mid) && #[trigger] S::steps(
                mid,
                cases.last(),
                end,
            );
        let between = choose|between: S::V|
            yields::<S, T>(start, others.drop_last(), between) && #[trigger] S::steps(
                between,
                others.last(),
                left,
            );
        lemma_yields_repeatable::<S, T>(start, cases.drop_last(), mid, others.drop_last(), between);
        assert(cases =~= cases.drop_last().push(cases.last()));
        assert(others =~= others.drop_last().push(others.last()));
    } else {
        assert(cases =~= others);
    }
}

/// Counting is repeatable, and so is drawing from a random source.
pub proof fn lemma_primitives_repeatable()
    ensures
        repeatable::<usize, usize>(),
        repeatable::<Rng, usize>(),
{
}

/// The generator of [`smart_usize`] is repeatable where the generator that
/// it wraps is.
pub proof fn lemma_smart_repeatable<S: Step<usize>>()
    requires
        repeatable::<S, usize>(),
    ensures
        repeatable::<(usize, Gen<S, usize>), usize>(),
{
    assert forall|
        pre: (usize, S::V),
        case: usize,
        post: (usize, S::V),
        other: usize,
        left: (usize, S::V),
    |
        #[trigger] <(usize, Gen<S, usize>) as Step<usize>>::steps(pre, case, post)
            && #[trigger] <(usize, Gen<S, usize>) as Step<usize>>::steps(
            pre,
            other,
            left,
        ) implies case == other && post == left by {
        if pre.0 >= priming().len() {
            assert(S::steps(pre.1, case, post.1) && S::steps(pre.1, other, left.1));
        }
    }
}

/// The counting generator yields 0, 1, 2 and so on: its case number `k`,
/// counted from 0, is `k`, as long as `k` fits the type.
pub proof fn lemma_counting(cases: Seq<usize>, end: usize)
    requires
        yields::<usize, usize>(0, cases, end),
        cases.len() <= usize::MAX,
    ensures
        end == cases.len(),
        forall|k: int| 0 <= k < cases.len() ==> cases[k] == k,
    decreases cases.len(),
{
    if cases.len() > 0 {
        let mid = choose|mid: usize|
            yields::<usize, usize>(0, cases.drop_last(), mid) && #[trigger] <usize as Step<
                usize,
            >>::steps(mid, cases.last(), end);
        lemma_counting(cases.drop_last(), mid);
        assert forall|k: int| 0 <= k < cases.len() implies cases[k] == k by {
            if k < cases.len() - 1 {
                assert(cases[k] == cases.drop_last()[k]);
            }
        }
    }
}

/// The first cases of [`smart_usize`] are the values of [`priming`],
/// whatever it wraps, and none of them touches the wrapped generator.
pub proof fn lemma_priming_first<S: Step<usize>>(
    inner: S::V,
    cases: Seq<usize>,
    end: (usize, S::V),
)
    requires
        yields::<(usize, Gen<S, usize>), usize>((0usize, inner), cases, end),
        cases.len() <= priming().len(),
    ensures
        cases == priming().take(cases.len() as int),
        end == (cases.len() as usize, inner),
    decreases cases.len(),
{
    if cases.len() > 0 {
        let mid = choose|mid: (usize, S::V)|
            yields::<(usize, Gen<S, usize>), usize>((0usize, inner), cases.drop_last(), mid)
                && #[trigger] <(usize, Gen<S, usize>) as Step<usize>>::steps(
                mid,
                cases.last(),
                end,
            );
        lemma_priming_first::<S>(inner, cases.drop_last(), mid);
        assert(cases =~= cases.drop_last().push(cases.last()));
        assert(cases =~= priming().take(cases.len() as int));
    } else {
        assert(cases =~= priming().take(0));
    }
}

/// After the values of [`priming`], the cases of [`smart_usize`] are the
/// cases of the generator it wraps, from that generator's first one on.
pub proof fn lemma_priming_then_inner<S: Step<usize>>(
    inner: S::V,
    cases: Seq<usize>,
    end: (usize, S::V),
)
    requires
        yields::<(usize, Gen<S, usize>), usize>((priming().len() as usize, inner), cases, end),
    ensures
        end.0 == priming().len(),
        yields::<S, usize>(inner, cases, end.1),
    decreases cases.len(),
{
    if cases.len() > 0 {
        let mid = choose|mid: (usize, S::V)|
            yields::<(usize, Gen<S, usize>), usize>(
                (priming().len() as usize, inner),
                cases.drop_last(),
                mid,
            ) && #[trigger] <(usize, Gen<S, usize>) as Step<usize>>::steps(mid, cases.last(), end);
        lemma_priming_then_inner::<S>(inner, cases.drop_last(), mid);
        assert(S::steps(mid.1, cases.last(), end.1));
    }
}

/// The lists of [`growing_list`] grow by one element per case: after `n`
/// cases the list holds `n` elements, and case number `k`, counted from 0,
/// is a copy of its first `k + 1` elements. So every case has one element
/// more than the case before it and repeats that case in front of it.
pub proof fn lemma_growing_list<S: Step<T>, T: Case>(
    inner: S::V,
    cases: Seq<Vec<T>>,
    end: (Seq<T>, S::V),
)
    requires
        yields::<(Vec<T>, Gen<S, T>), Vec<T>>((Seq::<T>::empty(), inner), cases, end),
    ensures
        end.0.len() == cases.len(),
        forall|k: int| 0 <= k < cases.len() ==> (#[trigger] cases[k])@.len() == k + 1,
        forall|k: int| 0 <= k < cases.len() ==> snapshot(end.0.take(k + 1), #[trigger] cases[k]),
    decreases cases.len(),
{
    if cases.len() > 0 {
        let mid = choose|mid: (Seq<T>, S::V)|
            yields::<(Vec<T>, Gen<S, T>), Vec<T>>(
                (Seq::<T>::empty(), inner),
                cases.drop_last(),
                mid,
            ) && #[trigger] <(Vec<T>, Gen<S, T>) as Step<Vec<T>>>::steps(mid, cases.last(), end);
        lemma_growing_list::<S, T>(inner, cases.drop_last(), mid);
        assert forall|k: int| 0 <= k < cases.len() implies (#[trigger] cases[k])@.len() == k + 1
            && snapshot(end.0.take(k + 1), cases[k]) by {
            if k < cases.len() - 1 {
                assert(cases[k] == cases.drop_last()[k]);
                assert(end.0.take(k + 1) =~= mid.0.take(k + 1));
            } else {
                assert(end.0.take(k + 1) =~= end.0);
            }
        }
    }
}

/// Where copies are exact, every case of [`growing_list`] is the case
/// before it with one element appended.
pub proof fn lemma_growing_list_extends<S: Step<T>, T: Case>(
    inner: S::V,
    cases: Seq<Vec<T>>,
    end: (Seq<T>, S::V),
    k: int,
)
    requires
        yields::<(Vec<T>, Gen<S, T>), Vec<T>>((Seq::<T>::empty(), inner), cases, end),
        forall|original: T, copy: T| cloned(original, copy) ==> copy == original,
        0 < k < cases.len(),
    ensures
        cases[k]@.len() == cases[k - 1]@.len() + 1,
        cases[k]@.drop_last() == cases[k - 1]@,
        cases[k]@.last() == end.0[k],
{
    lemma_growing_list::<S, T>(inner, cases, end);
    assert(snapshot(end.0.take(k + 1), cases[k]));
    assert(snapshot(end.0.take(k), cases[k - 1]));
    assert forall|i: int| 0 <= i < k implies cases[k]@.drop_last()[i] == cases[k - 1]@[i] by {
        assert(cloned(end.0.take(k + 1)[i], cases[k]@[i]));
        assert(cloned(end.0.take(k)[i], cases[k - 1]@[i]));
    }
    assert(cases[k]@.drop_last() =~= cases[k - 1]@);
    assert(cloned(end.0.take(k + 1)[k], cases[k]@[k]));
}

} // verus!
