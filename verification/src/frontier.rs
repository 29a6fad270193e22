//! Cases paired with their scores, and the queue that hands out the simplest
//! of them first.

use crate::traits::Shrink;
use vstd::prelude::*;

verus! {

/// A case together with the score that it was given when it was found.
#[derive(Debug, PartialEq, Eq)]
pub struct Scored<T> {
    /// The case.
    pub case: T,
    /// Its score; less is simpler.
    pub score: usize,
}

impl<T: Shrink> Scored<T> {
    /// Pairs `case` with the score it gives itself.
    pub fn of(case: T) -> (scored: Scored<T>)
        ensures
            scored.case == case,
            call_ensures(T::score, (&case,), scored.score),
    {
        let score = case.score();
        Scored { case, score }
    }
}

/// Whether no candidate in `queue` stands before one that scores less.
pub open spec fn ordered<T>(queue: Seq<Scored<T>>) -> bool {
    forall|i: int, j: int| 0 <= i <= j < queue.len() ==> queue[i].score <= queue[j].score
}

/// How many candidates at the front of `queue` score no more than `score`:
/// the place of a new candidate with that score.
pub open spec fn place<T>(queue: Seq<Scored<T>>, score: usize) -> int
    decreases queue.len(),
{
    if queue.len() == 0 || queue[0].score > score {
        0
    } else {
        1 + place(queue.drop_first(), score)
    }
}

/// `queue` with `found` behind every candidate that scores no more than it,
/// and before all the others.
pub open spec fn enqueue<T>(queue: Seq<Scored<T>>, found: Scored<T>) -> Seq<Scored<T>> {
    queue.insert(place(queue, found.score), found)
}

/// `queue` with `found`, if there is one.
pub open spec fn enqueue_some<T>(queue: Seq<Scored<T>>, found: Option<Scored<T>>) -> Seq<
    Scored<T>,
> {
    match found {
        Some(candidate) => enqueue(queue, candidate),
        None => queue,
    }
}

/// The place of a new candidate: all before it score no more than it, all
/// from there on score more.
pub proof fn lemma_place<T>(queue: Seq<Scored<T>>, score: usize)
    requires
        ordered(queue),
    ensures
        0 <= place(queue, score) <= queue.len(),
        forall|i: int| 0 <= i < place(queue, score) ==> queue[i].score <= score,
        forall|i: int| place(queue, score) <= i < queue.len() ==> queue[i].score > score,
    decreases queue.len(),
{
    if queue.len() == 0 || queue[0].score > score {
    } else {
        let rest = queue.drop_first();
        assert forall|i: int, j: int| 0 <= i <= j < rest.len() implies rest[i].score
            <= rest[j].score by {
            assert(rest[i] == queue[i + 1] && rest[j] == queue[j + 1]);
        }
        lemma_place(rest, score);
        assert forall|i: int| 0 <= i < place(queue, score) implies queue[i].score <= score by {
            if i > 0 {
                assert(queue[i] == rest[i - 1]);
            }
        }
        assert forall|i: int| place(queue, score) <= i < queue.len() implies queue[i].score
            > score by {
            assert(queue[i] == rest[i - 1]);
        }
    }
}

/// A queue stays in order when a candidate joins it, and the candidates that
/// were there keep their order: an earlier find is never overtaken by a
/// later one that scores the same.
pub proof fn lemma_enqueue<T>(queue: Seq<Scored<T>>, found: Scored<T>)
    requires
        ordered(queue),
    ensures
        ordered(enqueue(queue, found)),
        enqueue(queue, found).len() == queue.len() + 1,
        enqueue(queue, found)[place(queue, found.score)] == found,
        forall|i: int|
            0 <= i < place(queue, found.score) ==> enqueue(queue, found)[i] == queue[i]
                && queue[i].score <= found.score,
        forall|i: int|
            place(queue, found.score) <= i < queue.len() ==> enqueue(queue, found)[i + 1]
                == queue[i] && queue[i].score > found.score,
{
    lemma_place(queue, found.score);
}

/// The candidates that wait to be tried, the simplest first; among equals
/// the one that was found first.
pub struct Frontier<T> {
    items: Vec<Scored<T>>,
}

impl<T> View for Frontier<T> {
    type V = Seq<Scored<T>>;

    closed spec fn view(&self) -> Seq<Scored<T>> {
        self.items@
    }
}

impl<T> Frontier<T> {
    #[verifier::type_invariant]
    spec fn in_order(&self) -> bool {
        ordered(self.items@)
    }

    /// A frontier with nothing in it.
    pub fn new() -> (frontier: Frontier<T>)
        ensures
            frontier@ == Seq::<Scored<T>>::empty(),
    {
        Frontier { items: Vec::new() }
    }

    /// How many candidates wait.
    pub fn len(&self) -> (len: usize)
        ensures
            len == self@.len(),
    {
        self.items.len()
    }

    /// Whether no candidate waits.
    pub fn is_empty(&self) -> (empty: bool)
        ensures
            empty == (self@.len() == 0),
    {
        self.items.len() == 0
    }

    /// Adds `found` behind every candidate that scores no more than it.
    pub fn push(&mut self, found: Scored<T>)
        ensures
            ordered(old(self)@),
            ordered(final(self)@),
            final(self)@ == enqueue(old(self)@, found),
    {
        proof {
            use_type_invariant(&*self);
            lemma_place(self.items@, found.score);
            lemma_enqueue(self.items@, found);
        }
        // The vector leaves the frontier while it is changed.
        let mut items: Vec<Scored<T>> = Vec::new();
        std::mem::swap(&mut self.items, &mut items);
        let mut at: usize = 0;
        assert(items@.skip(0) =~= items@);
        while at < items.len() && items[at].score <= found.score
            invariant
                at <= items.len(),
                at + place(items@.skip(at as int), found.score) == place(items@, found.score),
            decreases items.len() - at,
        {
            assert(items@.skip(at as int).drop_first() =~= items@.skip(at + 1));
            at = at + 1;
        }
        items.insert(at, found);
        std::mem::swap(&mut self.items, &mut items);
    }

    /// Takes out the candidate at the front: one that scores least, and among
    /// those the one that was found first.
    pub fn pop(&mut self) -> (first: Option<Scored<T>>)
        ensures
            ordered(old(self)@),
            ordered(final(self)@),
            old(self)@.len() == 0 ==> first is None && final(self)@ == old(self)@,
            old(self)@.len() > 0 ==> first == Some(old(self)@[0]) && final(self)@ == old(
                self,
            )@.drop_first(),
    {
        proof {
            use_type_invariant(&*self);
        }
        if self.items.len() == 0 {
            None
        } else {
            let mut items: Vec<Scored<T>> = Vec::new();
            std::mem::swap(&mut self.items, &mut items);
            let first = items.remove(0);
            assert(items@ =~= old(self).items@.drop_first());
            std::mem::swap(&mut self.items, &mut items);
            Some(first)
        }
    }
}

} // verus!
