//! How numbers and lists shrink.

use crate::rng::draw_coin;
use crate::rng::draw_usize;
use crate::rng::draw_usize_bounded;
use crate::rng::Rng;
use crate::search::repeatable_cases;
use crate::traits::Shrink;
use vstd::prelude::*;

verus! {

/// What `value` shrinks to with a source in `state`: nothing if it is 0;
/// else, by the toss of a coin, a draw below it or the number just below it.
pub open spec fn shrink_usize(value: usize, state: u64) -> Option<usize> {
    if value == 0 {
        None
    } else {
        let (heads, tossed) = draw_coin(state);
        if heads {
            Some(draw_usize_bounded(tossed, (value - 1) as usize).0)
        } else {
            Some((value - 1) as usize)
        }
    }
}

/// A number shrinks to a smaller number, and is as complex as it is great.
impl Shrink for usize {
    fn shrink(self, rng: Rng) -> (smaller: Option<usize>)
        ensures
            smaller == shrink_usize(self, rng@),
            smaller matches Some(value) ==> value < self,
    {
        if self == 0 {
            return None;
        }
        let mut rng = rng;
        if rng.next_bool() {
            Some(rng.next_usize_max(self - 1))
        } else {
            Some(self - 1)
        }
    }

    fn score(&self) -> (score: usize)
        ensures
            score == *self,
    {
        *self
    }
}

/// Numbers fix what they shrink to and how they score, and copy themselves
/// exactly.
pub proof fn lemma_numbers_repeatable()
    ensures
        repeatable_cases::<usize>(),
{
}

/// Whether `shrunk` is `list` after a copy of its element at `index` was
/// asked to shrink with a source seeded `seed`: the element is replaced by
/// what it shrank to, and `list` is left as it is where it did not shrink.
pub open spec fn shrinks_element<T: Shrink>(
    list: Seq<T>,
    index: int,
    seed: u64,
    shrunk: Seq<T>,
) -> bool {
    exists|copy: T, element: Option<T>|
        {
            &&& cloned(list[index], copy)
            &&& #[trigger] call_ensures(T::shrink, (copy, Rng::seeded(seed)), element)
            &&& shrunk == match element {
                Some(smaller) => list.update(index, smaller),
                None => list,
            }
        }
}

/// Whether `smaller` is what `list` can shrink to with a source in `state`:
/// nothing if it is empty; else an index is drawn and, by the toss of a
/// coin, the element there is removed or shrinks itself, with a source
/// seeded by a further draw.
pub open spec fn shrinks_list<T: Shrink>(list: Seq<T>, state: u64, smaller: Option<Vec<T>>) -> bool {
    if list.len() == 0 {
        smaller is None
    } else {
        let (index, picked) = draw_usize_bounded(state, (list.len() - 1) as usize);
        let (heads, tossed) = draw_coin(picked);
        &&& smaller matches Some(shrunk)
        &&& if heads {
            shrunk@ == list.remove(index as int)
        } else {
            shrinks_element(list, index as int, draw_usize(tossed).0 as u64, shrunk@)
        }
    }
}

/// A list of numbers and the state of a source fix what the list shrinks
/// to, element for element.
pub proof fn lemma_number_list_shrinks_alike(
    list: Seq<usize>,
    state: u64,
    smaller: Option<Vec<usize>>,
    other: Option<Vec<usize>>,
)
    requires
        shrinks_list(list, state, smaller),
        shrinks_list(list, state, other),
    ensures
        smaller is None <==> other is None,
        smaller matches Some(shrunk) ==> other matches Some(twin) && shrunk@ == twin@,
{
    if list.len() > 0 {
        let (index, picked) = draw_usize_bounded(state, (list.len() - 1) as usize);
        let (heads, tossed) = draw_coin(picked);
        if !heads {
            let seed = draw_usize(tossed).0 as u64;
            Rng::seeded(seed).lemma_view();
            assert(shrinks_element(list, index as int, seed, smaller->Some_0@));
            assert(shrinks_element(list, index as int, seed, other->Some_0@));
        }
    }
}

/// A list shrinks by losing an element or by shrinking one.
impl<T: Shrink> Shrink for Vec<T> {
    fn shrink(self, rng: Rng) -> (smaller: Option<Vec<T>>)
        ensures
            shrinks_list(self@, rng@, smaller),
            smaller is None <==> self@.len() == 0,
            smaller matches Some(shrunk) ==> shrunk@.len() == self@.len() || shrunk@.len() + 1
                == self@.len(),
    {
        let mut list = self;
        let mut rng = rng;
        if list.len() == 0 {
            return None;
        }
        let index = rng.next_usize_max(list.len() - 1);
        if rng.next_bool() {
            list.remove(index);
        } else {
            let seed = rng.next_usize() as u64;
            let copy = list[index].clone();
            let element = copy.shrink(Rng::new_with_seed(seed));
            if let Some(smaller) = element {
                list[index] = smaller;
            }
            assert(shrinks_element(self@, index as int, seed, list@));
        }
        Some(list)
    }
}

} // verus!
