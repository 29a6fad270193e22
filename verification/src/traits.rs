//! What a type has to offer to serve as a test case or as a predicate's
//! result.

use crate::rng::Rng;
use std::fmt::Debug;
use vstd::prelude::*;
use vstd::utf8::encode_utf8;

verus! {

/// `std::fmt::Debug` through `format!("{:?}", ..)`: the one-line rendering of
/// `value`. How a type renders itself is its own affair, so nothing is
/// claimed of the text.
#[verifier::external_body]
pub(crate) fn render<T: Debug>(value: &T) -> (text: String) {
    format!("{:?}", value)
}

/// `std::fmt::Debug` through `format!("{:#?}", ..)`: the rendering of `value`
/// spread over lines. Nothing is claimed of the text.
#[verifier::external_body]
pub(crate) fn render_pretty<T: Debug>(value: &T) -> (text: String) {
    format!("{:#?}", value)
}

/// Whether `text` is a one-line rendering of `value`: a text that
/// `format!("{:?}", value)` can give.
pub closed spec fn renders<T: Debug>(value: T, text: Seq<char>) -> bool {
    exists|out: String| #[trigger] call_ensures(render::<T>, (&value,), out) && out@ == text
}

/// How many bytes `text` takes up.
pub open spec fn byte_len(text: Seq<char>) -> usize {
    encode_utf8(text).len() as usize
}

/// Whether `score` is the length in bytes of a one-line rendering of
/// `value`.
pub open spec fn scores_rendering<T: Debug>(value: T, score: usize) -> bool {
    exists|text: Seq<char>| #[trigger] renders(value, text) && score == byte_len(text)
}

/// A value that can be handed to a predicate: it can be rendered for a
/// reader and copied.
pub trait Case: Debug + Clone {}

impl<T> Case for T where T: Debug + Clone {}

/// A case that can propose a simpler case in its place, and that can tell
/// how complex it is.
pub trait Shrink: Case {
    /// A simpler candidate, chosen with the help of `rng`, or `None` where
    /// there is nothing simpler. A type that does not say otherwise has
    /// nothing simpler to offer.
    fn shrink(self, rng: Rng) -> (smaller: Option<Self>)
        default_ensures
            smaller is None,
    {
        None
    }

    /// How complex the case is; less is simpler. A type that does not say
    /// otherwise is as complex as its one-line rendering is long.
    fn score(&self) -> (score: usize)
        default_ensures
            scores_rendering(*self, score),
    {
        let text = render(self);
        assert(renders(*self, text@));
        text.as_str().len()
    }
}

/// What a predicate returns: a value that tells success from failure.
pub trait TestResult: Debug {
    /// Whether the value stands for success.
    fn is_ok(&self) -> (ok: bool);
}

/// `Ok` is success, `Err` is failure.
impl<T, E> TestResult for Result<T, E> where Result<T, E>: Debug {
    fn is_ok(&self) -> (ok: bool)
        ensures
            ok == (self is Ok),
    {
        match self {
            Ok(_) => true,
            Err(_) => false,
        }
    }
}

/// `Some` is success, `None` is failure.
impl<T> TestResult for Option<T> where Option<T>: Debug {
    fn is_ok(&self) -> (ok: bool)
        ensures
            ok == (self is Some),
    {
        self.is_some()
    }
}

/// `true` is success, `false` is failure.
impl TestResult for bool {
    fn is_ok(&self) -> (ok: bool)
        ensures
            ok == *self,
    {
        *self
    }
}

/// Nothing to tell is success.
impl TestResult for () {
    fn is_ok(&self) -> (ok: bool)
        ensures
            ok,
    {
        true
    }
}

} // verus!
