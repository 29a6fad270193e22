//! A deterministic, seedable source of pseudo-random bytes and integers.
//!
//! The source holds one 64-bit state. Every draw replaces the state by its
//! hash and yields the XOR of the new state's eight bytes. Nothing else
//! enters the stream, so a seed fixes it for good.

use std::collections::hash_map::DefaultHasher;
use std::hash::Hasher;
use vstd::bytes::spec_u64_to_le_bytes;
use vstd::bytes::u64_to_le_bytes;
use vstd::prelude::*;
use vstd::std_specs::bits::axiom_u64_leading_zeros;
use vstd::std_specs::bits::u64_leading_zeros;
use vstd::std_specs::hash::DefaultHasherAdditionalSpecFns;

verus! {

/// The seed of a source made by [`Rng::new`].
pub const RNG_SEED: u64 = 13157594558721065924;

/// How many draws [`Rng::next_u64_max`] may reject before it settles for
/// half of the last one.
pub const REDRAW_LIMIT: usize = 64;

/// One round of mixing: the hash of the state's eight bytes, lowest first.
pub open spec fn mix(state: u64) -> u64 {
    DefaultHasher::spec_finish(seq![spec_u64_to_le_bytes(state)])
}

/// The XOR of the eight bytes of `state`.
pub open spec fn fold(state: u64) -> u8 {
    (((state >> 56) ^ (state >> 48) ^ (state >> 40) ^ (state >> 32) ^ (state >> 24) ^ (state >> 16)
        ^ (state >> 8) ^ state) & 0xff) as u8
}

/// The state after `draws` bytes were drawn from `state`.
pub open spec fn advance(state: u64, draws: nat) -> u64
    decreases draws,
{
    if draws == 0 {
        state
    } else {
        mix(advance(state, (draws - 1) as nat))
    }
}

/// Byte number `n`, counted from 1, of the stream that starts at `state`.
pub open spec fn stream_byte(state: u64, n: nat) -> u8 {
    fold(advance(state, n))
}

/// `word` with `byte` appended as its new lowest byte.
pub open spec fn push_byte(word: u64, byte: u8) -> u64 {
    (word << 8) | (byte as u64)
}

/// The first `bytes` bytes of the stream that starts at `state`, joined with
/// the first byte in the highest place.
pub open spec fn word_of(state: u64, bytes: nat) -> u64
    decreases bytes,
{
    if bytes == 0 {
        0
    } else {
        push_byte(word_of(state, (bytes - 1) as nat), stream_byte(state, bytes))
    }
}

/// A 64-bit draw from `state`: the value and the state it leaves.
pub open spec fn draw_word(state: u64) -> (u64, u64) {
    (word_of(state, 8), advance(state, 8))
}

/// A coin toss from `state`: heads when the drawn byte is even.
pub open spec fn draw_coin(state: u64) -> (bool, u64) {
    (stream_byte(state, 1) % 2 == 0, mix(state))
}

/// Whether `m` is a power of two minus one: a run of ones from the lowest
/// bit up, with nothing above it.
pub open spec fn is_mask(m: u64) -> bool {
    m & ((m + 1) as u64) == 0
}

/// Whether `m` is the smallest power of two minus one that is at least `max`.
pub open spec fn is_smallest_mask(m: u64, max: u64) -> bool {
    &&& is_mask(m)
    &&& m >= max
    &&& forall|n: u64| #[trigger] is_mask(n) && n >= max ==> m <= n
}

/// The smallest power of two minus one that is at least `max`.
pub open spec fn smallest_mask(max: u64) -> u64 {
    choose|m: u64| is_smallest_mask(m, max)
}

/// A draw in `0..=max` from `state` by masking and rejecting: 64-bit draws
/// are cut down to the bits of `smallest_mask(max)` until one is at most
/// `max`. After `redraws` further rejections the last draw is halved, which
/// always brings it into range.
pub open spec fn draw_within(state: u64, max: u64, redraws: nat) -> (u64, u64)
    decreases redraws,
{
    let (word, next) = draw_word(state);
    let out = word & smallest_mask(max);
    if out <= max {
        (out, next)
    } else if redraws == 0 {
        (out >> 1, next)
    } else {
        draw_within(next, max, (redraws - 1) as nat)
    }
}

/// A draw in `0..=max` from `state`: the value and the state it leaves.
pub open spec fn draw_bounded(state: u64, max: u64) -> (u64, u64) {
    draw_within(state, max, REDRAW_LIMIT as nat)
}

/// A `usize` draw from `state`: the low bits of a 64-bit draw.
pub open spec fn draw_usize(state: u64) -> (usize, u64) {
    (draw_word(state).0 as usize, draw_word(state).1)
}

/// A `usize` draw in `0..=max` from `state`.
pub open spec fn draw_usize_bounded(state: u64, max: usize) -> (usize, u64) {
    (draw_bounded(state, max as u64).0 as usize, draw_bounded(state, max as u64).1)
}

/// `u64::MAX >> max.leading_zeros()` is the smallest mask for a positive `max`.
proof fn lemma_shifted_ones_is_smallest(max: u64, zeros: u32)
    requires
        max != 0,
        zeros as int == u64_leading_zeros(max),
    ensures
        zeros < 64,
        is_smallest_mask(u64::MAX >> zeros, max),
{
    axiom_u64_leading_zeros(max);
    let top: u64 = (63 - zeros) as u64;
    assert((max >> top) & 1u64 != 0u64);
    let above: u64 = (64 - zeros) as u64;
    assert(max >> above == 0);
    let m = u64::MAX >> zeros;
    assert(is_mask(m) && m >= max) by (bit_vector)
        requires
            zeros < 64,
            top == 63 - zeros,
            above == 64 - zeros,
            (max >> top) & 1u64 != 0u64,
            max >> above == 0,
            m == u64::MAX >> zeros,
    ;
    assert forall|n: u64| #[trigger] is_mask(n) && n >= max implies m <= n by {
        assert(m <= n) by (bit_vector)
            requires
                zeros < 64,
                top == 63 - zeros,
                (max >> top) & 1u64 != 0u64,
                m == u64::MAX >> zeros,
                is_mask(n),
                n >= max,
        ;
    }
}

/// Every bound has exactly one smallest mask, and it is what
/// [`smallest_mask`] names.
pub proof fn lemma_smallest_mask(max: u64)
    ensures
        is_smallest_mask(smallest_mask(max), max),
        forall|m: u64| is_smallest_mask(m, max) ==> m == smallest_mask(max),
        smallest_mask(max) == 0 || (smallest_mask(max) >> 1) < max,
{
    if max == 0 {
        assert(is_mask(0)) by (bit_vector);
        assert(is_smallest_mask(0, max));
    } else {
        axiom_u64_leading_zeros(max);
        let zeros = u64_leading_zeros(max) as u32;
        lemma_shifted_ones_is_smallest(max, zeros);
    }
    let chosen = smallest_mask(max);
    assert(is_smallest_mask(chosen, max));
    assert forall|m: u64| is_smallest_mask(m, max) implies m == chosen by {
        assert(is_mask(m) && is_mask(chosen));
    }
    let half = chosen >> 1;
    assert(is_mask(half) && (chosen != 0 ==> half < chosen)) by (bit_vector)
        requires
            is_mask(chosen),
            half == chosen >> 1,
    ;
}

/// A bounded draw never exceeds its bound.
pub proof fn lemma_draw_within_bound(state: u64, max: u64, redraws: nat)
    ensures
        draw_within(state, max, redraws).0 <= max,
    decreases redraws,
{
    let (word, next) = draw_word(state);
    let mask = smallest_mask(max);
    let out = word & mask;
    if out <= max {
    } else if redraws == 0 {
        lemma_smallest_mask(max);
        assert(out >> 1 <= max) by (bit_vector)
            requires
                out == word & mask,
                mask == 0 || (mask >> 1) < max,
        ;
    } else {
        lemma_draw_within_bound(next, max, (redraws - 1) as nat);
    }
}

fn mix_state(state: u64) -> (mixed: u64)
    ensures
        mixed == mix(state),
{
    let mut hasher = DefaultHasher::new();
    let bytes = u64_to_le_bytes(state);
    hasher.write(bytes.as_slice());
    assert(hasher@ =~= seq![spec_u64_to_le_bytes(state)]);
    hasher.finish()
}

fn fold_state(state: u64) -> (byte: u8)
    ensures
        byte == fold(state),
{
    let low = ((state >> 56) ^ (state >> 48) ^ (state >> 40) ^ (state >> 32) ^ (state >> 24) ^ (state
        >> 16) ^ (state >> 8) ^ state) & 0xff;
    assert(low <= 0xff) by (bit_vector)
        requires
            low == ((state >> 56) ^ (state >> 48) ^ (state >> 40) ^ (state >> 32) ^ (state >> 24)
                ^ (state >> 16) ^ (state >> 8) ^ state) & 0xff,
    ;
    low as u8
}

fn mask_for(max: u64) -> (mask: u64)
    ensures
        mask == smallest_mask(max),
{
    proof {
        lemma_smallest_mask(max);
    }
    if max == 0 {
        assert(is_mask(0)) by (bit_vector);
        assert(is_smallest_mask(0, max));
        0
    } else {
        let zeros = max.leading_zeros();
        proof {
            lemma_shifted_ones_is_smallest(max, zeros);
        }
        u64::MAX >> zeros
    }
}

/// A deterministic source of pseudo-random values.
pub struct Rng {
    data: u64,
}

impl View for Rng {
    type V = u64;

    closed spec fn view(&self) -> u64 {
        self.data
    }
}

impl Rng {
    /// The source whose state is `state`.
    pub closed spec fn seeded(state: u64) -> Rng {
        Rng { data: state }
    }

    /// A source is its state and nothing more.
    pub proof fn lemma_view(self)
        ensures
            self == Rng::seeded(self@),
            forall|state: u64| #[trigger] Rng::seeded(state)@ == state,
    {
    }

    /// A source that starts from [`RNG_SEED`].
    pub fn new() -> (rng: Rng)
        ensures
            rng@ == RNG_SEED,
            rng == Rng::seeded(RNG_SEED),
    {
        Rng::new_with_seed(RNG_SEED)
    }

    /// A source that starts from `seed`.
    pub fn new_with_seed(seed: u64) -> (rng: Rng)
        ensures
            rng@ == seed,
            rng == Rng::seeded(seed),
    {
        Rng { data: seed }
    }

    /// Draws a value in `0..=max`.
    pub fn next_u64_max(&mut self, max: u64) -> (value: u64)
        ensures
            (value, final(self)@) == draw_bounded(old(self)@, max),
            value <= max,
    {
        let ghost start = self@;
        let mask = mask_for(max);
        let mut left: usize = REDRAW_LIMIT;
        let mut out = self.next_u64() & mask;
        while out > max && left > 0
            invariant
                mask == smallest_mask(max),
                draw_bounded(start, max) == (if out <= max {
                    (out, self@)
                } else if left == 0 {
                    (out >> 1, self@)
                } else {
                    draw_within(self@, max, (left - 1) as nat)
                }),
            decreases left,
        {
            out = self.next_u64() & mask;
            left = left - 1;
        }
        proof {
            lemma_draw_within_bound(start, max, REDRAW_LIMIT as nat);
        }
        if out > max {
            out >> 1
        } else {
            out
        }
    }

    /// Draws eight bytes and joins them, the first in the highest place.
    pub fn next_u64(&mut self) -> (value: u64)
        ensures
            (value, final(self)@) == draw_word(old(self)@),
    {
        let ghost start = self@;
        let mut out: u64 = 0;
        let mut drawn: usize = 0;
        while drawn < 8
            invariant
                drawn <= 8,
                out == word_of(start, drawn as nat),
                self@ == advance(start, drawn as nat),
            decreases 8 - drawn,
        {
            let byte = self.next_byte();
            out = (out << 8) | (byte as u64);
            drawn = drawn + 1;
        }
        out
    }

    /// Draws one byte.
    pub fn next_byte(&mut self) -> (byte: u8)
        ensures
            final(self)@ == mix(old(self)@),
            byte == fold(final(self)@),
            byte == stream_byte(old(self)@, 1),
    {
        self.data = mix_state(self.data);
        assert(advance(old(self)@, 1) == mix(advance(old(self)@, 0)));
        fold_state(self.data)
    }

    /// Tosses a coin: heads when the drawn byte is even.
    pub fn next_bool(&mut self) -> (heads: bool)
        ensures
            (heads, final(self)@) == draw_coin(old(self)@),
    {
        let byte = self.next_byte();
        byte % 2 == 0
    }

    /// Draws a `usize`: the low bits of a 64-bit draw.
    pub fn next_usize(&mut self) -> (value: usize)
        ensures
            (value, final(self)@) == draw_usize(old(self)@),
    {
        let word = self.next_u64();
        #[verifier::truncate]
        (word as usize)
    }

    /// Draws a `usize` in `0..=max`.
    pub fn next_usize_max(&mut self, max: usize) -> (value: usize)
        ensures
            (value, final(self)@) == draw_usize_bounded(old(self)@, max),
            value <= max,
    {
        let word = self.next_u64_max(max as u64);
        word as usize
    }
}

} // verus!
