use smallcase::rng::REDRAW_LIMIT;
use smallcase::rng::RNG_SEED;
use smallcase::Rng;
use std::collections::hash_map::DefaultHasher;
use std::hash::Hasher;

fn mixed(state: u64) -> u64 {
    let mut hasher = DefaultHasher::new();
    hasher.write(&state.to_le_bytes());
    hasher.finish()
}

fn folded(state: u64) -> u8 {
    state.to_be_bytes().iter().fold(0, |a, b| a ^ b)
}

fn word(state: u64) -> (u64, u64) {
    let mut state = state;
    let mut out: u64 = 0;
    for _ in 0..8 {
        state = mixed(state);
        out = out << 8 | folded(state) as u64;
    }
    (out, state)
}

#[test]
fn same_seed_same_stream() {
    let mut a = Rng::new_with_seed(7);
    let mut b = Rng::new_with_seed(7);
    for _ in 0..1000 {
        assert_eq!(a.next_byte(), b.next_byte());
        assert_eq!(a.next_u64(), b.next_u64());
        assert_eq!(a.next_bool(), b.next_bool());
        assert_eq!(a.next_u64_max(1000), b.next_u64_max(1000));
    }
}

#[test]
fn different_seeds_part_ways() {
    let mut a = Rng::new_with_seed(1);
    let mut b = Rng::new_with_seed(2);
    let first: Vec<u64> = (0..4).map(|_| a.next_u64()).collect();
    let second: Vec<u64> = (0..4).map(|_| b.next_u64()).collect();
    assert_ne!(first, second);
}

#[test]
fn default_source_starts_from_the_default_seed() {
    assert_eq!(RNG_SEED, 13157594558721065924);
    let mut a = Rng::new();
    let mut b = Rng::new_with_seed(13157594558721065924);
    for _ in 0..64 {
        assert_eq!(a.next_u64(), b.next_u64());
    }
}

#[test]
fn a_byte_is_the_folded_hash_of_the_state() {
    let mut rng = Rng::new_with_seed(42);
    let mut state: u64 = 42;
    for _ in 0..100 {
        state = mixed(state);
        assert_eq!(rng.next_byte(), folded(state));
    }
}

#[test]
fn folding_is_the_xor_of_eight_bytes() {
    assert_eq!(folded(0x0102_0408_1020_4080), 0xff);
    assert_eq!(folded(0xff00_0000_0000_00ff), 0x00);
    assert_eq!(folded(0x0000_0000_0000_1234), 0x12 ^ 0x34);
}

#[test]
fn a_word_is_eight_bytes_highest_first() {
    let mut rng = Rng::new_with_seed(5);
    let mut twin = Rng::new_with_seed(5);
    for _ in 0..50 {
        let mut expected: u64 = 0;
        for _ in 0..8 {
            expected = expected << 8 | twin.next_byte() as u64;
        }
        assert_eq!(rng.next_u64(), expected);
    }
    let mut fresh = Rng::new_with_seed(5);
    assert_eq!(fresh.next_u64(), word(5).0);
}

#[test]
fn a_coin_shows_heads_on_an_even_byte() {
    let mut rng = Rng::new_with_seed(99);
    let mut twin = Rng::new_with_seed(99);
    let mut heads = 0;
    for _ in 0..200 {
        let toss = rng.next_bool();
        assert_eq!(toss, twin.next_byte() % 2 == 0);
        if toss {
            heads += 1;
        }
    }
    assert!(heads > 0 && heads < 200);
}

fn bounded(state: u64, max: u64, mask: u64) -> (u64, u64) {
    let (mut value, mut state) = word(state);
    let mut out = value & mask;
    let mut left = REDRAW_LIMIT;
    while out > max && left > 0 {
        (value, state) = word(state);
        out = value & mask;
        left -= 1;
    }
    if out > max {
        (out >> 1, state)
    } else {
        (out, state)
    }
}

#[test]
fn bounded_draws_mask_and_reject() {
    let bounds: [(u64, u64); 9] = [
        (0, 0),
        (1, 1),
        (2, 3),
        (5, 7),
        (8, 15),
        (255, 255),
        (256, 511),
        (1 << 63, u64::MAX),
        (u64::MAX, u64::MAX),
    ];
    for (max, mask) in bounds {
        let mut rng = Rng::new_with_seed(max ^ 0xabcdef);
        let mut state = max ^ 0xabcdef;
        for _ in 0..200 {
            let (expected, next) = bounded(state, max, mask);
            let value = rng.next_u64_max(max);
            assert!(value <= max);
            assert_eq!(value, expected);
            state = next;
        }
    }
}

#[test]
fn bounded_draws_reach_every_value() {
    let mut rng = Rng::new_with_seed(3);
    let mut seen = [false; 6];
    for _ in 0..500 {
        seen[rng.next_u64_max(5) as usize] = true;
    }
    assert_eq!(seen, [true; 6]);
}

#[test]
fn a_draw_up_to_zero_is_zero() {
    let mut rng = Rng::new_with_seed(11);
    for _ in 0..20 {
        assert_eq!(rng.next_u64_max(0), 0);
        assert_eq!(rng.next_usize_max(0), 0);
    }
}

#[test]
fn a_draw_up_to_the_greatest_value_is_a_plain_draw() {
    let mut rng = Rng::new_with_seed(12);
    let mut twin = Rng::new_with_seed(12);
    for _ in 0..20 {
        assert_eq!(rng.next_u64_max(u64::MAX), twin.next_u64());
    }
}

#[test]
fn usize_draws_follow_the_word_draws() {
    let mut rng = Rng::new_with_seed(21);
    let mut twin = Rng::new_with_seed(21);
    for _ in 0..50 {
        assert_eq!(rng.next_usize(), twin.next_u64() as usize);
        assert_eq!(rng.next_usize_max(9) as u64, twin.next_u64_max(9));
    }
}

#[test]
fn the_first_draws_are_known() {
    let mut rng = Rng::new_with_seed(0);
    assert_eq!(rng.next_byte(), 131);
    assert_eq!(rng.next_u64(), 2089521435045512144);
    let mut fresh = Rng::new();
    assert_eq!(fresh.next_u64(), 9479404687489681987);
}
