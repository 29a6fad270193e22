use smallcase::Rng;
use smallcase::Shrink;

#[derive(Debug, Clone, PartialEq)]
struct Pair(u8, u8);

impl Shrink for Pair {}

#[test]
fn zero_does_not_shrink() {
    assert_eq!(0usize.shrink(Rng::new()), None);
    for seed in 0..50 {
        assert_eq!(0usize.shrink(Rng::new_with_seed(seed)), None);
    }
}

#[test]
fn one_shrinks_to_zero() {
    for seed in 0..50 {
        assert_eq!(1usize.shrink(Rng::new_with_seed(seed)), Some(0));
    }
}

#[test]
fn a_number_shrinks_below_itself() {
    for seed in 0..200 {
        for number in [1usize, 2, 7, 20, 100, usize::MAX] {
            let smaller = number.shrink(Rng::new_with_seed(seed)).unwrap();
            assert!(smaller < number);
        }
    }
}

#[test]
fn a_number_shrinks_by_the_toss_of_a_coin() {
    let mut drawn = 0;
    let mut stepped = 0;
    for seed in 0..200 {
        let mut twin = Rng::new_with_seed(seed);
        let expected = if twin.next_bool() {
            drawn += 1;
            twin.next_usize_max(99)
        } else {
            stepped += 1;
            99
        };
        assert_eq!(100usize.shrink(Rng::new_with_seed(seed)), Some(expected));
    }
    assert!(drawn > 0);
    assert!(stepped > 0);
}

#[test]
fn a_number_is_as_complex_as_it_is_great() {
    assert_eq!(0usize.score(), 0);
    assert_eq!(17usize.score(), 17);
    assert_eq!(usize::MAX.score(), usize::MAX);
}

#[test]
fn a_list_is_as_complex_as_its_rendering_is_long() {
    assert_eq!(Vec::<usize>::new().score(), 2);
    assert_eq!(vec![0usize].score(), 3);
    assert_eq!(vec![10usize].score(), 4);
    assert_eq!(vec![1usize, 2, 3].score(), 9);
    assert_eq!(vec![vec![1usize], vec![]].score(), 9);
}

#[test]
fn a_type_that_says_nothing_does_not_shrink() {
    for seed in 0..20 {
        assert_eq!(Pair(1, 2).shrink(Rng::new_with_seed(seed)), None);
    }
}

#[test]
fn a_type_that_says_nothing_is_as_complex_as_its_rendering_is_long() {
    assert_eq!(Pair(1, 2).score(), 10);
    assert_eq!(Pair(100, 200).score(), 14);
}

#[test]
fn an_empty_list_does_not_shrink() {
    for seed in 0..50 {
        assert_eq!(Vec::<usize>::new().shrink(Rng::new_with_seed(seed)), None);
    }
}

fn shrunk_list(list: &Vec<usize>, seed: u64) -> (Vec<usize>, bool) {
    let mut expected = list.clone();
    let mut twin = Rng::new_with_seed(seed);
    let index = twin.next_usize_max(list.len() - 1);
    if twin.next_bool() {
        expected.remove(index);
        (expected, true)
    } else {
        let inner = twin.next_usize() as u64;
        if let Some(smaller) = expected[index].shrink(Rng::new_with_seed(inner)) {
            expected[index] = smaller;
        }
        (expected, false)
    }
}

#[test]
fn a_list_loses_an_element_or_shrinks_one() {
    let list: Vec<usize> = vec![5, 0, 9, 3, 12];
    let mut removed = 0;
    let mut kept = 0;
    for seed in 0..300 {
        let (expected, lost) = shrunk_list(&list, seed);
        let smaller = list.clone().shrink(Rng::new_with_seed(seed)).unwrap();
        assert_eq!(smaller, expected);
        if lost {
            removed += 1;
            assert_eq!(smaller.len(), 4);
        } else {
            kept += 1;
            assert_eq!(smaller.len(), 5);
            let changed = (0..5).filter(|&i| smaller[i] != list[i]).count();
            assert!(changed <= 1);
            assert!((0..5).all(|i| smaller[i] <= list[i]));
        }
    }
    assert!(removed > 0);
    assert!(kept > 0);
}

#[test]
fn a_list_of_one_zero_becomes_empty_or_stays() {
    for seed in 0..100 {
        let smaller = vec![0usize].shrink(Rng::new_with_seed(seed)).unwrap();
        let (expected, lost) = shrunk_list(&vec![0], seed);
        assert_eq!(smaller, expected);
        if lost {
            assert_eq!(smaller, Vec::<usize>::new());
        } else {
            assert_eq!(smaller, vec![0]);
        }
    }
}

#[test]
fn a_list_of_lists_shrinks_its_lists() {
    let list: Vec<Vec<usize>> = vec![vec![1, 2], vec![], vec![3]];
    for seed in 0..200 {
        let smaller = list.clone().shrink(Rng::new_with_seed(seed)).unwrap();
        let elements: usize = smaller.iter().map(|inner| inner.len()).sum();
        assert!(smaller.len() == 2 || smaller.len() == 3);
        assert!(elements <= 3);
        if smaller.len() == 3 {
            assert!(elements >= 2);
        }
    }
}

#[test]
fn shrinking_is_repeatable() {
    let list: Vec<usize> = vec![4, 8, 15, 16, 23, 42];
    for seed in 0..50 {
        assert_eq!(
            list.clone().shrink(Rng::new_with_seed(seed)),
            list.clone().shrink(Rng::new_with_seed(seed))
        );
        assert_eq!(
            1000usize.shrink(Rng::new_with_seed(seed)),
            1000usize.shrink(Rng::new_with_seed(seed))
        );
    }
}
