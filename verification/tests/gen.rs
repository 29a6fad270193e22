use smallcase::gen::growing_list;
use smallcase::gen::increasing_usize;
use smallcase::gen::random_usize;
use smallcase::gen::smart_usize;
use smallcase::listed;
use smallcase::Rng;
use smallcase::Strategy;

#[test]
fn counting_starts_at_zero_and_goes_up_by_one() {
    let mut counter = increasing_usize();
    for expected in 0..1000 {
        assert_eq!(counter.next_case(), expected);
    }
}

#[test]
fn random_cases_are_the_draws_of_the_default_source() {
    let mut generator = random_usize();
    let mut rng = Rng::new();
    for _ in 0..100 {
        assert_eq!(generator.next_case(), rng.next_usize());
    }
}

#[test]
fn priming_values_come_first() {
    let mut generator = smart_usize(increasing_usize());
    let first: Vec<usize> = (0..10).map(|_| generator.next_case()).collect();
    assert_eq!(first, vec![0, 1, 0, 2, usize::MAX, 3, 4, 5, 6, 7]);
    let then: Vec<usize> = (0..5).map(|_| generator.next_case()).collect();
    assert_eq!(then, vec![0, 1, 2, 3, 4]);
}

#[test]
fn priming_leaves_the_inner_generator_untouched() {
    let mut generator = smart_usize(random_usize());
    for _ in 0..10 {
        generator.next_case();
    }
    let mut rng = Rng::new();
    for _ in 0..20 {
        assert_eq!(generator.next_case(), rng.next_usize());
    }
}

#[test]
fn lists_grow_by_one_element_per_case() {
    let mut generator = growing_list(increasing_usize());
    let mut before: Vec<usize> = vec![];
    for n in 1..50 {
        let case = generator.next_case();
        assert_eq!(case.len(), n);
        assert_eq!(case[..n - 1], before[..]);
        assert_eq!(case[n - 1], n - 1);
        before = case;
    }
}

#[test]
fn lists_of_smart_numbers() {
    let mut generator = growing_list(smart_usize(increasing_usize()));
    assert_eq!(generator.next_case(), vec![0]);
    assert_eq!(generator.next_case(), vec![0, 1]);
    assert_eq!(generator.next_case(), vec![0, 1, 0]);
    assert_eq!(generator.next_case(), vec![0, 1, 0, 2]);
    assert_eq!(generator.next_case(), vec![0, 1, 0, 2, usize::MAX]);
}

#[test]
fn lists_of_lists_grow_too() {
    let mut generator = growing_list(growing_list(increasing_usize()));
    assert_eq!(generator.next_case(), vec![vec![0]]);
    assert_eq!(generator.next_case(), vec![vec![0], vec![0, 1]]);
    assert_eq!(generator.next_case(), vec![vec![0], vec![0, 1], vec![0, 1, 2]]);
}

#[test]
fn a_generator_never_runs_out() {
    let mut generator = increasing_usize();
    for expected in 0..200 {
        assert_eq!(generator.next(), Some(expected));
    }
}

#[test]
fn a_listed_source_runs_out() {
    let mut source = listed(vec![7, 8, 9]);
    assert_eq!(source.next(), Some(7));
    assert_eq!(source.next(), Some(8));
    assert_eq!(source.next(), Some(9));
    assert_eq!(source.next(), None);
    assert_eq!(source.next(), None);
}

#[test]
fn two_generators_built_alike_yield_alike() {
    let mut a = growing_list(smart_usize(random_usize()));
    let mut b = growing_list(smart_usize(random_usize()));
    for _ in 0..40 {
        assert_eq!(a.next_case(), b.next_case());
    }
}
