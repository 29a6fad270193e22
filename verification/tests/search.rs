use smallcase::classify;
use smallcase::search::candidate_of;
use smallcase::shrink_case;
use smallcase::shrink_within;
use smallcase::Reduction;
use smallcase::Rng;
use smallcase::Scored;
use smallcase::Search;
use smallcase::Shrink;
use smallcase::TrialOutcome;
use smallcase::SHRINK_BUDGET;
use std::cell::Cell;

fn scored(case: usize) -> Scored<usize> {
    Scored { case, score: case }
}

fn strictly_descending(bound: usize, scores: &Vec<usize>) -> bool {
    let mut last = bound;
    for &score in scores {
        if score >= last {
            return false;
        }
        last = score;
    }
    true
}

#[test]
fn the_default_budget_is_a_thousand_steps() {
    assert_eq!(SHRINK_BUDGET, 1000);
}

#[test]
fn a_search_with_nothing_to_try_is_over() {
    let mut search = Search::new(scored(9), None, 10);
    assert_eq!(search.next_candidate(), None);
    let found = search.finish();
    assert_eq!(found.original, scored(9));
    assert_eq!(found.smallest, None);
    assert_eq!(found.improvements, Vec::<usize>::new());
    assert_eq!(found.steps, 0);
    assert_eq!(*found.best(), scored(9));
}

#[test]
fn a_search_without_budget_hands_out_nothing() {
    let mut search = Search::new(scored(9), Some(scored(8)), 0);
    assert_eq!(search.next_candidate(), None);
    assert_eq!(search.finish().steps, 0);
}

#[test]
fn a_failing_candidate_that_scores_less_becomes_the_best() {
    let mut search = Search::new(scored(9), Some(scored(7)), 10);
    let candidate = search.next_candidate().unwrap();
    assert_eq!(candidate, scored(7));
    search.record_failure(candidate, Some(scored(3)));
    let candidate = search.next_candidate().unwrap();
    assert_eq!(candidate, scored(3));
    search.record_failure(candidate, None);
    assert_eq!(search.next_candidate(), None);
    let found = search.finish();
    assert_eq!(found.original, scored(9));
    assert_eq!(found.smallest, Some(scored(3)));
    assert_eq!(found.improvements, vec![7, 3]);
    assert_eq!(found.steps, 2);
    assert_eq!(*found.best(), scored(3));
}

#[test]
fn a_failing_candidate_that_scores_the_same_does_not_displace_the_best() {
    let first = Scored { case: "first", score: 4 };
    let equal = Scored { case: "equal", score: 4 };
    let worse = Scored { case: "worse", score: 6 };
    let mut search =
        Search::new(Scored { case: "original", score: 5 }, Some(Scored { case: "first", score: 4 }), 10);
    let candidate = search.next_candidate().unwrap();
    search.record_failure(candidate, Some(equal));
    let candidate = search.next_candidate().unwrap();
    assert_eq!(candidate.case, "equal");
    search.record_failure(candidate, Some(worse));
    let candidate = search.next_candidate().unwrap();
    assert_eq!(candidate.case, "worse");
    search.record_failure(candidate, None);
    let found = search.finish();
    assert_eq!(found.smallest, Some(first));
    assert_eq!(found.improvements, vec![4]);
    assert_eq!(found.steps, 3);
}

#[test]
fn a_passing_candidate_is_dropped() {
    let mut search = Search::new(scored(9), Some(scored(7)), 10);
    let candidate = search.next_candidate().unwrap();
    assert_eq!(candidate, scored(7));
    assert_eq!(search.next_candidate(), None);
    let found = search.finish();
    assert_eq!(found.smallest, None);
    assert_eq!(found.steps, 1);
}

#[test]
fn a_search_stops_when_its_budget_is_spent() {
    let mut search = Search::new(scored(9), Some(scored(8)), 2);
    let candidate = search.next_candidate().unwrap();
    search.record_failure(candidate, Some(scored(7)));
    let candidate = search.next_candidate().unwrap();
    search.record_failure(candidate, Some(scored(6)));
    assert_eq!(search.next_candidate(), None);
    let found = search.finish();
    assert_eq!(found.smallest, Some(scored(7)));
    assert_eq!(found.steps, 2);
}

#[test]
fn a_candidate_is_a_shrunk_copy_with_its_score() {
    for seed in 0..50 {
        let expected = 40usize.shrink(Rng::new_with_seed(seed)).unwrap();
        assert_eq!(candidate_of(&40usize, seed), Some(scored(expected)));
    }
    assert_eq!(candidate_of(&0usize, 3), None);
    let list: Vec<usize> = vec![3, 1, 2];
    let expected = list.clone().shrink(Rng::new_with_seed(1)).unwrap();
    let score = expected.score();
    assert_eq!(candidate_of(&list, 1), Some(Scored { case: expected, score }));
}

#[test]
fn nothing_below_twenty_fails() {
    let trial = |case: &usize| classify::<bool, ()>(Ok(*case + *case != 40));
    let found = shrink_case(20usize, &trial);
    assert_eq!(found.original, scored(20));
    assert_eq!(found.smallest, None);
    assert_eq!(*found.best(), scored(20));
    assert_eq!(found.improvements, Vec::<usize>::new());
    assert_eq!(found.steps, 1);
}

#[test]
fn numbers_that_all_fail_shrink_to_zero() {
    let trial = |_case: &usize| classify::<bool, ()>(Ok(false));
    let found = shrink_case(50usize, &trial);
    assert_eq!(found.original, scored(50));
    assert_eq!(found.smallest, Some(scored(0)));
    assert!(strictly_descending(50, &found.improvements));
    assert_eq!(found.improvements.last(), Some(&0));
    assert_eq!(found.steps, found.improvements.len());
    assert!(found.steps <= 50);
}

#[test]
fn a_threshold_is_approached_from_above() {
    let trial = |case: &usize| classify::<bool, ()>(Ok(*case < 10));
    let found = shrink_case(1000usize, &trial);
    let best = found.best();
    assert!(best.case >= 10);
    assert!(best.case <= 1000);
    assert_eq!(best.score, best.case);
    assert!(strictly_descending(1000, &found.improvements));
    assert!(found.steps <= SHRINK_BUDGET);
}

#[test]
fn every_improvement_scores_less_than_the_one_before() {
    let trial = |case: &Vec<usize>| classify::<bool, ()>(Ok(case.len() < 2));
    let list: Vec<usize> = vec![9, 8, 7, 6, 5, 4, 3, 2, 1];
    let score = list.score();
    let found = shrink_within(list.clone(), &trial, 200);
    assert_eq!(found.original, Scored { case: list, score });
    assert!(strictly_descending(score, &found.improvements));
    let best = found.best();
    assert!(best.score <= score);
    assert_eq!(best.score, best.case.score());
    assert!(best.case.len() >= 2);
    match &found.smallest {
        Some(smallest) => assert_eq!(found.improvements.last(), Some(&smallest.score)),
        None => assert!(found.improvements.is_empty()),
    }
}

#[test]
fn a_search_tries_no_more_than_its_budget() {
    for budget in [0usize, 1, 2, 7, 30] {
        let calls = Cell::new(0usize);
        let trial = |_case: &usize| {
            calls.set(calls.get() + 1);
            classify::<bool, ()>(Ok(false))
        };
        let found = shrink_within(usize::MAX, &trial, budget);
        assert!(found.steps <= budget);
        assert_eq!(calls.get(), found.steps);
    }
}

#[test]
fn a_long_chain_spends_the_whole_budget() {
    let calls = Cell::new(0usize);
    let trial = |case: &Vec<usize>| {
        calls.set(calls.get() + 1);
        classify::<bool, ()>(Ok(case.is_empty()))
    };
    let found = shrink_within(vec![usize::MAX; 4], &trial, 25);
    assert_eq!(calls.get(), found.steps);
    assert!(found.steps <= 25);
    assert!(!found.best().case.is_empty());
}

#[test]
fn the_original_is_kept_as_it_was() {
    let trial = |_case: &Vec<usize>| classify::<bool, ()>(Ok(false));
    let list: Vec<usize> = vec![3, 1, 4, 1, 5];
    let found = shrink_case(list.clone(), &trial);
    assert_eq!(found.original.case, list);
    assert_eq!(found.original.score, 15);
    assert!(found.best().score < 15);
}

fn summary(found: &Reduction<Vec<usize>>) -> (Vec<usize>, usize, Vec<usize>, usize) {
    (found.best().case.clone(), found.best().score, found.improvements.clone(), found.steps)
}

#[test]
fn two_searches_alike_find_the_same() {
    let trial = |case: &Vec<usize>| classify::<bool, ()>(Ok(case.iter().sum::<usize>() < 10));
    let list: Vec<usize> = vec![7, 0, 12, 5, 5, 30];
    let first = shrink_case(list.clone(), &trial);
    let second = shrink_case(list.clone(), &trial);
    assert_eq!(summary(&first), summary(&second));
    assert!(first.best().case.iter().sum::<usize>() >= 10);
}

#[test]
fn a_fault_counts_as_a_failure() {
    let trial = |case: &usize| {
        if *case >= 5 {
            TrialOutcome::Fault("too great")
        } else {
            TrialOutcome::Pass
        }
    };
    let found = shrink_case(100usize, &trial);
    assert!(found.best().case >= 5);
    assert!(found.best().case <= 100);
}
