//! The decisions of the numerical fits.
use pairwise_gsb::descent::{
    grid_axis, jitter, least_below, middle, DampedSearch, JointSearch, LineSearch, Step, Trial,
    DAMPED_ROUNDS, LINE_ROUNDS,
};
use pairwise_gsb::shared_clocks::{find_joint_clock, joint_part, FitRecord, Verdict};

fn names(v: &[&str]) -> Vec<String> {
    v.iter().map(|s| s.to_string()).collect()
}

fn trial(value: i64) -> Option<Trial> {
    Some(Trial { value, close: false })
}

#[test]
fn the_first_of_the_least_values_is_found() {
    let values = vec![None, Some(7), Some(3), Some(5), Some(3)];
    assert_eq!(least_below(&values, None), Some(2));
    assert_eq!(least_below(&values, Some(4)), Some(2));
    assert_eq!(least_below(&values, Some(3)), None);
    assert_eq!(least_below(&vec![None, None], None), None);
    assert_eq!(least_below(&vec![], None), None);
}

#[test]
fn a_damped_search_takes_the_best_trial_until_nothing_is_to_gain() {
    let mut search = DampedSearch::new();
    assert!(matches!(search.advance(&vec![None, None]), Step::Repeat));
    assert!(matches!(search.advance(&vec![trial(9), None, trial(4), trial(4)]), Step::Take(2)));
    assert_eq!((search.rounds, search.value), (2, Some(4)));
    assert!(matches!(search.advance(&vec![trial(5), trial(4)]), Step::Stop));
    assert_eq!((search.rounds, search.value), (2, Some(4)));
    let close = Some(Trial { value: 3, close: true });
    assert!(matches!(search.advance(&vec![trial(5), close]), Step::Stop));
    assert_eq!(search.value, Some(4));
    assert!(matches!(search.advance(&vec![trial(2), close]), Step::Take(0)));
}

#[test]
fn a_damped_search_ends_after_its_rounds() {
    let mut search = DampedSearch::new();
    let mut taken = 0;
    let mut value = 1000;
    while search.open() {
        value -= 1;
        assert!(matches!(search.advance(&vec![trial(value)]), Step::Take(0)));
        assert_eq!(search.value, Some(value));
        taken += 1;
    }
    assert_eq!(taken, DAMPED_ROUNDS);
    assert_eq!(taken, 80);
    assert!(matches!(search.advance(&vec![trial(0)]), Step::Stop));
}

#[test]
fn a_line_search_takes_the_first_trial_that_is_good_enough() {
    let mut search = LineSearch::new();
    assert_eq!(search.advance(Some(10), &vec![None, Some(20), Some(5)]), Some(1));
    assert_eq!(search.last, Some(20));
    assert_eq!(search.advance(Some(10), &vec![Some(20), Some(15), Some(5)]), Some(1));
    assert_eq!(search.advance(Some(10), &vec![Some(20), Some(15)]), None);
    assert_eq!((search.rounds, search.last), (2, Some(15)));
    while search.open() {
        assert_eq!(search.advance(Some(10), &vec![Some(9)]), Some(0));
    }
    assert_eq!(search.rounds, LINE_ROUNDS);
    assert_eq!(LINE_ROUNDS, 10);
    assert_eq!(search.advance(Some(10), &vec![Some(1)]), None);
}

#[test]
fn a_joint_search_ends_where_it_comes_close_and_after_ten_rounds() {
    let mut search = JointSearch::new();
    assert!(search.advance(false) && search.open());
    assert!(!search.advance(true));
    assert!(!search.open() && search.rounds == 2);
    assert!(!search.advance(false) && search.rounds == 2);
    let mut search = JointSearch::new();
    let mut steps = 0;
    while search.open() {
        assert!(search.advance(false));
        steps += 1;
    }
    assert_eq!(steps, 10);
    assert!(!search.advance(false));
}

#[test]
fn the_middle_of_an_even_number_is_the_higher() {
    assert_eq!(middle(&vec![5, 1, 9]), 0);
    assert_eq!(middle(&vec![5, 1, 9, 7]), 3);
    assert_eq!(middle(&vec![2, 2]), 0);
    assert_eq!(middle(&vec![-4]), 0);
}

#[test]
fn an_axis_goes_a_little_beyond_its_end() {
    assert_eq!(
        grid_axis(-500_000_000, 1_000_000_000),
        vec![-500_000_000, 0, 500_000_000, 1_000_000_000]
    );
    assert_eq!(grid_axis(0, 499_999_999), vec![0, 500_000_000]);
    assert_eq!(grid_axis(0, 499_999_998), vec![0]);
    assert!(grid_axis(0, -2).is_empty());
}

#[test]
fn jitter_grows_by_four_up_to_a_limit() {
    assert_eq!(jitter(0), Some(1));
    assert_eq!(jitter(1), Some(4));
    assert_eq!(jitter(16), Some(4_294_967_296));
    assert_eq!(jitter(17), None);
    assert_eq!(jitter(400), None);
}

#[test]
fn a_hypothesis_takes_the_parameters_of_its_event_and_stations() {
    let record = |key: &str, solved: bool| FitRecord {
        event_key: key.to_string(),
        solved,
        score: 0,
        stations: vec![],
    };
    let events = Verdict::Accepted {
        events: names(&["E1", "E2"]),
        reference: "A".to_string(),
    };
    let shared = names(&["A", "B", "D"]);
    let stations = names(&["A", "B", "C", "D"]);
    let part = joint_part(&record("E2", true), &events, &shared, &stations).unwrap();
    assert_eq!(part.start, 3);
    assert_eq!(part.clocks, vec![None, Some(6), None, Some(7)]);
    assert!(joint_part(&record("E2", false), &events, &shared, &stations).is_none());
    assert!(joint_part(&record("E3", true), &events, &shared, &stations).is_none());
    assert_eq!(find_joint_clock(2, &shared, "D"), Some(7));
    assert_eq!(find_joint_clock(2, &shared, "A"), None);
    assert_eq!(find_joint_clock(2, &shared, "Z"), None);
}
