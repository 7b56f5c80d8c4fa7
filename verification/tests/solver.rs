use wordle_solver::solver::{HintType, Solver};

#[test]
fn solver_hints() {
    let words: Vec<String> = vec![
        String::from("class"),
        String::from("clock"),
        String::from("coach"),
        String::from("court"),
        String::from("carte"),
    ];
    let mut solver = Solver::new(words);
    solver.discard_word("carte");
    assert_eq!(solver.n_candidates(), 4);
    solver.add_raw_hint(&'o', &5, HintType::Exists);
    assert_eq!(solver.n_candidates(), 3);

    solver.add_raw_hint(&'l', &1, HintType::WellPlaced);
    assert_eq!(solver.n_candidates(), 1);

    solver.add_raw_hint(&'l', &1, HintType::Invalid);
    assert_eq!(solver.n_candidates(), 1); // Buggy invalid hints are ignored.

    // The position does not really matter for an invalid hint
    solver.add_raw_hint(&'s', &0, HintType::Invalid);
    assert_eq!(solver.n_candidates(), 1);
}

#[test]
fn build_solver() {
    let words: Vec<String> = vec![String::from("boudin"), String::from("blanc")];
    let solver = Solver::new(words);
    let llen = |l: &char| solver.with_letter(l).len();
    let lplen = |l: &char, p: &usize| solver.with_letter_in_position(l, p).len();

    assert!(solver.first_candidate().is_some());
    assert_eq!(llen(&'b'), 2);
    assert_eq!(llen(&'o'), 1);
    assert_eq!(llen(&'u'), 1);
    assert_eq!(llen(&'d'), 1);
    assert_eq!(llen(&'i'), 1);
    assert_eq!(llen(&'n'), 2);

    assert_eq!(llen(&'l'), 1);
    assert_eq!(llen(&'a'), 1);
    assert_eq!(llen(&'c'), 1);
    assert_eq!(llen(&'z'), 0);

    assert_eq!(lplen(&'b', &0), 2);
    assert_eq!(lplen(&'o', &0), 0);
    assert_eq!(lplen(&'o', &1), 1);
    assert_eq!(lplen(&'u', &1), 0);
    assert_eq!(lplen(&'u', &2), 1);
}

#[test]
fn empty_dictionary() {
    let mut solver = Solver::new(Vec::new());
    assert_eq!(solver.n_candidates(), 0);
    assert!(solver.first_candidate().is_none());
    solver.add_raw_hint(&'a', &0, HintType::WellPlaced);
    assert_eq!(solver.n_candidates(), 0);
}

#[test]
fn out_of_range_position_empties_pool() {
    // A position beyond every word references an empty index bucket:
    // retaining against it removes everything.
    let words: Vec<String> = vec![String::from("class"), String::from("clock")];
    let mut solver = Solver::new(words);
    solver.add_raw_hint(&'c', &99, HintType::WellPlaced);
    assert_eq!(solver.n_candidates(), 0);
    assert!(solver.first_candidate().is_none());
}

#[test]
fn unknown_letter_invalid_removes_nothing() {
    // Removing against an empty bucket removes nothing.
    let words: Vec<String> = vec![String::from("class"), String::from("clock")];
    let mut solver = Solver::new(words);
    solver.add_raw_hint(&'z', &0, HintType::Invalid);
    assert_eq!(solver.n_candidates(), 2);
}

#[test]
fn unknown_letter_exists_empties_pool() {
    let words: Vec<String> = vec![String::from("class"), String::from("clock")];
    let mut solver = Solver::new(words);
    solver.add_raw_hint(&'z', &0, HintType::Exists);
    assert_eq!(solver.n_candidates(), 0);
}

#[test]
fn discard_absent_word_is_noop() {
    let words: Vec<String> = vec![String::from("class"), String::from("clock")];
    let mut solver = Solver::new(words);
    solver.discard_word("crane");
    assert_eq!(solver.n_candidates(), 2);
    solver.discard_word("class");
    assert_eq!(solver.n_candidates(), 1);
    assert_eq!(solver.first_candidate().unwrap().as_str(), "clock");
}
