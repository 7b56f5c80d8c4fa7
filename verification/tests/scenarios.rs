use wordle_solver::hint::{Hint, HintType};
use wordle_solver::solver::Solver;

fn dict(ws: &[&str]) -> Vec<String> {
    ws.iter().map(|s| String::from(*s)).collect()
}

fn hint(kind: HintType, letter: char, position: usize) -> Hint {
    Hint { hint: kind, letter, position }
}

#[test]
fn basic_indexing() {
    let solver = Solver::new(dict(&["BOUDIN", "BLANC"]));
    assert_eq!(solver.with_letter(&'B').len(), 2);
    assert_eq!(solver.with_letter(&'N').len(), 2);
    assert_eq!(solver.with_letter(&'Z').len(), 0);
    assert_eq!(solver.with_letter_in_position(&'B', &0).len(), 2);
    assert_eq!(solver.with_letter_in_position(&'O', &1).len(), 1);
    // the pool starts as the whole dictionary
    assert_eq!(solver.n_candidates(), 2);
}

#[test]
fn pruning() {
    let mut solver = Solver::new(dict(&["CLASS", "CLOCK", "COACH", "COURT"]));
    solver.add_raw_hint(&'O', &5, HintType::Exists);
    assert_eq!(solver.n_candidates(), 3);
    solver.add_raw_hint(&'L', &1, HintType::WellPlaced);
    assert_eq!(solver.n_candidates(), 1);
    solver.add_raw_hint(&'S', &0, HintType::Invalid);
    assert_eq!(solver.n_candidates(), 1);
}

#[test]
fn exists_invalid_conflict() {
    let mut solver = Solver::new(dict(&["CLASS", "COACH", "COURT"]));
    solver.add_raw_hint(&'L', &1, HintType::WellPlaced);
    assert_eq!(solver.n_candidates(), 1);
    assert_eq!(solver.first_candidate().unwrap().as_str(), "CLASS");
    // 'L' is already confirmed to exist, so the contradictory Invalid hint
    // is discarded instead of emptying the pool.
    solver.add_raw_hint(&'L', &1, HintType::Invalid);
    assert_eq!(solver.n_candidates(), 1);
    assert_eq!(solver.first_candidate().unwrap().as_str(), "CLASS");
}

#[test]
fn exhaustion() {
    // Wordle-style rounds of correct feedback for the solution "ABBEY"
    // converge the pool to exactly one candidate; one further contradictory
    // hint drives it to zero.
    let mut solver = Solver::new(dict(&["ABBEY", "AMBER", "CRANE", "BEACH", "ANNEX"]));
    assert_eq!(solver.n_candidates(), 5);

    // guess "BEACH" against "ABBEY"
    solver.ingest_hints(vec![
        hint(HintType::Exists, 'B', 0),
        hint(HintType::Exists, 'E', 1),
        hint(HintType::Exists, 'A', 2),
        hint(HintType::Invalid, 'C', 3),
        hint(HintType::Invalid, 'H', 4),
    ]);
    assert_eq!(solver.n_candidates(), 2);

    // guess "AMBER" against "ABBEY"
    solver.ingest_hints(vec![
        hint(HintType::WellPlaced, 'A', 0),
        hint(HintType::Invalid, 'M', 1),
        hint(HintType::WellPlaced, 'B', 2),
        hint(HintType::WellPlaced, 'E', 3),
        hint(HintType::Invalid, 'R', 4),
    ]);
    assert_eq!(solver.n_candidates(), 1);
    assert_eq!(solver.first_candidate().unwrap().as_str(), "ABBEY");

    // a contradictory hint for a letter and position not in "ABBEY"
    solver.add_raw_hint(&'E', &4, HintType::WellPlaced);
    assert_eq!(solver.n_candidates(), 0);
    assert_eq!(solver.first_candidate(), None);
}

#[test]
fn same_hint_twice_changes_nothing_more() {
    // Idempotence, on concrete values: the second application of the same
    // WellPlaced or Exists hint leaves the pool as it was.
    let mut solver = Solver::new(dict(&["CLASS", "CLOCK", "COACH", "COURT"]));
    solver.add_raw_hint(&'O', &5, HintType::Exists);
    let after_once = solver.n_candidates();
    solver.add_raw_hint(&'O', &5, HintType::Exists);
    assert_eq!(solver.n_candidates(), after_once);
    solver.add_raw_hint(&'L', &1, HintType::WellPlaced);
    let after_once = solver.n_candidates();
    solver.add_raw_hint(&'L', &1, HintType::WellPlaced);
    assert_eq!(solver.n_candidates(), after_once);
}

#[test]
fn pool_never_grows() {
    // Monotonicity, on concrete values: every call can only shrink the pool.
    let mut solver = Solver::new(dict(&["CLASS", "CLOCK", "COACH", "COURT", "CARTE"]));
    let mut last = solver.n_candidates();
    solver.add_raw_hint(&'C', &0, HintType::WellPlaced);
    assert!(solver.n_candidates() <= last);
    last = solver.n_candidates();
    solver.ingest_hints(vec![
        hint(HintType::Exists, 'O', 5),
        hint(HintType::Invalid, 'S', 0),
    ]);
    assert!(solver.n_candidates() <= last);
    last = solver.n_candidates();
    solver.discard_word("CLOCK");
    assert!(solver.n_candidates() <= last);
}

#[test]
fn batch_order_is_irrelevant() {
    // A batch with an Invalid and a WellPlaced hint for the same letter is
    // applied confirming-hint first, whatever the batch's input order.
    let mut a = Solver::new(dict(&["CLASS", "COACH", "COURT"]));
    a.ingest_hints(vec![
        hint(HintType::Invalid, 'L', 1),
        hint(HintType::WellPlaced, 'L', 1),
    ]);
    let mut b = Solver::new(dict(&["CLASS", "COACH", "COURT"]));
    b.ingest_hints(vec![
        hint(HintType::WellPlaced, 'L', 1),
        hint(HintType::Invalid, 'L', 1),
    ]);
    assert_eq!(a.n_candidates(), 1);
    assert_eq!(b.n_candidates(), 1);
    assert_eq!(a.first_candidate().unwrap().as_str(), "CLASS");
    assert_eq!(b.first_candidate().unwrap().as_str(), "CLASS");
}
