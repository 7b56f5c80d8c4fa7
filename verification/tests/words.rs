use wordle_solver::words::filter_words;

fn lines(ls: &[&str]) -> Vec<String> {
    ls.iter().map(|s| String::from(*s)).collect()
}

#[test]
fn filter_uppercases_and_selects_by_length() {
    let input = lines(&["abbey", "Crane", "toolong", "ab1ey", "dog", "TOOLS"]);
    let words = filter_words(&input, 5);
    assert_eq!(words, vec![String::from("ABBEY"), String::from("CRANE"), String::from("TOOLS")]);
}

#[test]
fn filter_drops_duplicates_after_uppercasing() {
    let input = lines(&["abbey", "ABBEY", "Abbey", "crane", "abbey"]);
    let words = filter_words(&input, 5);
    assert_eq!(words, vec![String::from("ABBEY"), String::from("CRANE")]);
}

#[test]
fn filter_rejects_non_ascii_and_non_alphabetic() {
    let input = lines(&["éclat", "cœurs", "ab cd", "a-bcd", "plain"]);
    let words = filter_words(&input, 5);
    assert_eq!(words, vec![String::from("PLAIN")]);
}

#[test]
fn filter_with_other_sizes() {
    let input = lines(&["dog", "cat", "mouse", "ox", ""]);
    assert_eq!(filter_words(&input, 3), vec![String::from("DOG"), String::from("CAT")]);
    assert_eq!(filter_words(&input, 2), vec![String::from("OX")]);
    assert_eq!(filter_words(&input, 0), vec![String::from("")]);
    assert_eq!(filter_words(&lines(&[]), 5), Vec::<String>::new());
}
