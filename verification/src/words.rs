//! Filtering a raw word list down to the dictionary the solver is built
//! from: each line is uppercased, only lines that are exactly `size`
//! alphabetic characters are retained, and duplicates are dropped.
//!
//! Reading the raw list from storage is the surrounding application's job;
//! this module starts from the list of lines.

use vstd::prelude::*;

verus! {

/// The uppercase form of a string, as `str::to_uppercase` computes it.
/// It depends on the characters of the input alone.
pub uninterp spec fn upper_of(s: Seq<char>) -> Seq<char>;

/// Relies on `str::to_uppercase`: the returned string is the uppercase
/// equivalent of the input, a function of the input's characters alone.
#[verifier::external_body]
fn to_upper(s: &str) -> (r: String)
    ensures
        r@ == upper_of(s@),
{
    s.to_uppercase()
}

/// An ASCII letter, of either case.
pub open spec fn is_ascii_letter(c: char) -> bool {
    ('A' <= c && c <= 'Z') || ('a' <= c && c <= 'z')
}

/// A word of exactly `n` ASCII letters.
pub open spec fn is_alpha_of_len(s: Seq<char>, n: int) -> bool {
    s.len() == n && (forall|i: int| 0 <= i < s.len() ==> is_ascii_letter(#[trigger] s[i]))
}

/// Relies on `regex::Regex::is_match` with the anchored pattern
/// `^[[:alpha:]]{n}$`: the POSIX class `[[:alpha:]]` matches exactly the
/// ASCII letters `[A-Za-z]`, and the anchors make the whole string match,
/// so the call returns true exactly when the string is `n` ASCII letters.
/// `regex::Regex::new` cannot fail on this pattern.
#[verifier::external_body]
fn matches_alpha_len(s: &str, n: u8) -> (r: bool)
    ensures
        r == is_alpha_of_len(s@, n as int),
{
    let pattern = format!("^[[:alpha:]]{{{}}}$", n);
    let nchars = regex::Regex::new(&pattern).unwrap();
    nchars.is_match(s)
}

/// The word `w` stands somewhere in `words`.
pub open spec fn word_listed(words: Seq<String>, w: Seq<char>) -> bool {
    exists|i: int| 0 <= i < words.len() && (#[trigger] words[i])@ == w
}

/// The word `w` is the uppercase form of one of the `lines`.
pub open spec fn upper_of_some_line(lines: Seq<String>, w: Seq<char>) -> bool {
    exists|j: int| 0 <= j < lines.len() && w == upper_of((#[trigger] lines[j])@)
}

/// The word `w` is the uppercase form of one of the first `j` lines.
spec fn upper_of_line_before(lines: Seq<String>, w: Seq<char>, j: int) -> bool {
    exists|j2: int| 0 <= j2 < j && j2 < lines.len() && w == upper_of((#[trigger] lines[j2])@)
}

/// Whether some already-retained word has this view.
fn contains_word(words: &Vec<String>, w: &String) -> (r: bool)
    ensures
        r == word_listed(words@, w@),
{
    let mut i: usize = 0;
    #[verifier::loop_isolation(false)]
    while i < words.len()
        invariant
            0 <= i <= words@.len(),
            forall|j: int| 0 <= j < i ==> (#[trigger] words@[j])@ != w@,
        decreases words@.len() - i,
    {
        if words[i] == *w {
            proof {
                assert(word_listed(words@, w@));
            }
            return true;
        }
        i += 1;
    }
    false
}

/// Uppercases every line, retains exactly those lines whose uppercase form
/// is `size` alphabetic characters, and drops duplicates. The result is the
/// dictionary a solver is built from.
pub fn filter_words(lines: &Vec<String>, size: u8) -> (words: Vec<String>)
    ensures
        // every retained word fits and is the uppercase form of some line
        forall|i: int|
            0 <= i < words@.len() ==> is_alpha_of_len((#[trigger] words@[i])@, size as int),
        forall|i: int|
            0 <= i < words@.len() ==> upper_of_some_line(lines@, (#[trigger] words@[i])@),
        // every fitting line is represented
        forall|j: int|
            0 <= j < lines@.len() && is_alpha_of_len(upper_of((#[trigger] lines@[j])@), size as int)
                ==> word_listed(words@, upper_of(lines@[j]@)),
        // no duplicates
        forall|i1: int, i2: int|
            0 <= i1 < i2 < words@.len() ==> (#[trigger] words@[i1])@ != (#[trigger] words@[i2])@,
{
    let mut words: Vec<String> = Vec::new();
    let mut j: usize = 0;
    #[verifier::loop_isolation(false)]
    while j < lines.len()
        invariant
            0 <= j <= lines@.len(),
            forall|i: int|
                0 <= i < words@.len() ==> is_alpha_of_len((#[trigger] words@[i])@, size as int),
            forall|i: int|
                0 <= i < words@.len() ==> upper_of_line_before(lines@, (#[trigger] words@[i])@, j as int),
            forall|j2: int|
                0 <= j2 < j && is_alpha_of_len(upper_of((#[trigger] lines@[j2])@), size as int)
                    ==> word_listed(words@, upper_of(lines@[j2]@)),
            forall|i1: int, i2: int|
                0 <= i1 < i2 < words@.len() ==> (#[trigger] words@[i1])@ != (#[trigger] words@[i2])@,
        decreases lines@.len() - j,
    {
        let ghost words_before = words@;
        let upper = to_upper(lines[j].as_str());
        let matched = matches_alpha_len(upper.as_str(), size);
        let present = if matched {
            contains_word(&words, &upper)
        } else {
            false
        };
        if matched && !present {
            words.push(upper);
        }
        proof {
            assert(upper@ == upper_of(lines@[j as int]@));
            assert forall|i: int|
                0 <= i < words@.len() implies upper_of_line_before(
                lines@,
                (#[trigger] words@[i])@,
                j as int + 1,
            ) by {
                if i < words_before.len() {
                    assert(words@[i] == words_before[i]);
                    let j2 = choose|j2: int|
                        0 <= j2 < j && j2 < lines@.len() && words_before[i]@ == upper_of(
                            (#[trigger] lines@[j2])@,
                        );
                    assert(words@[i]@ == upper_of(lines@[j2]@));
                } else {
                    assert(words@[i]@ == upper_of(lines@[j as int]@));
                }
            }
            assert forall|j2: int|
                0 <= j2 < j + 1 && is_alpha_of_len(
                    upper_of((#[trigger] lines@[j2])@),
                    size as int,
                ) implies word_listed(words@, upper_of(lines@[j2]@)) by {
                if j2 < j {
                    let i = choose|i: int|
                        0 <= i < words_before.len() && (#[trigger] words_before[i])@ == upper_of(
                            lines@[j2]@,
                        );
                    assert(words@[i]@ == upper_of(lines@[j2]@));
                    assert(word_listed(words@, upper_of(lines@[j2]@)));
                } else {
                    // this line fits, so it was either found or pushed
                    assert(matched);
                    if present {
                        let i = choose|i: int|
                            0 <= i < words_before.len() && (#[trigger] words_before[i])@ == upper@;
                        assert(words@[i]@ == upper_of(lines@[j2]@));
                    } else {
                        assert(words@[words@.len() - 1]@ == upper_of(lines@[j2]@));
                    }
                    assert(word_listed(words@, upper_of(lines@[j2]@)));
                }
            }
        }
        j += 1;
    }
    proof {
        assert forall|i: int|
            0 <= i < words@.len() implies upper_of_some_line(lines@, (#[trigger] words@[i])@) by {
            let j2 = choose|j2: int|
                0 <= j2 < j && j2 < lines@.len() && words@[i]@ == upper_of(
                    (#[trigger] lines@[j2])@,
                );
            assert(0 <= j2 < lines@.len() && words@[i]@ == upper_of(lines@[j2]@));
        }
    }
    words
}

} // verus!
