//! Hints: the structured form of the game's per-letter feedback.

use vstd::prelude::*;

verus! {

/// The nature of the feedback the game gave about one letter of a guess.
#[derive(Clone, Copy, PartialEq, Eq, Structural)]
pub enum HintType {
    /// The letter is confirmed at exactly this position.
    WellPlaced,
    /// The letter is confirmed present in the word, but not at this position.
    Exists,
    /// The letter is confirmed absent from the word (unless an earlier hint
    /// already confirmed it present, in which case the hint is discarded).
    Invalid,
}

/// A convenience struct carrying one observation about one letter
/// at one position of the most recent guess.
#[derive(Clone)]
pub struct Hint {
    pub hint: HintType,
    pub letter: char,
    pub position: usize,
}

/// Returned when a feedback code does not name one of the three hint kinds.
#[derive(Debug)]
pub enum HintParseError {
    InvalidCode(String),
}

impl HintType {
    /// Translates a one-character feedback code into a hint kind:
    /// `"x"` is `Invalid`, `"e"` is `Exists`, `"g"` is `WellPlaced`.
    /// Any other code fails with `InvalidCode`, carrying the code verbatim.
    pub fn from_code(s: &str) -> (r: Result<HintType, HintParseError>)
        ensures
            s@ == "x"@ ==> r == Ok::<HintType, HintParseError>(HintType::Invalid),
            s@ == "e"@ ==> r == Ok::<HintType, HintParseError>(HintType::Exists),
            s@ == "g"@ ==> r == Ok::<HintType, HintParseError>(HintType::WellPlaced),
            r is Ok <==> (s@ == "x"@ || s@ == "e"@ || s@ == "g"@),
            r matches Err(HintParseError::InvalidCode(code)) ==> code@ == s@,
    {
        proof {
            reveal_strlit("x");
            reveal_strlit("e");
            reveal_strlit("g");
        }
        if s.unicode_len() == 1 {
            let c = s.get_char(0);
            if c == 'x' {
                proof {
                    assert(s@ =~= "x"@);
                }
                return Ok(HintType::Invalid);
            }
            if c == 'e' {
                proof {
                    assert(s@ =~= "e"@);
                }
                return Ok(HintType::Exists);
            }
            if c == 'g' {
                proof {
                    assert(s@ =~= "g"@);
                }
                return Ok(HintType::WellPlaced);
            }
        }
        Err(HintParseError::InvalidCode(s.to_owned()))
    }
}

impl core::str::FromStr for HintType {
    type Err = HintParseError;

    fn from_str(s: &str) -> Result<HintType, HintParseError> {
        HintType::from_code(s)
    }
}

} // verus!
