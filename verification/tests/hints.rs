use std::str::FromStr;
use wordle_solver::hint::{HintParseError, HintType};

#[test]
fn parse_valid_codes() {
    assert!(matches!(HintType::from_code("x"), Ok(HintType::Invalid)));
    assert!(matches!(HintType::from_code("e"), Ok(HintType::Exists)));
    assert!(matches!(HintType::from_code("g"), Ok(HintType::WellPlaced)));
}

#[test]
fn parse_through_from_str() {
    assert!(matches!(HintType::from_str("x"), Ok(HintType::Invalid)));
    assert!(matches!(HintType::from_str("e"), Ok(HintType::Exists)));
    assert!(matches!(HintType::from_str("g"), Ok(HintType::WellPlaced)));
}

#[test]
fn parse_invalid_code_keeps_the_code() {
    match HintType::from_code("q") {
        Err(HintParseError::InvalidCode(code)) => assert_eq!(code, "q"),
        _ => panic!("expected InvalidCode"),
    }
    match HintType::from_code("xx") {
        Err(HintParseError::InvalidCode(code)) => assert_eq!(code, "xx"),
        _ => panic!("expected InvalidCode"),
    }
    match HintType::from_code("") {
        Err(HintParseError::InvalidCode(code)) => assert_eq!(code, ""),
        _ => panic!("expected InvalidCode"),
    }
    match HintType::from_code("G") {
        Err(HintParseError::InvalidCode(code)) => assert_eq!(code, "G"),
        _ => panic!("expected InvalidCode"),
    }
}
