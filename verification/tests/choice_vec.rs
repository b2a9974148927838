use malh::choice_vec::{ChoiceVec, ParseError};
use std::iter::repeat;
use malh::util::HASH_SIZE;

#[test]
fn parse_1_n_2s() {
    match ChoiceVec::parse("1,2:1,2", 2) {
        Ok(result) => {
            let expect: Vec<(u32, u8)> = vec![(1, 2), (1, 2)];
            assert_eq!(&result.data[..2], &expect[..]);
        }
        Err(reason) => {
            panic!("failed to parse, because {:?}", reason);
        }
    }
}

#[test]
fn parse_three() {
    ChoiceVec::parse("1,2,3", 3).unwrap_err();
}

#[test]
fn parse_too_long() {
    let raw_vec: Vec<&str> = repeat("1,1").take(HASH_SIZE + 1).collect();
    let too_long: String = raw_vec.join(":");
    ChoiceVec::parse(&too_long, 10).unwrap_err();
}

#[test]
fn parse_attr_too_high() {
    ChoiceVec::parse("50,1", 1).unwrap_err();
    ChoiceVec::parse("1,1", 1).unwrap_err();
}

#[test]
fn parse_bit_too_high() {
    ChoiceVec::parse("0,31", 1).unwrap();
    ChoiceVec::parse("0,32", 1).unwrap_err();
    ChoiceVec::parse("0,33", 1).unwrap_err();
}

// This case should be the slowest for generating a choice vec, as the
// fraction of the search space that's invalid each iteration is maximised.
#[test]
fn pathological_generate() {
    assert_eq!(ChoiceVec::new(vec![], 1).data.len(), HASH_SIZE);
}

#[test]
fn parse_error_kinds() {
    assert!(matches!(ChoiceVec::parse("a,1", 2), Err(ParseError::NumberUnparsable)));
    assert!(matches!(ChoiceVec::parse("0", 2), Err(ParseError::InvalidEntry)));
    assert!(matches!(ChoiceVec::parse("5,1", 2), Err(ParseError::InvalidAttr(5))));
    assert!(matches!(ChoiceVec::parse("0,32", 2), Err(ParseError::InvalidBit(32))));
}

#[test]
fn generated_entries_are_fresh() {
    let cv = ChoiceVec::new(vec![(0, 0), (0, 1)], 2);
    assert_eq!(cv.data.len(), 32);
    for i in 2..32 {
        for j in 0..i {
            assert_ne!(cv.data[j], cv.data[i]);
        }
    }
}
