use malh::query::{ParseError, Query};
use malh::tuple::Tuple;

#[test]
fn parse_with_correct_arg_number() {
    let query = Query::parse("a,b,c", 3);
    assert!(query.is_ok());
}

#[test]
fn parse_with_wrong_arg_number() {
    let query_1 = Query::parse("a,b,c", 2);
    assert!(query_1 == Err(ParseError::AttributeMismatch(2, 3)));

    let query_2 = Query::parse("a,b,c", 4);
    assert!(query_2 == Err(ParseError::AttributeMismatch(4, 3)));
}

#[test]
fn parse_correctly_identify_unknowns() {
    let query = Query::parse("a,?,c", 3);
    if let Ok(query) = query {
        assert!(query.matches[0] != None);
        assert!(query.matches[1] == None);
        assert!(query.matches[2] != None);
    } else {
        panic!();
    }
}

#[test]
fn matching() {
    let data = [
        (Query::parse("hello,?", 2), Tuple::parse("hello,world", 2), true),
        (Query::parse("hello,?", 2), Tuple::parse("world,hello", 2), false),
        (Query::parse("?", 1), Tuple::parse("wowzas", 1), true),
    ];
    for &(ref query, ref tuple, exp) in data.iter() {
        assert_eq!(query.as_ref().unwrap().matches_tuple(tuple.as_ref().unwrap()), exp);
    }
}

#[test]
fn wildcard_is_all_unknown() {
    let q = Query::wildcard(4);
    assert_eq!(q.matches.len(), 4);
    assert!(q.matches.iter().all(|m| m.is_none()));
}
