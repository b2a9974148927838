use malh::tuple::Tuple;
use std::str;

#[test]
fn parse_question_marks() {
    assert!(Tuple::parse("hello?", 1).is_none());
    assert!(Tuple::parse("hello,?", 2).is_none());
}

#[test]
fn parse() {
    assert_eq!(Tuple::parse("hello,world", 2).unwrap().values, vec!["hello", "world"]);
    assert_eq!(Tuple::parse("hello world,,", 3).unwrap().values, vec!["hello world", "", ""]);
}

#[test]
fn serialise_parse_bytes() {
    let data = ["hello,world", "wow", "rust,haskell,c,java,python,lisp"];
    for &tuple in &data {
        let serialised = Tuple::parse_bytes(tuple.as_bytes()).serialise();
        let roundtrip = str::from_utf8(&serialised[..serialised.len() - 1]).unwrap();
        assert_eq!(tuple, roundtrip);
    }
}

#[test]
fn to_string_joins_with_commas() {
    let t = Tuple::parse("a,b,c", 3).unwrap();
    assert_eq!(t.to_string(), "a,b,c");
    let s = t.serialise();
    assert_eq!(s, b"a,b,c\0".to_vec());
}

#[test]
fn parse_rejects_wrong_count() {
    assert!(Tuple::parse("a,b", 3).is_none());
    assert!(Tuple::parse("a,b,c,d", 3).is_none());
}
